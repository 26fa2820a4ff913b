use compute_pass::command::ComputeCommand;
use compute_pass::compute_commands::{
    wgpu_compute_pass_begin_pipeline_statistics_query, wgpu_compute_pass_dispatch_workgroups,
    wgpu_compute_pass_dispatch_workgroups_indirect,
    wgpu_compute_pass_end_pipeline_statistics_query, wgpu_compute_pass_insert_debug_marker,
    wgpu_compute_pass_pop_debug_group, wgpu_compute_pass_push_debug_group,
    wgpu_compute_pass_set_bind_group, wgpu_compute_pass_set_pipeline,
    wgpu_compute_pass_set_push_constant, wgpu_compute_pass_write_timestamp,
};
use compute_pass::id::{
    BindGroupId, BufferId, CommandEncoderId, ComputePipelineId, QuerySetId,
};
use compute_pass::pass::{ComputePass, ComputePassDescriptor, ComputePassTimestampWrites};
use compute_pass::trace::Command;

fn new_pass() -> ComputePass {
    ComputePass::new(CommandEncoderId(7), &ComputePassDescriptor::default())
}

#[test]
fn a_new_pass_is_empty() {
    let writes = ComputePassTimestampWrites {
        query_set: QuerySetId(9),
        beginning_of_pass_write_index: Some(1),
        end_of_pass_write_index: None,
    };
    let desc = ComputePassDescriptor { label: Some("blur"), timestamp_writes: Some(&writes) };
    let pass = ComputePass::new(CommandEncoderId(7), &desc);
    assert_eq!(pass.parent_id(), CommandEncoderId(7));
    assert_eq!(pass.base().label, Some("blur"));
    assert!(pass.base().commands.is_empty());
    assert!(pass.base().dynamic_offsets.is_empty());
    assert!(pass.base().string_data.is_empty());
    assert!(pass.base().push_constant_data.is_empty());
    assert_eq!(pass.timestamp_writes(), Some(&writes));
}

#[test]
fn the_default_descriptor_asks_for_nothing() {
    let desc = ComputePassDescriptor::default();
    assert!(desc.label.is_none());
    assert!(desc.timestamp_writes.is_none());
    let pass = new_pass();
    assert_eq!(pass.base().label, None);
    assert_eq!(pass.timestamp_writes(), None);
}

#[test]
fn plain_commands_are_written_down_in_order() {
    let mut pass = new_pass();
    wgpu_compute_pass_dispatch_workgroups(&mut pass, 1, 2, 3);
    wgpu_compute_pass_dispatch_workgroups_indirect(&mut pass, BufferId(5), 16);
    wgpu_compute_pass_pop_debug_group(&mut pass);
    wgpu_compute_pass_write_timestamp(&mut pass, QuerySetId(6), 4);
    wgpu_compute_pass_begin_pipeline_statistics_query(&mut pass, QuerySetId(8), 0);
    wgpu_compute_pass_end_pipeline_statistics_query(&mut pass);
    assert_eq!(
        pass.base().commands,
        &[
            ComputeCommand::Dispatch([1, 2, 3]),
            ComputeCommand::DispatchIndirect { buffer_id: BufferId(5), offset: 16 },
            ComputeCommand::PopDebugGroup,
            ComputeCommand::WriteTimestamp { query_set_id: QuerySetId(6), query_index: 4 },
            ComputeCommand::BeginPipelineStatisticsQuery {
                query_set_id: QuerySetId(8),
                query_index: 0,
            },
            ComputeCommand::EndPipelineStatisticsQuery,
        ]
    );
}

#[test]
fn a_pipeline_that_is_set_already_is_not_recorded_again() {
    let mut pass = new_pass();
    wgpu_compute_pass_set_pipeline(&mut pass, ComputePipelineId(1));
    wgpu_compute_pass_set_pipeline(&mut pass, ComputePipelineId(1));
    wgpu_compute_pass_set_pipeline(&mut pass, ComputePipelineId(2));
    wgpu_compute_pass_set_pipeline(&mut pass, ComputePipelineId(1));
    assert_eq!(
        pass.base().commands,
        &[
            ComputeCommand::SetPipeline(ComputePipelineId(1)),
            ComputeCommand::SetPipeline(ComputePipelineId(2)),
            ComputeCommand::SetPipeline(ComputePipelineId(1)),
        ]
    );
}

#[test]
fn a_group_that_is_bound_already_is_not_recorded_again() {
    let mut pass = new_pass();
    wgpu_compute_pass_set_bind_group(&mut pass, 0, BindGroupId(1), &[]);
    wgpu_compute_pass_set_bind_group(&mut pass, 0, BindGroupId(1), &[]);
    assert_eq!(pass.base().commands.len(), 1);
    // Another slot, and another group in the first slot, are no repetitions.
    wgpu_compute_pass_set_bind_group(&mut pass, 1, BindGroupId(1), &[]);
    wgpu_compute_pass_set_bind_group(&mut pass, 0, BindGroupId(2), &[]);
    assert_eq!(pass.base().commands.len(), 3);
    wgpu_compute_pass_set_bind_group(&mut pass, 0, BindGroupId(1), &[]);
    assert_eq!(pass.base().commands.len(), 4);
}

#[test]
fn groups_with_dynamic_offsets_are_always_recorded() {
    let mut pass = new_pass();
    wgpu_compute_pass_set_bind_group(&mut pass, 0, BindGroupId(1), &[256, 512]);
    wgpu_compute_pass_set_bind_group(&mut pass, 0, BindGroupId(1), &[256, 512]);
    // The binding with offsets is not remembered, so that without offsets it is recorded.
    wgpu_compute_pass_set_bind_group(&mut pass, 0, BindGroupId(1), &[]);
    assert_eq!(
        pass.base().commands,
        &[
            ComputeCommand::SetBindGroup {
                index: 0,
                num_dynamic_offsets: 2,
                bind_group_id: BindGroupId(1),
            },
            ComputeCommand::SetBindGroup {
                index: 0,
                num_dynamic_offsets: 2,
                bind_group_id: BindGroupId(1),
            },
            ComputeCommand::SetBindGroup {
                index: 0,
                num_dynamic_offsets: 0,
                bind_group_id: BindGroupId(1),
            },
        ]
    );
    assert_eq!(pass.base().dynamic_offsets, &[256, 512, 256, 512]);
}

#[test]
fn slots_that_do_not_exist_are_recorded_each_time() {
    let mut pass = new_pass();
    wgpu_compute_pass_set_bind_group(&mut pass, 8, BindGroupId(1), &[]);
    wgpu_compute_pass_set_bind_group(&mut pass, 8, BindGroupId(1), &[]);
    assert_eq!(pass.base().commands.len(), 2);
}

#[test]
fn push_constants_become_words_of_the_machine() {
    let mut pass = new_pass();
    wgpu_compute_pass_set_push_constant(&mut pass, 4, &[1, 2, 3, 4, 0xfe, 0, 0, 0x80]);
    wgpu_compute_pass_set_push_constant(&mut pass, 0, &[9, 0, 0, 0]);
    assert_eq!(
        pass.base().push_constant_data,
        &[
            u32::from_ne_bytes([1, 2, 3, 4]),
            u32::from_ne_bytes([0xfe, 0, 0, 0x80]),
            u32::from_ne_bytes([9, 0, 0, 0]),
        ]
    );
    assert_eq!(
        pass.base().commands,
        &[
            ComputeCommand::SetPushConstant { offset: 4, size_bytes: 8, values_offset: 0 },
            ComputeCommand::SetPushConstant { offset: 0, size_bytes: 4, values_offset: 2 },
        ]
    );
}

#[test]
fn setting_no_push_constants_is_recorded() {
    let mut pass = new_pass();
    wgpu_compute_pass_set_push_constant(&mut pass, 8, &[]);
    assert!(pass.base().push_constant_data.is_empty());
    assert_eq!(
        pass.base().commands,
        &[ComputeCommand::SetPushConstant { offset: 8, size_bytes: 0, values_offset: 0 }]
    );
}

#[test]
fn labels_are_kept_as_bytes() {
    let mut pass = new_pass();
    wgpu_compute_pass_push_debug_group(&mut pass, "größe", 3);
    wgpu_compute_pass_insert_debug_marker(&mut pass, "", 4);
    wgpu_compute_pass_insert_debug_marker(&mut pass, "ab", 5);
    assert_eq!(
        pass.base().commands,
        &[
            ComputeCommand::PushDebugGroup { color: 3, len: 7 },
            ComputeCommand::InsertDebugMarker { color: 4, len: 0 },
            ComputeCommand::InsertDebugMarker { color: 5, len: 2 },
        ]
    );
    assert_eq!(pass.base().string_data, "größeab".as_bytes());
}

#[test]
fn a_pass_becomes_a_traced_call() {
    let desc = ComputePassDescriptor { label: Some("sort"), timestamp_writes: None };
    let mut pass = ComputePass::new(CommandEncoderId(7), &desc);
    wgpu_compute_pass_set_bind_group(&mut pass, 0, BindGroupId(1), &[32]);
    wgpu_compute_pass_push_debug_group(&mut pass, "x", 0);
    wgpu_compute_pass_set_push_constant(&mut pass, 0, &[0, 0, 0, 0]);
    let Command::RunComputePass { base, timestamp_writes } = pass.into_command();
    assert_eq!(base.label.as_deref(), Some("sort"));
    assert_eq!(base.commands.len(), 3);
    assert_eq!(base.dynamic_offsets, vec![32]);
    assert_eq!(base.string_data, vec![b'x']);
    assert_eq!(base.push_constant_data, vec![0]);
    assert!(timestamp_writes.is_none());
}

#[test]
fn repetitions_are_found_behind_other_commands() {
    let mut pass = new_pass();
    wgpu_compute_pass_set_bind_group(&mut pass, 3, BindGroupId(1), &[]);
    wgpu_compute_pass_set_pipeline(&mut pass, ComputePipelineId(5));
    wgpu_compute_pass_set_bind_group(&mut pass, 2, BindGroupId(2), &[64]);
    wgpu_compute_pass_set_push_constant(&mut pass, 0, &[0; 4]);
    wgpu_compute_pass_push_debug_group(&mut pass, "group", 0);
    wgpu_compute_pass_dispatch_workgroups(&mut pass, 1, 1, 1);
    let before = pass.base().commands.to_vec();
    wgpu_compute_pass_set_bind_group(&mut pass, 3, BindGroupId(1), &[]);
    wgpu_compute_pass_set_pipeline(&mut pass, ComputePipelineId(5));
    assert_eq!(pass.base().commands, before);
    assert_eq!(pass.base().dynamic_offsets, &[64]);
}

#[test]
fn the_last_command_for_a_slot_is_the_last_one_asked_for() {
    let mut pass = new_pass();
    wgpu_compute_pass_set_bind_group(&mut pass, 1, BindGroupId(1), &[256, 512]);
    wgpu_compute_pass_set_bind_group(&mut pass, 0, BindGroupId(2), &[]);
    wgpu_compute_pass_set_bind_group(&mut pass, 1, BindGroupId(3), &[768]);
    wgpu_compute_pass_set_bind_group(&mut pass, 0, BindGroupId(2), &[]);
    let base = pass.base();
    let mut start = 0;
    let mut last = [None, None];
    for command in base.commands {
        if let ComputeCommand::SetBindGroup { index, num_dynamic_offsets, bind_group_id } = command
        {
            let end = start + num_dynamic_offsets;
            last[*index as usize] = Some((*bind_group_id, &base.dynamic_offsets[start..end]));
            start = end;
        }
    }
    assert_eq!(start, base.dynamic_offsets.len());
    assert_eq!(last[0], Some((BindGroupId(2), &[][..])));
    assert_eq!(last[1], Some((BindGroupId(3), &[768][..])));
}

#[test]
fn push_constants_tile_their_data() {
    let mut pass = new_pass();
    for len in [8, 0, 4, 4, 12] {
        wgpu_compute_pass_set_push_constant(&mut pass, 0, &vec![1; len]);
        wgpu_compute_pass_pop_debug_group(&mut pass);
    }
    let base = pass.base();
    let mut words = 0;
    let mut sizes = Vec::new();
    for command in base.commands {
        if let ComputeCommand::SetPushConstant { size_bytes, values_offset, .. } = command {
            assert_eq!(*values_offset, words);
            words += size_bytes / 4;
            sizes.push(*size_bytes);
        }
    }
    assert_eq!(words as usize, base.push_constant_data.len());
    assert_eq!(sizes, [8, 0, 4, 4, 12]);
}
