use compute_pass::bind::LateMinBufferBindingSizeMismatch;
use compute_pass::command::{BasePass, BasePassRef, ComputeCommand};
use compute_pass::command_buffer::{CommandBuffer, CommandEncoderStatus, Device};
use compute_pass::compute_commands::{
    wgpu_compute_pass_begin_pipeline_statistics_query, wgpu_compute_pass_dispatch_workgroups,
    wgpu_compute_pass_dispatch_workgroups_indirect,
    wgpu_compute_pass_end_pipeline_statistics_query, wgpu_compute_pass_insert_debug_marker,
    wgpu_compute_pass_pop_debug_group, wgpu_compute_pass_push_debug_group,
    wgpu_compute_pass_set_bind_group, wgpu_compute_pass_set_pipeline,
    wgpu_compute_pass_set_push_constant, wgpu_compute_pass_write_timestamp,
};
use compute_pass::error::{
    CommandEncoderError, ComputePassError, ComputePassErrorInner, DeviceError, DispatchError,
    MissingBufferUsageError, MissingDownlevelFlags, MissingFeatures, PassErrorScope,
};
use compute_pass::global::{Global, HalCall, HalReply, Progress};
use compute_pass::id::{
    BindGroupId, BindGroupLayoutId, BufferId, CommandEncoderId, ComputePipelineId, DeviceId,
    PipelineLayoutId, QuerySetId, RawHandle, TextureId, TrackerIndex,
};
use compute_pass::init_tracker::{InitRange, InitTracker, MemoryInitKind};
use compute_pass::memory_init::{
    BufferInitTrackerAction, TextureInitRange, TextureInitTrackerAction, TextureSurfaceDiscard,
};
use compute_pass::pass::{ComputePass, ComputePassDescriptor, ComputePassTimestampWrites};
use compute_pass::push_constant::PushConstantUploadError;
use compute_pass::query::{QueryType, QueryUseError};
use compute_pass::raw::{RawCommand, RawTimestampWrites};
use compute_pass::resource::{
    BindError, BindGroup, BindGroupDynamicBindingData, BindGroupLayout, Buffer, BufferBindingType,
    ComputePipeline, LateSizedBufferGroup, LayoutOrigin, PipelineLayout, QuerySet, Texture,
};
use compute_pass::trace::Command;
use compute_pass::track::{
    BindGroupStates, InvalidUse, ResourceUse, Transition, UsageConflict, BUFFER_INDIRECT,
    BUFFER_STORAGE_READ, BUFFER_STORAGE_READ_WRITE, BUFFER_UNIFORM, TEXTURE_COPY_DST,
    TEXTURE_RESOURCE,
};
use compute_pass::types::{
    Limits, PushConstantRange, BUFFER_USAGE_INDIRECT, COMPUTE_STAGE, DISCARD_HAL_LABELS,
    FRAGMENT_STAGE, INDIRECT_EXECUTION, TIMESTAMP_QUERY_INSIDE_PASSES, VERTEX_STAGE,
};
use std::sync::Arc;

const ENCODER: CommandEncoderId = CommandEncoderId(1);

const LIMITS: Limits = Limits {
    max_bind_groups: 4,
    max_compute_workgroups_per_dimension: 1000,
    min_uniform_buffer_offset_alignment: 256,
    min_storage_buffer_offset_alignment: 32,
};

fn device() -> Device {
    Device {
        id: DeviceId(2),
        valid: true,
        features: TIMESTAMP_QUERY_INSIDE_PASSES,
        downlevel_flags: INDIRECT_EXECUTION,
    }
}

fn world() -> Global {
    let mut global = Global::new(0);
    global.command_buffers.push(CommandBuffer::new(ENCODER, device(), LIMITS, true));
    global
}

fn layout(id: u64, label: &str, origin: LayoutOrigin) -> Arc<BindGroupLayout> {
    Arc::new(BindGroupLayout { id: BindGroupLayoutId(id), label: label.to_string(), origin })
}

fn group(id: u64, layout: &Arc<BindGroupLayout>) -> BindGroup {
    BindGroup {
        id: BindGroupId(id),
        layout: layout.clone(),
        raw: Some(RawHandle(1000 + id)),
        dynamic_binding_info: vec![],
        late_buffer_binding_sizes: vec![],
        used: BindGroupStates { buffers: vec![], textures: vec![] },
        used_buffer_ranges: vec![],
        used_texture_ranges: vec![],
    }
}

fn buffer(id: u64) -> Buffer {
    Buffer {
        id: BufferId(id),
        tracker_index: TrackerIndex(id as u32),
        usage: BUFFER_USAGE_INDIRECT,
        size: 64,
        raw: Some(RawHandle(2000 + id)),
        initialization_status: InitTracker { uninitialized_ranges: vec![] },
    }
}

fn pipeline_layout(
    id: u64,
    layouts: Vec<Arc<BindGroupLayout>>,
    ranges: Vec<PushConstantRange>,
) -> Arc<PipelineLayout> {
    Arc::new(PipelineLayout {
        id: PipelineLayoutId(id),
        raw: RawHandle(3000 + id),
        bind_group_layouts: layouts,
        push_constant_ranges: ranges,
    })
}

fn pipeline(id: u64, layout: &Arc<PipelineLayout>) -> ComputePipeline {
    ComputePipeline {
        id: ComputePipelineId(id),
        raw: RawHandle(4000 + id),
        layout: layout.clone(),
        late_sized_buffer_groups: vec![],
    }
}

fn add_group(global: &mut Global, group: BindGroup) {
    global.hub.bind_groups.insert(group.id.0, Arc::new(group));
}

fn add_pipeline(global: &mut Global, pipeline: ComputePipeline) {
    global.hub.compute_pipelines.insert(pipeline.id.0, Arc::new(pipeline));
}

fn add_buffer(global: &mut Global, buffer: Buffer) {
    global.hub.buffers.insert(buffer.id.0, Arc::new(buffer));
}

fn add_query_set(global: &mut Global, id: u64, ty: QueryType, count: u32) {
    global.hub.query_sets.insert(
        id,
        Arc::new(QuerySet { id: QuerySetId(id), raw: RawHandle(5000 + id), ty, count }),
    );
}

/// A pipeline without bind groups and push constants.
fn add_simple_pipeline(global: &mut Global) {
    add_pipeline(global, pipeline(1, &pipeline_layout(1, vec![], vec![])));
}

fn new_pass() -> ComputePass {
    ComputePass::new(ENCODER, &ComputePassDescriptor::default())
}

/// Runs a pass with a backend that never fails.
fn run_on(
    global: &mut Global,
    encoder: CommandEncoderId,
    pass: &ComputePass,
) -> Result<(), ComputePassError> {
    let mut next_handle: u64 = 100;
    let mut progress = global.command_encoder_run_compute_pass(encoder, pass);
    loop {
        match progress {
            Progress::Finished(result) => return result,
            Progress::Waiting(run, call) => {
                let reply = match call {
                    HalCall::EndEncoding => {
                        next_handle += 1;
                        HalReply::Ended(Ok(RawHandle(next_handle)))
                    }
                    HalCall::BeginEncoding => HalReply::Begun(Ok(())),
                };
                assert!(global.can_resume(&run, &reply));
                progress = global.resume_compute_pass(run, reply);
            }
        }
    }
}

fn run(global: &mut Global, pass: &ComputePass) -> Result<(), ComputePassError> {
    run_on(global, ENCODER, pass)
}

fn error(scope: PassErrorScope, inner: ComputePassErrorInner) -> Result<(), ComputePassError> {
    Err(ComputePassError { scope, inner })
}

const DISPATCH: PassErrorScope =
    PassErrorScope::Dispatch { indirect: false, pipeline: Some(ComputePipelineId(1)) };

const DISPATCH_INDIRECT: PassErrorScope =
    PassErrorScope::Dispatch { indirect: true, pipeline: Some(ComputePipelineId(1)) };

/// The calls of the body of the last pass.
fn body(global: &Global) -> &[RawCommand] {
    &global.command_buffers[0].list.last().unwrap().commands.commands
}

fn no_label() -> RawCommand {
    RawCommand::BeginComputePass { label: None, timestamp_writes: None }
}

fn no_barriers() -> [RawCommand; 2] {
    [RawCommand::TransitionBuffers(vec![]), RawCommand::TransitionTextures(vec![])]
}

#[test]
fn an_empty_pass_takes_two_stretches_of_encoding() {
    let mut global = world();
    assert_eq!(run(&mut global, &new_pass()), Ok(()));
    let buffer = &global.command_buffers[0];
    assert_eq!(buffer.status, CommandEncoderStatus::Recording);
    assert!(!buffer.is_open);
    assert!(buffer.recording.raw.commands.is_empty());
    assert_eq!(buffer.list.len(), 2);
    // The body was closed first, but what has to happen before it comes first.
    assert_eq!(buffer.list[0].handle, RawHandle(102));
    assert_eq!(buffer.list[0].commands.commands, no_barriers());
    assert_eq!(buffer.list[1].handle, RawHandle(101));
    assert_eq!(buffer.list[1].commands.commands, vec![no_label(), RawCommand::EndComputePass]);
}

#[test]
fn what_was_recorded_before_is_closed_first() {
    let mut global = world();
    global.command_buffers[0].is_open = true;
    global.command_buffers[0].recording.raw.record(RawCommand::EndDebugMarker);
    assert_eq!(run(&mut global, &new_pass()), Ok(()));
    let buffer = &global.command_buffers[0];
    assert_eq!(buffer.list.len(), 3);
    assert_eq!(buffer.list[0].handle, RawHandle(101));
    assert_eq!(buffer.list[0].commands.commands, vec![RawCommand::EndDebugMarker]);
    assert_eq!(buffer.list[1].handle, RawHandle(103));
    assert_eq!(buffer.list[2].handle, RawHandle(102));
    assert_eq!(run(&mut global, &new_pass()), Ok(()));
    let buffer = &global.command_buffers[0];
    assert_eq!(buffer.list.len(), 5);
    assert_eq!(buffer.list[2].handle, RawHandle(102));
    assert_eq!(buffer.list[3].handle, RawHandle(102));
    assert_eq!(buffer.list[4].handle, RawHandle(101));
}

#[test]
fn a_dispatch_reaches_the_backend_behind_its_pipeline_and_groups() {
    let mut global = world();
    let camera = layout(1, "camera", LayoutOrigin::Pool);
    let ranges = vec![PushConstantRange { stages: COMPUTE_STAGE, start: 0, end: 16 }];
    add_pipeline(&mut global, pipeline(1, &pipeline_layout(1, vec![camera.clone()], ranges)));
    add_group(&mut global, group(1, &camera));
    let desc = ComputePassDescriptor { label: Some("blur"), timestamp_writes: None };
    let mut pass = ComputePass::new(ENCODER, &desc);
    wgpu_compute_pass_set_pipeline(&mut pass, ComputePipelineId(1));
    wgpu_compute_pass_set_bind_group(&mut pass, 0, BindGroupId(1), &[]);
    wgpu_compute_pass_set_push_constant(&mut pass, 4, &[7, 0, 0, 0]);
    wgpu_compute_pass_dispatch_workgroups(&mut pass, 1, 2, 3);
    assert_eq!(run(&mut global, &pass), Ok(()));
    let [buffers, textures] = no_barriers();
    assert_eq!(
        body(&global),
        &[
            RawCommand::BeginComputePass {
                label: Some("blur".to_string()),
                timestamp_writes: None,
            },
            RawCommand::SetComputePipeline(RawHandle(4001)),
            RawCommand::SetPushConstants {
                layout: RawHandle(3001),
                stages: COMPUTE_STAGE,
                offset: 0,
                data: vec![0, 0, 0, 0],
            },
            RawCommand::SetBindGroup {
                layout: RawHandle(3001),
                index: 0,
                group: RawHandle(1001),
                dynamic_offsets: vec![],
            },
            RawCommand::SetPushConstants {
                layout: RawHandle(3001),
                stages: COMPUTE_STAGE,
                offset: 4,
                data: vec![u32::from_ne_bytes([7, 0, 0, 0])],
            },
            buffers,
            textures,
            RawCommand::Dispatch([1, 2, 3]),
            RawCommand::EndComputePass,
        ]
    );
    let trackers = &global.command_buffers[0].recording.trackers;
    assert_eq!(trackers.bind_groups.ids, vec![1]);
    assert_eq!(trackers.compute_pipelines.ids, vec![1]);
    assert!(trackers.query_sets.ids.is_empty());
}

#[test]
fn a_group_that_does_not_fit_yet_is_held_back() {
    let mut global = world();
    let first = layout(1, "first", LayoutOrigin::Pool);
    let second = layout(2, "second", LayoutOrigin::Pool);
    add_pipeline(
        &mut global,
        pipeline(1, &pipeline_layout(1, vec![first.clone(), second.clone()], vec![])),
    );
    add_group(&mut global, group(1, &first));
    add_group(&mut global, group(2, &second));
    let mut pass = new_pass();
    wgpu_compute_pass_set_bind_group(&mut pass, 1, BindGroupId(2), &[]);
    wgpu_compute_pass_set_pipeline(&mut pass, ComputePipelineId(1));
    wgpu_compute_pass_set_bind_group(&mut pass, 0, BindGroupId(1), &[]);
    wgpu_compute_pass_dispatch_workgroups(&mut pass, 1, 1, 1);
    assert_eq!(run(&mut global, &pass), Ok(()));
    let set = |index: u32, group: u64| RawCommand::SetBindGroup {
        layout: RawHandle(3001),
        index,
        group: RawHandle(group),
        dynamic_offsets: vec![],
    };
    // Slot 1 is handed over together with slot 0, not before.
    assert_eq!(
        &body(&global)[1..4],
        &[RawCommand::SetComputePipeline(RawHandle(4001)), set(0, 1001), set(1, 1002)]
    );
}

#[test]
fn a_new_layout_disturbs_the_slots_from_the_first_one_that_differs() {
    let mut global = world();
    let first = layout(1, "first", LayoutOrigin::Pool);
    let second = layout(2, "second", LayoutOrigin::Pool);
    let third = layout(3, "third", LayoutOrigin::Pool);
    let one = pipeline_layout(1, vec![first.clone(), second.clone()], vec![]);
    let two = pipeline_layout(2, vec![first.clone(), third.clone()], vec![]);
    add_pipeline(&mut global, pipeline(1, &one));
    add_pipeline(&mut global, pipeline(2, &two));
    add_pipeline(&mut global, pipeline(3, &two));
    add_group(&mut global, group(1, &first));
    add_group(&mut global, group(3, &third));
    let mut pass = new_pass();
    wgpu_compute_pass_set_bind_group(&mut pass, 0, BindGroupId(1), &[]);
    wgpu_compute_pass_set_bind_group(&mut pass, 1, BindGroupId(3), &[]);
    wgpu_compute_pass_set_pipeline(&mut pass, ComputePipelineId(1));
    wgpu_compute_pass_set_pipeline(&mut pass, ComputePipelineId(2));
    wgpu_compute_pass_set_pipeline(&mut pass, ComputePipelineId(3));
    wgpu_compute_pass_dispatch_workgroups(&mut pass, 1, 1, 1);
    assert_eq!(run(&mut global, &pass), Ok(()));
    assert_eq!(
        &body(&global)[1..6],
        &[
            RawCommand::SetComputePipeline(RawHandle(4001)),
            RawCommand::SetBindGroup {
                layout: RawHandle(3001),
                index: 0,
                group: RawHandle(1001),
                dynamic_offsets: vec![],
            },
            RawCommand::SetComputePipeline(RawHandle(4002)),
            RawCommand::SetBindGroup {
                layout: RawHandle(3002),
                index: 1,
                group: RawHandle(1003),
                dynamic_offsets: vec![],
            },
            // The third pipeline has the layout of the second one.
            RawCommand::SetComputePipeline(RawHandle(4003)),
        ]
    );
}

#[test]
fn other_push_constants_disturb_all_slots() {
    let mut global = world();
    let first = layout(1, "first", LayoutOrigin::Pool);
    let ranges = vec![PushConstantRange { stages: COMPUTE_STAGE, start: 0, end: 4 }];
    let one = pipeline_layout(1, vec![first.clone()], vec![]);
    let two = pipeline_layout(2, vec![first.clone()], ranges);
    add_pipeline(&mut global, pipeline(1, &one));
    add_pipeline(&mut global, pipeline(2, &two));
    add_group(&mut global, group(1, &first));
    let mut pass = new_pass();
    wgpu_compute_pass_set_bind_group(&mut pass, 0, BindGroupId(1), &[]);
    wgpu_compute_pass_set_pipeline(&mut pass, ComputePipelineId(1));
    wgpu_compute_pass_set_pipeline(&mut pass, ComputePipelineId(2));
    assert_eq!(run(&mut global, &pass), Ok(()));
    assert_eq!(
        &body(&global)[3..6],
        &[
            RawCommand::SetComputePipeline(RawHandle(4002)),
            RawCommand::SetBindGroup {
                layout: RawHandle(3002),
                index: 0,
                group: RawHandle(1001),
                dynamic_offsets: vec![],
            },
            RawCommand::SetPushConstants {
                layout: RawHandle(3002),
                stages: COMPUTE_STAGE,
                offset: 0,
                data: vec![0],
            },
        ]
    );
}

fn dynamic_binding(binding_type: BufferBindingType) -> BindGroupDynamicBindingData {
    BindGroupDynamicBindingData {
        binding_idx: 3,
        buffer_size: 1024,
        binding_start: 0,
        binding_end: 512,
        maximum_dynamic_offset: 512,
        binding_type,
    }
}

#[test]
fn dynamic_offsets_are_handed_over_with_their_group() {
    let mut global = world();
    let first = layout(1, "first", LayoutOrigin::Pool);
    add_pipeline(&mut global, pipeline(1, &pipeline_layout(1, vec![first.clone()], vec![])));
    let mut bound = group(1, &first);
    bound.dynamic_binding_info =
        vec![dynamic_binding(BufferBindingType::Uniform), dynamic_binding(BufferBindingType::Storage)];
    add_group(&mut global, bound);
    let mut pass = new_pass();
    wgpu_compute_pass_set_pipeline(&mut pass, ComputePipelineId(1));
    wgpu_compute_pass_set_bind_group(&mut pass, 0, BindGroupId(1), &[256, 32]);
    wgpu_compute_pass_set_bind_group(&mut pass, 0, BindGroupId(1), &[512, 0]);
    assert_eq!(run(&mut global, &pass), Ok(()));
    let set = |offsets: Vec<u32>| RawCommand::SetBindGroup {
        layout: RawHandle(3001),
        index: 0,
        group: RawHandle(1001),
        dynamic_offsets: offsets,
    };
    assert_eq!(&body(&global)[2..4], &[set(vec![256, 32]), set(vec![512, 0])]);
}

#[test]
fn dynamic_offsets_have_to_fit_their_group() {
    let first = layout(1, "first", LayoutOrigin::Pool);
    let scope = PassErrorScope::SetBindGroup(BindGroupId(1));
    let run_with = |offsets: &[u32]| {
        let mut global = world();
        let mut bound = group(1, &first);
        bound.dynamic_binding_info = vec![dynamic_binding(BufferBindingType::Uniform)];
        add_group(&mut global, bound);
        let mut pass = new_pass();
        wgpu_compute_pass_set_bind_group(&mut pass, 2, BindGroupId(1), offsets);
        let result = run(&mut global, &pass);
        assert_eq!(global.command_buffers[0].recording.trackers.bind_groups.ids, vec![1]);
        result
    };
    assert_eq!(run_with(&[0]), Ok(()));
    assert_eq!(
        run_with(&[0, 0]),
        error(
            scope,
            ComputePassErrorInner::Bind(BindError::MismatchedDynamicOffsetCount {
                group: 2,
                expected: 1,
                actual: 2,
            })
        )
    );
    assert_eq!(
        run_with(&[128]),
        error(
            scope,
            ComputePassErrorInner::Bind(BindError::UnalignedDynamicBinding {
                group: 2,
                binding: 3,
                idx: 0,
                offset: 128,
                alignment: 256,
                binding_type: BufferBindingType::Uniform,
            })
        )
    );
    assert_eq!(
        run_with(&[768]),
        error(
            scope,
            ComputePassErrorInner::Bind(BindError::DynamicBindingOutOfBounds {
                group: 2,
                binding: 3,
                idx: 0,
                offset: 768,
                buffer_size: 1024,
                binding_start: 0,
                binding_end: 512,
                maximum_dynamic_offset: 512,
            })
        )
    );
}

#[test]
fn a_slot_has_to_be_within_the_limits() {
    let mut global = world();
    add_group(&mut global, group(1, &layout(1, "", LayoutOrigin::Pool)));
    let mut pass = new_pass();
    wgpu_compute_pass_set_bind_group(&mut pass, 4, BindGroupId(1), &[]);
    assert_eq!(
        run(&mut global, &pass),
        error(
            PassErrorScope::SetBindGroup(BindGroupId(1)),
            ComputePassErrorInner::BindGroupIndexOutOfRange { index: 4, max: 4 }
        )
    );
}

#[test]
fn a_failed_command_spoils_the_command_buffer() {
    let mut global = world();
    let mut pass = new_pass();
    wgpu_compute_pass_dispatch_workgroups(&mut pass, 1, 1, 1);
    let missing = error(
        PassErrorScope::Dispatch { indirect: false, pipeline: None },
        ComputePassErrorInner::Dispatch(DispatchError::MissingPipeline),
    );
    assert_eq!(run(&mut global, &pass), missing);
    assert_eq!(global.command_buffers[0].status, CommandEncoderStatus::Error);
    assert!(global.command_buffers[0].list.is_empty());
    // Nothing more can be recorded.
    assert_eq!(
        run(&mut global, &new_pass()),
        error(
            PassErrorScope::Pass(ENCODER),
            ComputePassErrorInner::Encoder(CommandEncoderError::Invalid)
        )
    );
}

#[test]
fn the_encoder_has_to_exist_and_to_be_recording() {
    let mut global = world();
    let unknown = CommandEncoderId(99);
    assert_eq!(
        run_on(&mut global, unknown, &new_pass()),
        error(
            PassErrorScope::Pass(unknown),
            ComputePassErrorInner::Encoder(CommandEncoderError::Invalid)
        )
    );
    global.command_buffers[0].status = CommandEncoderStatus::Finished;
    assert_eq!(
        run(&mut global, &new_pass()),
        error(
            PassErrorScope::Pass(ENCODER),
            ComputePassErrorInner::Encoder(CommandEncoderError::NotRecording)
        )
    );
    assert_eq!(global.command_buffers[0].status, CommandEncoderStatus::Finished);
}

#[test]
fn the_device_has_to_be_valid() {
    let mut global = world();
    global.command_buffers[0].device.valid = false;
    assert_eq!(
        run(&mut global, &new_pass()),
        error(PassErrorScope::Pass(ENCODER), ComputePassErrorInner::InvalidDevice(DeviceId(2)))
    );
    assert_eq!(global.command_buffers[0].status, CommandEncoderStatus::Recording);
    assert_eq!(global.command_buffers[0].commands.as_ref().unwrap().len(), 0);
}

#[test]
fn objects_have_to_exist() {
    let outcome = |record: &dyn Fn(&mut ComputePass)| {
        let mut global = world();
        let mut pass = new_pass();
        record(&mut pass);
        let result = run(&mut global, &pass);
        // A pass that names what does not exist leaves no trace.
        assert_eq!(global.command_buffers[0].status, CommandEncoderStatus::Recording);
        assert_eq!(global.command_buffers[0].commands.as_ref().unwrap().len(), 0);
        result
    };
    assert_eq!(
        outcome(&|pass| wgpu_compute_pass_set_bind_group(pass, 3, BindGroupId(5), &[])),
        error(
            PassErrorScope::SetBindGroup(BindGroupId(5)),
            ComputePassErrorInner::InvalidBindGroup(3)
        )
    );
    assert_eq!(
        outcome(&|pass| wgpu_compute_pass_set_pipeline(pass, ComputePipelineId(5))),
        error(
            PassErrorScope::SetPipelineCompute(ComputePipelineId(5)),
            ComputePassErrorInner::InvalidPipeline(ComputePipelineId(5))
        )
    );
    assert_eq!(
        outcome(&|pass| wgpu_compute_pass_dispatch_workgroups_indirect(pass, BufferId(5), 0)),
        error(
            PassErrorScope::Dispatch { indirect: true, pipeline: None },
            ComputePassErrorInner::InvalidBuffer(BufferId(5))
        )
    );
    assert_eq!(
        outcome(&|pass| wgpu_compute_pass_write_timestamp(pass, QuerySetId(5), 0)),
        error(
            PassErrorScope::WriteTimestamp,
            ComputePassErrorInner::InvalidQuerySet(QuerySetId(5))
        )
    );
    assert_eq!(
        outcome(&|pass| {
            wgpu_compute_pass_begin_pipeline_statistics_query(pass, QuerySetId(5), 0)
        }),
        error(
            PassErrorScope::BeginPipelineStatisticsQuery,
            ComputePassErrorInner::InvalidQuerySet(QuerySetId(5))
        )
    );
}

#[test]
fn a_group_without_backend_object_cannot_be_handed_over() {
    let mut global = world();
    let first = layout(1, "first", LayoutOrigin::Pool);
    let second = layout(2, "second", LayoutOrigin::Pool);
    add_pipeline(
        &mut global,
        pipeline(1, &pipeline_layout(1, vec![first.clone(), second.clone()], vec![])),
    );
    add_group(&mut global, group(1, &first));
    let mut gone = group(2, &second);
    gone.raw = None;
    add_group(&mut global, gone);
    let mut pass = new_pass();
    wgpu_compute_pass_set_bind_group(&mut pass, 0, BindGroupId(1), &[]);
    wgpu_compute_pass_set_bind_group(&mut pass, 1, BindGroupId(2), &[]);
    wgpu_compute_pass_set_pipeline(&mut pass, ComputePipelineId(1));
    assert_eq!(
        run(&mut global, &pass),
        error(
            PassErrorScope::SetPipelineCompute(ComputePipelineId(1)),
            ComputePassErrorInner::InvalidBindGroup(1)
        )
    );
    // The error names the slot, also where slots before it are not handed over again.
    let mut pass = new_pass();
    wgpu_compute_pass_set_pipeline(&mut pass, ComputePipelineId(1));
    wgpu_compute_pass_set_bind_group(&mut pass, 0, BindGroupId(1), &[]);
    wgpu_compute_pass_set_bind_group(&mut pass, 1, BindGroupId(2), &[]);
    global.command_buffers[0].status = CommandEncoderStatus::Recording;
    global.command_buffers[0].is_open = false;
    assert_eq!(
        run(&mut global, &pass),
        error(
            PassErrorScope::SetBindGroup(BindGroupId(2)),
            ComputePassErrorInner::InvalidBindGroup(1)
        )
    );
}

#[test]
fn a_new_pipeline_names_the_slot_of_a_group_without_backend_object() {
    let mut global = world();
    let layouts: Vec<Arc<BindGroupLayout>> =
        (1..=3).map(|id| layout(id, "", LayoutOrigin::Pool)).collect();
    let first = vec![layouts[0].clone(), layouts[1].clone()];
    add_pipeline(&mut global, pipeline(1, &pipeline_layout(1, first, vec![])));
    add_pipeline(&mut global, pipeline(2, &pipeline_layout(2, layouts.clone(), vec![])));
    add_group(&mut global, group(1, &layouts[0]));
    add_group(&mut global, group(2, &layouts[1]));
    let mut gone = group(3, &layouts[2]);
    gone.raw = None;
    add_group(&mut global, gone);
    let mut pass = new_pass();
    wgpu_compute_pass_set_bind_group(&mut pass, 0, BindGroupId(1), &[]);
    wgpu_compute_pass_set_bind_group(&mut pass, 1, BindGroupId(2), &[]);
    wgpu_compute_pass_set_bind_group(&mut pass, 2, BindGroupId(3), &[]);
    wgpu_compute_pass_set_pipeline(&mut pass, ComputePipelineId(1));
    // Only slot 2 changes, so that it is the first one that is handed over.
    wgpu_compute_pass_set_pipeline(&mut pass, ComputePipelineId(2));
    assert_eq!(
        run(&mut global, &pass),
        error(
            PassErrorScope::SetPipelineCompute(ComputePipelineId(2)),
            ComputePassErrorInner::InvalidBindGroup(2)
        )
    );
}

#[test]
fn a_dispatch_needs_groups_that_fit() {
    let mut global = world();
    let wanted = layout(1, "camera", LayoutOrigin::Pool);
    let other = layout(2, "", LayoutOrigin::Derived);
    add_pipeline(&mut global, pipeline(1, &pipeline_layout(1, vec![wanted], vec![])));
    add_group(&mut global, group(2, &other));
    let mut pass = new_pass();
    wgpu_compute_pass_set_pipeline(&mut pass, ComputePipelineId(1));
    wgpu_compute_pass_set_bind_group(&mut pass, 0, BindGroupId(2), &[]);
    wgpu_compute_pass_dispatch_workgroups(&mut pass, 1, 1, 1);
    assert_eq!(
        run(&mut global, &pass),
        error(
            DISPATCH,
            ComputePassErrorInner::Dispatch(DispatchError::IncompatibleBindGroup {
                index: 0,
                diff: vec![
                    "Should be compatible with an explicit bind group layout with label = `camera`"
                        .to_string(),
                    "Assigned implicit bind group layout without label".to_string(),
                    "Expected explicit bind group layout, got implicit".to_string(),
                ],
            })
        )
    );
}

#[test]
fn a_dispatch_needs_all_groups() {
    let mut global = world();
    let first = layout(1, "first", LayoutOrigin::Pool);
    let second = layout(2, "second", LayoutOrigin::Pool);
    add_pipeline(
        &mut global,
        pipeline(1, &pipeline_layout(1, vec![first.clone(), second], vec![])),
    );
    add_group(&mut global, group(1, &first));
    let mut pass = new_pass();
    wgpu_compute_pass_set_pipeline(&mut pass, ComputePipelineId(1));
    wgpu_compute_pass_set_bind_group(&mut pass, 0, BindGroupId(1), &[]);
    wgpu_compute_pass_dispatch_workgroups(&mut pass, 1, 1, 1);
    assert_eq!(
        run(&mut global, &pass),
        error(
            DISPATCH,
            ComputePassErrorInner::Dispatch(DispatchError::IncompatibleBindGroup {
                index: 1,
                diff: vec![
                    "Should be compatible with an explicit bind group layout with label = `second`"
                        .to_string(),
                    "Assigned bind group layout not found (internal error)".to_string(),
                ],
            })
        )
    );
}

#[test]
fn buffers_have_to_be_as_large_as_the_shaders_expect() {
    let mut global = world();
    let first = layout(1, "first", LayoutOrigin::Pool);
    let mut expecting = pipeline(1, &pipeline_layout(1, vec![first.clone()], vec![]));
    expecting.late_sized_buffer_groups =
        vec![LateSizedBufferGroup { shader_sizes: vec![16, 64] }];
    add_pipeline(&mut global, expecting);
    let mut small = group(1, &first);
    small.late_buffer_binding_sizes = vec![16, 48, 4];
    add_group(&mut global, small);
    let mut large = group(2, &first);
    large.late_buffer_binding_sizes = vec![16, 64, 4];
    add_group(&mut global, large);
    let mut pass = new_pass();
    wgpu_compute_pass_set_bind_group(&mut pass, 0, BindGroupId(2), &[]);
    wgpu_compute_pass_set_pipeline(&mut pass, ComputePipelineId(1));
    wgpu_compute_pass_dispatch_workgroups(&mut pass, 1, 1, 1);
    assert_eq!(run(&mut global, &pass), Ok(()));
    wgpu_compute_pass_set_bind_group(&mut pass, 0, BindGroupId(1), &[]);
    wgpu_compute_pass_dispatch_workgroups(&mut pass, 1, 1, 1);
    assert_eq!(
        run(&mut global, &pass),
        error(
            DISPATCH,
            ComputePassErrorInner::Dispatch(DispatchError::BindingSizeTooSmall(
                LateMinBufferBindingSizeMismatch {
                    group_index: 0,
                    compact_index: 1,
                    shader_size: 64,
                    bound_size: 48,
                }
            ))
        )
    );
}

#[test]
fn the_grid_has_to_be_within_the_limits() {
    for too_large in [[1001, 1, 1], [1, 1001, 1], [1, 1, 1001]] {
        let mut global = world();
        add_simple_pipeline(&mut global);
        let mut pass = new_pass();
        wgpu_compute_pass_set_pipeline(&mut pass, ComputePipelineId(1));
        wgpu_compute_pass_dispatch_workgroups(&mut pass, 1000, 1000, 1000);
        wgpu_compute_pass_dispatch_workgroups(&mut pass, 0, 0, 0);
        assert_eq!(run(&mut global, &pass), Ok(()));
        let [x, y, z] = too_large;
        wgpu_compute_pass_dispatch_workgroups(&mut pass, x, y, z);
        assert_eq!(
            run(&mut global, &pass),
            error(
                DISPATCH,
                ComputePassErrorInner::Dispatch(DispatchError::InvalidGroupSize {
                    current: too_large,
                    limit: 1000,
                })
            )
        );
    }
}

fn indirect_pass(offset: u64) -> ComputePass {
    let mut pass = new_pass();
    wgpu_compute_pass_set_pipeline(&mut pass, ComputePipelineId(1));
    wgpu_compute_pass_dispatch_workgroups_indirect(&mut pass, BufferId(9), offset);
    pass
}

#[test]
fn an_indirect_dispatch_reads_three_words() {
    let mut global = world();
    add_simple_pipeline(&mut global);
    let mut arguments = buffer(9);
    arguments.initialization_status.uninitialized_ranges = vec![InitRange { start: 56, end: 64 }];
    add_buffer(&mut global, arguments);
    assert_eq!(run(&mut global, &indirect_pass(52)), Ok(()));
    assert!(body(&global)
        .contains(&RawCommand::DispatchIndirect { buffer: RawHandle(2009), offset: 52 }));
    let recording = &global.command_buffers[0].recording;
    let actions = &recording.buffer_memory_init_actions;
    assert_eq!(actions.len(), 1);
    assert_eq!(actions[0].buffer.id, BufferId(9));
    assert_eq!(actions[0].range, InitRange { start: 56, end: 64 });
    assert_eq!(actions[0].kind, MemoryInitKind::NeedsInitializedMemory);
    // The command buffer remembers how the pass leaves the buffer.
    assert_eq!(recording.trackers.buffers.uses.len(), 1);
    assert_eq!(recording.trackers.buffers.uses[0].index, TrackerIndex(9));
    assert_eq!(recording.trackers.buffers.uses[0].end, BUFFER_INDIRECT);
}

#[test]
fn an_indirect_dispatch_has_to_be_possible() {
    let outcome = |change: &dyn Fn(&mut Global, &mut Buffer), offset: u64| {
        let mut global = world();
        add_simple_pipeline(&mut global);
        let mut arguments = buffer(9);
        change(&mut global, &mut arguments);
        add_buffer(&mut global, arguments);
        run(&mut global, &indirect_pass(offset))
    };
    assert_eq!(outcome(&|_, _| {}, 52), Ok(()));
    assert_eq!(
        outcome(&|_, _| {}, 53),
        error(
            DISPATCH_INDIRECT,
            ComputePassErrorInner::IndirectBufferOverrun {
                offset: 53,
                end_offset: 65,
                buffer_size: 64,
            }
        )
    );
    assert_eq!(
        outcome(&|_, buffer| buffer.raw = None, 0),
        error(DISPATCH_INDIRECT, ComputePassErrorInner::InvalidIndirectBuffer(BufferId(9)))
    );
    assert_eq!(
        outcome(&|_, buffer| buffer.usage = 0x80, 0),
        error(
            DISPATCH_INDIRECT,
            ComputePassErrorInner::MissingBufferUsage(MissingBufferUsageError {
                id: BufferId(9),
                actual: 0x80,
                expected: BUFFER_USAGE_INDIRECT,
            })
        )
    );
    assert_eq!(
        outcome(&|global, _| global.command_buffers[0].device.downlevel_flags = 0, 0),
        error(
            DISPATCH_INDIRECT,
            ComputePassErrorInner::MissingDownlevelFlags(MissingDownlevelFlags(
                INDIRECT_EXECUTION
            ))
        )
    );
}

fn use_of(index: u32, uses: u16) -> ResourceUse {
    ResourceUse { index: TrackerIndex(index), id: index as u64, uses }
}

/// A world with a pipeline for two groups, each of which uses one buffer.
fn world_with_uses(first_use: ResourceUse, second_use: ResourceUse) -> Global {
    let mut global = world();
    let first = layout(1, "first", LayoutOrigin::Pool);
    let second = layout(2, "second", LayoutOrigin::Pool);
    add_pipeline(
        &mut global,
        pipeline(1, &pipeline_layout(1, vec![first.clone(), second.clone()], vec![])),
    );
    let mut one = group(1, &first);
    one.used.buffers.push(first_use);
    add_group(&mut global, one);
    let mut two = group(2, &second);
    two.used.buffers.push(second_use);
    add_group(&mut global, two);
    global
}

fn two_group_pass() -> ComputePass {
    let mut pass = new_pass();
    wgpu_compute_pass_set_pipeline(&mut pass, ComputePipelineId(1));
    wgpu_compute_pass_set_bind_group(&mut pass, 0, BindGroupId(1), &[]);
    wgpu_compute_pass_set_bind_group(&mut pass, 1, BindGroupId(2), &[]);
    pass
}

#[test]
fn uses_that_exclude_each_other_are_a_conflict() {
    let mut global =
        world_with_uses(use_of(7, BUFFER_STORAGE_READ_WRITE), use_of(7, BUFFER_UNIFORM));
    let mut pass = two_group_pass();
    wgpu_compute_pass_dispatch_workgroups(&mut pass, 1, 1, 1);
    assert_eq!(
        run(&mut global, &pass),
        error(
            DISPATCH,
            ComputePassErrorInner::ResourceUsageConflict(UsageConflict::Buffer {
                buffer: BufferId(7),
                invalid_use: InvalidUse {
                    current_state: BUFFER_STORAGE_READ_WRITE,
                    new_state: BUFFER_UNIFORM,
                },
            })
        )
    );
}

#[test]
fn clashing_groups_take_two_dispatches() {
    let mut global = world();
    let only = layout(1, "only", LayoutOrigin::Pool);
    add_pipeline(&mut global, pipeline(1, &pipeline_layout(1, vec![only.clone()], vec![])));
    for (id, uses) in [(1, BUFFER_STORAGE_READ_WRITE), (2, BUFFER_UNIFORM)] {
        let mut bound = group(id, &only);
        bound.used.buffers.push(use_of(7, uses));
        add_group(&mut global, bound);
    }
    let mut pass = new_pass();
    wgpu_compute_pass_set_pipeline(&mut pass, ComputePipelineId(1));
    for id in [1, 2, 1] {
        wgpu_compute_pass_set_bind_group(&mut pass, 0, BindGroupId(id), &[]);
        wgpu_compute_pass_dispatch_workgroups(&mut pass, 1, 1, 1);
    }
    assert_eq!(run(&mut global, &pass), Ok(()));
    let moved: Vec<&[Transition]> = body(&global)
        .iter()
        .filter_map(|call| match call {
            RawCommand::TransitionBuffers(list) => Some(&list[..]),
            _ => None,
        })
        .collect();
    assert_eq!(moved.len(), 3);
    assert!(moved[0].is_empty());
    assert_eq!(moved[1].len(), 1);
    assert_eq!(moved[2].len(), 1);
}

#[test]
fn dispatches_are_made_as_they_were_recorded() {
    let mut global = world();
    add_simple_pipeline(&mut global);
    add_buffer(&mut global, buffer(9));
    let mut pass = new_pass();
    wgpu_compute_pass_set_pipeline(&mut pass, ComputePipelineId(1));
    wgpu_compute_pass_dispatch_workgroups(&mut pass, 1, 2, 3);
    wgpu_compute_pass_dispatch_workgroups_indirect(&mut pass, BufferId(9), 16);
    wgpu_compute_pass_insert_debug_marker(&mut pass, "between", 0);
    wgpu_compute_pass_dispatch_workgroups(&mut pass, 1, 2, 3);
    wgpu_compute_pass_dispatch_workgroups(&mut pass, 0, 0, 0);
    assert_eq!(run(&mut global, &pass), Ok(()));
    let calls = body(&global);
    let dispatches: Vec<&RawCommand> = calls
        .iter()
        .filter(|call| {
            matches!(call, RawCommand::Dispatch(_) | RawCommand::DispatchIndirect { .. })
        })
        .collect();
    assert_eq!(
        dispatches,
        vec![
            &RawCommand::Dispatch([1, 2, 3]),
            &RawCommand::DispatchIndirect { buffer: RawHandle(2009), offset: 16 },
            &RawCommand::Dispatch([1, 2, 3]),
            &RawCommand::Dispatch([0, 0, 0]),
        ]
    );
    assert_eq!(calls[0], no_label());
    assert_eq!(calls[calls.len() - 1], RawCommand::EndComputePass);
}

#[test]
fn discarding_labels_changes_no_result() {
    let passes: [&dyn Fn(&mut ComputePass); 3] = [
        &|pass| {
            wgpu_compute_pass_push_debug_group(pass, "open", 0);
            wgpu_compute_pass_pop_debug_group(pass);
        },
        &|pass| {
            wgpu_compute_pass_push_debug_group(pass, "open", 0);
            wgpu_compute_pass_pop_debug_group(pass);
            wgpu_compute_pass_pop_debug_group(pass);
        },
        &|pass| {
            wgpu_compute_pass_insert_debug_marker(pass, "here", 0);
            wgpu_compute_pass_dispatch_workgroups(pass, 1, 1, 1);
        },
    ];
    let expected = [
        Ok(()),
        error(PassErrorScope::PopDebugGroup, ComputePassErrorInner::InvalidPopDebugGroup),
        error(
            PassErrorScope::Dispatch { indirect: false, pipeline: None },
            ComputePassErrorInner::Dispatch(DispatchError::MissingPipeline),
        ),
    ];
    for (record, result) in passes.into_iter().zip(&expected) {
        for flags in [0, DISCARD_HAL_LABELS] {
            let mut global = world();
            global.flags = flags;
            let mut pass = new_pass();
            record(&mut pass);
            assert_eq!(&run(&mut global, &pass), result);
        }
    }
}

#[test]
fn the_argument_buffer_is_part_of_the_scope() {
    let mut global =
        world_with_uses(use_of(9, BUFFER_STORAGE_READ_WRITE), use_of(8, BUFFER_UNIFORM));
    add_buffer(&mut global, buffer(9));
    let mut pass = two_group_pass();
    wgpu_compute_pass_dispatch_workgroups_indirect(&mut pass, BufferId(9), 0);
    assert_eq!(
        run(&mut global, &pass),
        error(
            DISPATCH_INDIRECT,
            ComputePassErrorInner::ResourceUsageConflict(UsageConflict::Buffer {
                buffer: BufferId(9),
                invalid_use: InvalidUse {
                    current_state: BUFFER_INDIRECT,
                    new_state: BUFFER_STORAGE_READ_WRITE,
                },
            })
        )
    );
}

#[test]
fn reads_share_a_state_and_writes_are_kept_apart() {
    let mut global = world_with_uses(use_of(7, BUFFER_STORAGE_READ), use_of(7, BUFFER_UNIFORM));
    let third = layout(3, "third", LayoutOrigin::Pool);
    add_pipeline(&mut global, pipeline(2, &pipeline_layout(2, vec![third.clone()], vec![])));
    let mut writer = group(3, &third);
    writer.used.buffers.push(use_of(7, BUFFER_STORAGE_READ_WRITE));
    add_group(&mut global, writer);
    let mut pass = two_group_pass();
    wgpu_compute_pass_dispatch_workgroups(&mut pass, 1, 1, 1);
    wgpu_compute_pass_dispatch_workgroups(&mut pass, 2, 1, 1);
    wgpu_compute_pass_set_pipeline(&mut pass, ComputePipelineId(2));
    wgpu_compute_pass_set_bind_group(&mut pass, 0, BindGroupId(3), &[]);
    wgpu_compute_pass_dispatch_workgroups(&mut pass, 3, 1, 1);
    wgpu_compute_pass_dispatch_workgroups(&mut pass, 4, 1, 1);
    assert_eq!(run(&mut global, &pass), Ok(()));
    let reads = BUFFER_STORAGE_READ | BUFFER_UNIFORM;
    let lists: Vec<Vec<Transition>> = body(&global)
        .iter()
        .filter_map(|command| match command {
            RawCommand::TransitionBuffers(list) => Some(list.clone()),
            _ => None,
        })
        .collect();
    let change = |from: u16, to: u16| Transition { index: TrackerIndex(7), from, to };
    assert_eq!(
        lists,
        vec![
            // The first use of the pass is taken care of before the pass.
            vec![],
            vec![],
            vec![change(reads, BUFFER_STORAGE_READ_WRITE)],
            // Two writes in a row need a barrier between them.
            vec![change(BUFFER_STORAGE_READ_WRITE, BUFFER_STORAGE_READ_WRITE)],
        ]
    );
    let held = &global.command_buffers[0].recording.trackers.buffers.uses;
    assert_eq!(held.len(), 1);
    assert_eq!((held[0].start, held[0].end), (reads, BUFFER_STORAGE_READ_WRITE));
}

#[test]
fn the_next_pass_begins_where_the_last_one_ended() {
    let mut global =
        world_with_uses(use_of(7, BUFFER_STORAGE_READ_WRITE), use_of(8, BUFFER_UNIFORM));
    let mut pass = two_group_pass();
    wgpu_compute_pass_dispatch_workgroups(&mut pass, 1, 1, 1);
    assert_eq!(run(&mut global, &pass), Ok(()));
    assert_eq!(run(&mut global, &pass), Ok(()));
    let list = &global.command_buffers[0].list;
    assert_eq!(list.len(), 4);
    assert_eq!(
        list[2].commands.commands,
        vec![
            RawCommand::TransitionBuffers(vec![Transition {
                index: TrackerIndex(7),
                from: BUFFER_STORAGE_READ_WRITE,
                to: BUFFER_STORAGE_READ_WRITE,
            }]),
            RawCommand::TransitionTextures(vec![]),
        ]
    );
}

#[test]
fn memory_that_was_never_written_is_noted() {
    let mut global = world();
    let first = layout(1, "first", LayoutOrigin::Pool);
    let mut touched = buffer(7);
    touched.initialization_status.uninitialized_ranges =
        vec![InitRange { start: 0, end: 8 }, InitRange { start: 32, end: 64 }];
    let touched = Arc::new(touched);
    let action = |start: u64, end: u64| BufferInitTrackerAction {
        buffer: touched.clone(),
        range: InitRange { start, end },
        kind: MemoryInitKind::NeedsInitializedMemory,
    };
    let mut bound = group(1, &first);
    bound.used_buffer_ranges = vec![action(8, 32), action(4, 48), action(40, 44)];
    add_group(&mut global, bound);
    let mut pass = new_pass();
    wgpu_compute_pass_set_bind_group(&mut pass, 0, BindGroupId(1), &[]);
    assert_eq!(run(&mut global, &pass), Ok(()));
    let ranges: Vec<InitRange> = global.command_buffers[0]
        .recording
        .buffer_memory_init_actions
        .iter()
        .map(|action| action.range)
        .collect();
    assert_eq!(
        ranges,
        vec![InitRange { start: 4, end: 48 }, InitRange { start: 40, end: 44 }]
    );
}

#[test]
fn push_constants_have_to_be_those_of_the_layout() {
    let outcome = |stages: u32, offset: u32, data: &[u8]| {
        let mut global = world();
        let ranges = vec![PushConstantRange { stages, start: 0, end: 16 }];
        add_pipeline(&mut global, pipeline(1, &pipeline_layout(1, vec![], ranges)));
        let mut pass = new_pass();
        wgpu_compute_pass_set_pipeline(&mut pass, ComputePipelineId(1));
        wgpu_compute_pass_set_push_constant(&mut pass, offset, data);
        run(&mut global, &pass)
    };
    let refused = |inner: PushConstantUploadError| {
        error(PassErrorScope::SetPushConstant, ComputePassErrorInner::PushConstants(inner))
    };
    assert_eq!(outcome(COMPUTE_STAGE, 12, &[0; 4]), Ok(()));
    assert_eq!(
        outcome(COMPUTE_STAGE, 12, &[0; 8]),
        refused(PushConstantUploadError::TooLarge {
            offset: 12,
            end_offset: 20,
            idx: 0,
            range: PushConstantRange { stages: COMPUTE_STAGE, start: 0, end: 16 },
        })
    );
    assert_eq!(
        outcome(COMPUTE_STAGE | VERTEX_STAGE, 0, &[0; 4]),
        refused(PushConstantUploadError::PartialRangeMatch {
            actual: COMPUTE_STAGE,
            idx: 0,
            matched: COMPUTE_STAGE | VERTEX_STAGE,
        })
    );
    assert_eq!(
        outcome(FRAGMENT_STAGE, 0, &[0; 4]),
        refused(PushConstantUploadError::MissingStages {
            actual: COMPUTE_STAGE,
            idx: 0,
            missing: COMPUTE_STAGE,
        })
    );
    assert_eq!(
        outcome(FRAGMENT_STAGE, 16, &[0; 4]),
        refused(PushConstantUploadError::UnmatchedStages {
            actual: COMPUTE_STAGE,
            unmatched: COMPUTE_STAGE,
        })
    );
}

#[test]
fn push_constants_need_a_pipeline() {
    let mut global = world();
    let mut pass = new_pass();
    wgpu_compute_pass_set_push_constant(&mut pass, 0, &[0; 4]);
    assert_eq!(
        run(&mut global, &pass),
        error(
            PassErrorScope::SetPushConstant,
            ComputePassErrorInner::Dispatch(DispatchError::MissingPipeline)
        )
    );
}

fn debug_pass() -> ComputePass {
    let desc = ComputePassDescriptor { label: Some("pass"), timestamp_writes: None };
    let mut pass = ComputePass::new(ENCODER, &desc);
    wgpu_compute_pass_push_debug_group(&mut pass, "äußere Gruppe", 1);
    wgpu_compute_pass_insert_debug_marker(&mut pass, "→", 2);
    wgpu_compute_pass_push_debug_group(&mut pass, "", 3);
    wgpu_compute_pass_pop_debug_group(&mut pass);
    wgpu_compute_pass_pop_debug_group(&mut pass);
    pass
}

#[test]
fn labels_arrive_as_they_were_recorded() {
    let mut global = world();
    assert_eq!(run(&mut global, &debug_pass()), Ok(()));
    assert_eq!(
        body(&global),
        &[
            RawCommand::BeginComputePass {
                label: Some("pass".to_string()),
                timestamp_writes: None,
            },
            RawCommand::BeginDebugMarker("äußere Gruppe".to_string()),
            RawCommand::InsertDebugMarker("→".to_string()),
            RawCommand::BeginDebugMarker(String::new()),
            RawCommand::EndDebugMarker,
            RawCommand::EndDebugMarker,
            RawCommand::EndComputePass,
        ]
    );
}

#[test]
fn labels_can_be_discarded() {
    let mut global = world();
    global.flags = DISCARD_HAL_LABELS;
    assert_eq!(run(&mut global, &debug_pass()), Ok(()));
    assert_eq!(body(&global), &[no_label(), RawCommand::EndComputePass]);
}

#[test]
fn a_debug_group_has_to_be_open_to_be_closed() {
    for flags in [0, DISCARD_HAL_LABELS] {
        let mut global = world();
        global.flags = flags;
        let mut pass = debug_pass();
        wgpu_compute_pass_pop_debug_group(&mut pass);
        assert_eq!(
            run(&mut global, &pass),
            error(PassErrorScope::PopDebugGroup, ComputePassErrorInner::InvalidPopDebugGroup)
        );
    }
}

#[test]
fn a_debug_group_may_stay_open() {
    let mut global = world();
    let mut pass = new_pass();
    wgpu_compute_pass_push_debug_group(&mut pass, "open", 0);
    assert_eq!(run(&mut global, &pass), Ok(()));
}

#[test]
fn timestamps_inside_a_pass() {
    let mut global = world();
    add_query_set(&mut global, 1, QueryType::Timestamp, 4);
    let mut pass = new_pass();
    wgpu_compute_pass_write_timestamp(&mut pass, QuerySetId(1), 3);
    assert_eq!(run(&mut global, &pass), Ok(()));
    assert_eq!(
        &body(&global)[1..3],
        &[
            RawCommand::ResetQueries { query_set: RawHandle(5001), start: 3, end: 4 },
            RawCommand::WriteTimestamp { query_set: RawHandle(5001), index: 3 },
        ]
    );
    assert_eq!(global.command_buffers[0].recording.trackers.query_sets.ids, vec![1]);
    wgpu_compute_pass_write_timestamp(&mut pass, QuerySetId(1), 4);
    assert_eq!(
        run(&mut global, &pass),
        error(
            PassErrorScope::WriteTimestamp,
            ComputePassErrorInner::QueryUse(QueryUseError::OutOfBounds {
                query_index: 4,
                query_set_size: 4,
            })
        )
    );
}

#[test]
fn timestamps_inside_a_pass_need_a_feature() {
    let mut global = world();
    global.command_buffers[0].device.features = 0;
    add_query_set(&mut global, 1, QueryType::Timestamp, 4);
    let mut pass = new_pass();
    wgpu_compute_pass_write_timestamp(&mut pass, QuerySetId(1), 3);
    assert_eq!(
        run(&mut global, &pass),
        error(
            PassErrorScope::WriteTimestamp,
            ComputePassErrorInner::MissingFeatures(MissingFeatures(
                TIMESTAMP_QUERY_INSIDE_PASSES
            ))
        )
    );
}

#[test]
fn a_query_has_to_be_of_the_right_type() {
    let mut global = world();
    add_query_set(&mut global, 1, QueryType::Occlusion, 4);
    let mut pass = new_pass();
    wgpu_compute_pass_write_timestamp(&mut pass, QuerySetId(1), 0);
    assert_eq!(
        run(&mut global, &pass),
        error(
            PassErrorScope::WriteTimestamp,
            ComputePassErrorInner::QueryUse(QueryUseError::IncompatibleType {
                set_type: QueryType::Occlusion,
                query_type: QueryType::Timestamp,
            })
        )
    );
}

#[test]
fn statistics_queries_come_one_at_a_time() {
    let mut global = world();
    add_query_set(&mut global, 1, QueryType::PipelineStatistics, 4);
    let mut pass = new_pass();
    wgpu_compute_pass_begin_pipeline_statistics_query(&mut pass, QuerySetId(1), 2);
    wgpu_compute_pass_end_pipeline_statistics_query(&mut pass);
    wgpu_compute_pass_begin_pipeline_statistics_query(&mut pass, QuerySetId(1), 0);
    assert_eq!(run(&mut global, &pass), Ok(()));
    assert_eq!(
        &body(&global)[1..6],
        &[
            RawCommand::ResetQueries { query_set: RawHandle(5001), start: 2, end: 3 },
            RawCommand::BeginQuery { query_set: RawHandle(5001), index: 2 },
            RawCommand::EndQuery { query_set: RawHandle(5001), index: 2 },
            RawCommand::ResetQueries { query_set: RawHandle(5001), start: 0, end: 1 },
            RawCommand::BeginQuery { query_set: RawHandle(5001), index: 0 },
        ]
    );
    wgpu_compute_pass_begin_pipeline_statistics_query(&mut pass, QuerySetId(1), 3);
    assert_eq!(
        run(&mut global, &pass),
        error(
            PassErrorScope::BeginPipelineStatisticsQuery,
            ComputePassErrorInner::QueryUse(QueryUseError::AlreadyStarted {
                active_query_index: 0,
                new_query_index: 3,
            })
        )
    );
}

#[test]
fn only_an_active_query_can_be_ended() {
    let mut global = world();
    let mut pass = new_pass();
    wgpu_compute_pass_end_pipeline_statistics_query(&mut pass);
    assert_eq!(
        run(&mut global, &pass),
        error(
            PassErrorScope::EndPipelineStatisticsQuery,
            ComputePassErrorInner::QueryUse(QueryUseError::AlreadyStopped)
        )
    );
}

#[test]
fn timestamps_at_the_ends_of_a_pass() {
    let begin = |first: Option<u32>, last: Option<u32>| {
        let mut global = world();
        add_query_set(&mut global, 1, QueryType::Timestamp, 8);
        let writes = ComputePassTimestampWrites {
            query_set: QuerySetId(1),
            beginning_of_pass_write_index: first,
            end_of_pass_write_index: last,
        };
        let desc = ComputePassDescriptor { label: None, timestamp_writes: Some(&writes) };
        let pass = ComputePass::new(ENCODER, &desc);
        assert_eq!(run(&mut global, &pass), Ok(()));
        let mut list = std::mem::take(
            &mut global.command_buffers[0].list.last_mut().unwrap().commands.commands,
        );
        assert_eq!(list.pop(), Some(RawCommand::EndComputePass));
        assert_eq!(
            list.pop(),
            Some(RawCommand::BeginComputePass {
                label: None,
                timestamp_writes: Some(RawTimestampWrites {
                    query_set: RawHandle(5001),
                    beginning_of_pass_write_index: first,
                    end_of_pass_write_index: last,
                }),
            })
        );
        list
    };
    let reset = |start: u32, end: u32| {
        vec![RawCommand::ResetQueries { query_set: RawHandle(5001), start, end }]
    };
    assert_eq!(begin(Some(2), Some(5)), reset(2, 6));
    assert_eq!(begin(Some(5), Some(2)), reset(2, 6));
    assert_eq!(begin(Some(3), Some(3)), reset(3, 4));
    assert_eq!(begin(Some(4), None), reset(4, 5));
    assert_eq!(begin(None, Some(0)), reset(0, 1));
    assert_eq!(begin(None, None), vec![]);
}

#[test]
fn timestamps_need_their_query_set() {
    let mut global = world();
    let writes = ComputePassTimestampWrites {
        query_set: QuerySetId(1),
        beginning_of_pass_write_index: Some(0),
        end_of_pass_write_index: None,
    };
    let desc = ComputePassDescriptor { label: None, timestamp_writes: Some(&writes) };
    let pass = ComputePass::new(ENCODER, &desc);
    assert_eq!(
        run(&mut global, &pass),
        error(
            PassErrorScope::Pass(ENCODER),
            ComputePassErrorInner::InvalidQuerySet(QuerySetId(1))
        )
    );
    assert_eq!(global.command_buffers[0].status, CommandEncoderStatus::Error);
}

#[test]
fn the_trace_holds_the_pass_as_it_was_recorded() {
    let mut global = world();
    let first = layout(1, "first", LayoutOrigin::Pool);
    add_group(&mut global, group(1, &first));
    add_simple_pipeline(&mut global);
    let mut pass = debug_pass();
    wgpu_compute_pass_set_bind_group(&mut pass, 0, BindGroupId(1), &[]);
    wgpu_compute_pass_set_pipeline(&mut pass, ComputePipelineId(1));
    wgpu_compute_pass_dispatch_workgroups(&mut pass, 1, 1, 1);
    assert_eq!(run(&mut global, &pass), Ok(()));
    let list = global.command_buffers[0].commands.as_ref().unwrap();
    assert_eq!(list.len(), 1);
    let Command::RunComputePass { base: traced, timestamp_writes } = &list[0];
    let Command::RunComputePass { base: recorded, .. } = pass.into_command();
    assert_eq!(traced.label, recorded.label);
    assert_eq!(traced.commands, recorded.commands);
    assert_eq!(traced.dynamic_offsets, recorded.dynamic_offsets);
    assert_eq!(traced.string_data, recorded.string_data);
    assert_eq!(traced.push_constant_data, recorded.push_constant_data);
    assert_eq!(*timestamp_writes, None);
}

#[test]
fn without_a_trace_nothing_is_noted() {
    let mut global = Global::new(0);
    global.command_buffers.push(CommandBuffer::new(ENCODER, device(), LIMITS, false));
    assert_eq!(run(&mut global, &new_pass()), Ok(()));
    assert!(global.command_buffers[0].commands.is_none());
}

/// Runs an empty pass with a backend that fails at the given call.
fn run_with_failure(global: &mut Global, failing_call: usize) -> Result<(), ComputePassError> {
    let pass = new_pass();
    let mut progress = global.command_encoder_run_compute_pass(ENCODER, &pass);
    let mut calls = 0;
    loop {
        match progress {
            Progress::Finished(result) => {
                assert_eq!(calls, failing_call + 1);
                return result;
            }
            Progress::Waiting(run, call) => {
                let fails = calls == failing_call;
                let reply = match (call, fails) {
                    (HalCall::EndEncoding, false) => HalReply::Ended(Ok(RawHandle(5))),
                    (HalCall::EndEncoding, true) => HalReply::Ended(Err(DeviceError::Lost)),
                    (HalCall::BeginEncoding, false) => HalReply::Begun(Ok(())),
                    (HalCall::BeginEncoding, true) => {
                        HalReply::Begun(Err(DeviceError::OutOfMemory))
                    }
                };
                calls += 1;
                assert!(global.can_resume(&run, &reply));
                progress = global.resume_compute_pass(run, reply);
            }
        }
    }
}

#[test]
fn a_backend_that_fails_ends_the_run() {
    let expected = [
        (DeviceError::Lost, CommandEncoderStatus::Recording, 0),
        (DeviceError::OutOfMemory, CommandEncoderStatus::Error, 1),
        (DeviceError::Lost, CommandEncoderStatus::Recording, 1),
        (DeviceError::OutOfMemory, CommandEncoderStatus::Recording, 2),
        (DeviceError::Lost, CommandEncoderStatus::Recording, 2),
    ];
    for (failing_call, (reason, status, stretches)) in expected.into_iter().enumerate() {
        let mut global = world();
        global.command_buffers[0].is_open = true;
        assert_eq!(
            run_with_failure(&mut global, failing_call),
            error(PassErrorScope::Pass(ENCODER), ComputePassErrorInner::Device(reason))
        );
        assert_eq!(global.command_buffers[0].status, status);
        assert_eq!(global.command_buffers[0].list.len(), stretches);
    }
}

#[test]
fn a_reply_has_to_be_one_to_the_call() {
    let mut global = world();
    let pass = new_pass();
    let Progress::Waiting(run, call) = global.command_encoder_run_compute_pass(ENCODER, &pass)
    else {
        panic!("the run has to wait for the backend");
    };
    assert_eq!(call, HalCall::BeginEncoding);
    assert!(global.can_resume(&run, &HalReply::Begun(Ok(()))));
    assert!(global.can_resume(&run, &HalReply::Begun(Err(DeviceError::Invalid))));
    assert!(!global.can_resume(&run, &HalReply::Ended(Ok(RawHandle(1)))));
    global.command_buffers.clear();
    assert!(!global.can_resume(&run, &HalReply::Begun(Ok(()))));
}

/// Whether a run cannot be resumed when its body is about to begin.
fn is_refused(change: &dyn Fn(&mut Global), record: &dyn Fn(&mut ComputePass)) -> bool {
    let mut global = world();
    let first = layout(1, "first", LayoutOrigin::Pool);
    add_group(&mut global, group(1, &first));
    let mut shifted = group(2, &first);
    shifted.dynamic_binding_info = vec![dynamic_binding(BufferBindingType::Uniform)];
    add_group(&mut global, shifted);
    add_simple_pipeline(&mut global);
    add_pipeline(&mut global, pipeline(2, &pipeline_layout(2, vec![first], vec![])));
    add_query_set(&mut global, 1, QueryType::PipelineStatistics, 4);
    add_buffer(&mut global, buffer(9));
    let mut pass = new_pass();
    record(&mut pass);
    let Progress::Waiting(run, _) = global.command_encoder_run_compute_pass(ENCODER, &pass) else {
        panic!("the run has to wait for the backend");
    };
    change(&mut global);
    !global.can_resume(&run, &HalReply::Begun(Ok(())))
}

#[test]
fn objects_have_to_stay_until_they_are_looked_up() {
    let bind = |pass: &mut ComputePass| {
        wgpu_compute_pass_set_pipeline(pass, ComputePipelineId(2));
        wgpu_compute_pass_set_bind_group(pass, 0, BindGroupId(1), &[]);
    };
    let bind_and_dispatch = |pass: &mut ComputePass| {
        bind(pass);
        wgpu_compute_pass_dispatch_workgroups(pass, 1, 1, 1);
    };
    let bind_and_dispatch_indirect = |pass: &mut ComputePass| {
        bind(pass);
        wgpu_compute_pass_dispatch_workgroups_indirect(pass, BufferId(9), 0);
    };
    let begin = |pass: &mut ComputePass| {
        wgpu_compute_pass_begin_pipeline_statistics_query(pass, QuerySetId(1), 0);
    };
    let begin_and_end = |pass: &mut ComputePass| {
        begin(pass);
        wgpu_compute_pass_end_pipeline_statistics_query(pass);
    };
    let no_groups = |global: &mut Global| global.hub.bind_groups.entries.clear();
    let no_queries = |global: &mut Global| global.hub.query_sets.entries.clear();
    assert!(!is_refused(&|_| {}, &bind_and_dispatch));
    assert!(!is_refused(&|_| {}, &begin_and_end));
    // Groups are looked up by a dispatch, query sets at the end of a query.
    assert!(!is_refused(&no_groups, &bind));
    assert!(is_refused(&no_groups, &bind_and_dispatch));
    assert!(is_refused(&no_groups, &bind_and_dispatch_indirect));
    assert!(!is_refused(&no_queries, &begin));
    assert!(is_refused(&no_queries, &begin_and_end));
}

#[test]
fn numbers_have_to_add_up() {
    let indirect = |offset: u64| {
        move |pass: &mut ComputePass| {
            wgpu_compute_pass_set_pipeline(pass, ComputePipelineId(1));
            wgpu_compute_pass_dispatch_workgroups_indirect(pass, BufferId(9), offset);
        }
    };
    assert!(!is_refused(&|_| {}, &indirect(u64::MAX - 12)));
    assert!(is_refused(&|_| {}, &indirect(u64::MAX - 11)));
    assert!(!is_refused(&|_| {}, &|pass| {
        wgpu_compute_pass_set_push_constant(pass, u32::MAX - 11, &[0; 8]);
    }));
    assert!(is_refused(&|_| {}, &|pass| {
        wgpu_compute_pass_set_push_constant(pass, u32::MAX - 3, &[0; 8]);
    }));
    // A command that fails keeps those after it from being looked at.
    assert!(!is_refused(&|_| {}, &|pass| {
        wgpu_compute_pass_dispatch_workgroups_indirect(pass, BufferId(9), u64::MAX - 11);
    }));
    assert!(!is_refused(&|_| {}, &|pass| {
        wgpu_compute_pass_dispatch_workgroups(pass, 1, 1, 1);
        wgpu_compute_pass_set_push_constant(pass, u32::MAX - 3, &[0; 8]);
    }));
}

#[test]
fn limits_matter_where_they_are_consulted() {
    let bind = |index: u32, id: u64, offsets: &'static [u32]| {
        move |pass: &mut ComputePass| {
            wgpu_compute_pass_set_bind_group(pass, index, BindGroupId(id), offsets);
        }
    };
    let many_groups = |global: &mut Global| {
        global.command_buffers[0].limits.max_bind_groups = 9;
    };
    assert!(!is_refused(&many_groups, &bind(7, 1, &[])));
    assert!(is_refused(&many_groups, &bind(8, 1, &[])));
    assert!(!is_refused(&many_groups, &bind(9, 1, &[])));
    let no_alignment = |global: &mut Global| {
        global.command_buffers[0].limits.min_uniform_buffer_offset_alignment = 0;
    };
    // Without a dynamic offset that is looked at there is nothing to be aligned.
    assert!(!is_refused(&no_alignment, &bind(0, 1, &[])));
    assert!(is_refused(&no_alignment, &bind(0, 2, &[0])));
    assert!(!is_refused(&no_alignment, &bind(0, 2, &[0, 0])));
    assert!(!is_refused(
        &|global| global.command_buffers[0].limits.min_storage_buffer_offset_alignment = 0,
        &bind(0, 2, &[0])
    ));
}

#[test]
fn an_error_comes_before_what_cannot_be_run() {
    let mut global = world();
    let mut pass = new_pass();
    wgpu_compute_pass_dispatch_workgroups(&mut pass, 1, 1, 1);
    wgpu_compute_pass_set_push_constant(&mut pass, u32::MAX - 3, &[0; 8]);
    assert_eq!(
        run(&mut global, &pass),
        error(
            PassErrorScope::Dispatch { indirect: false, pipeline: None },
            ComputePassErrorInner::Dispatch(DispatchError::MissingPipeline)
        )
    );
}

/// Whether a pass that is given in parts is admitted.
fn parts_are_admitted(flags: u32, commands: &[ComputeCommand], offsets: &[u32], text: &[u8]) -> bool {
    let mut global = world();
    global.flags = flags;
    let mut shifted = group(1, &layout(1, "first", LayoutOrigin::Pool));
    shifted.dynamic_binding_info = vec![dynamic_binding(BufferBindingType::Uniform)];
    add_group(&mut global, shifted);
    let base = BasePassRef {
        label: None,
        commands,
        dynamic_offsets: offsets,
        string_data: text,
        push_constant_data: &[1, 2],
    };
    let progress =
        global.command_encoder_run_compute_pass_with_unresolved_commands(ENCODER, base, None);
    let Progress::Waiting(run, _) = progress else {
        panic!("the run has to wait for the backend");
    };
    global.can_resume(&run, &HalReply::Begun(Ok(())))
}

#[test]
fn streams_have_to_hold_what_the_commands_take() {
    let bind = |num_dynamic_offsets: usize| ComputeCommand::SetBindGroup {
        index: 0,
        num_dynamic_offsets,
        bind_group_id: BindGroupId(1),
    };
    assert!(parts_are_admitted(0, &[bind(1), bind(2)], &[0, 0, 0], &[]));
    assert!(!parts_are_admitted(0, &[bind(1), bind(3)], &[0, 0, 0], &[]));
    // The first group does not take two offsets, so that the second one is not looked at.
    assert!(parts_are_admitted(0, &[bind(2), bind(9)], &[0, 0, 0], &[]));
    let mark = |len: usize| ComputeCommand::InsertDebugMarker { color: 0, len };
    assert!(parts_are_admitted(0, &[mark(2), mark(1)], &[], "éx".as_bytes()));
    assert!(!parts_are_admitted(0, &[mark(2), mark(2)], &[], "éx".as_bytes()));
    // The labels are cut in the middle of a character.
    assert!(!parts_are_admitted(0, &[mark(1), mark(2)], &[], "éx".as_bytes()));
    assert!(!parts_are_admitted(0, &[mark(1)], &[], &[0xff]));
    // Labels that nobody sees need not be text.
    assert!(parts_are_admitted(DISCARD_HAL_LABELS, &[mark(1)], &[], &[0xff]));
    assert!(parts_are_admitted(DISCARD_HAL_LABELS, &[mark(9)], &[], &[]));
    let set = |size_bytes: u32, values_offset: u32| ComputeCommand::SetPushConstant {
        offset: 0,
        size_bytes,
        values_offset,
    };
    assert!(parts_are_admitted(0, &[set(4, 1)], &[], &[]));
    assert!(!parts_are_admitted(0, &[set(8, 1)], &[], &[]));
}

#[test]
fn a_pass_made_of_parts_is_run_like_a_recorded_one() {
    let mut global = world();
    add_simple_pipeline(&mut global);
    let base = BasePass {
        label: Some("parts".to_string()),
        commands: vec![
            ComputeCommand::SetPipeline(ComputePipelineId(1)),
            ComputeCommand::InsertDebugMarker { color: 0, len: 3 },
        ],
        dynamic_offsets: vec![],
        string_data: vec![b'a', b'b', b'c'],
        push_constant_data: vec![],
    };
    let mut pass = ComputePass::from_parts(base, ENCODER, None);
    assert_eq!(pass.parent_id(), ENCODER);
    // What was set before is not remembered.
    wgpu_compute_pass_set_pipeline(&mut pass, ComputePipelineId(1));
    assert_eq!(run(&mut global, &pass), Ok(()));
    assert_eq!(
        body(&global),
        &[
            RawCommand::BeginComputePass {
                label: Some("parts".to_string()),
                timestamp_writes: None,
            },
            RawCommand::SetComputePipeline(RawHandle(4001)),
            RawCommand::InsertDebugMarker("abc".to_string()),
            RawCommand::SetComputePipeline(RawHandle(4001)),
            RawCommand::EndComputePass,
        ]
    );
}

#[test]
fn discarded_surfaces_are_cleared_before_the_pass_reads_them() {
    let mut global = world();
    let first = layout(1, "first", LayoutOrigin::Pool);
    add_pipeline(&mut global, pipeline(1, &pipeline_layout(1, vec![first.clone()], vec![])));
    let texture = Arc::new(Texture {
        id: TextureId(6),
        initialization_status: vec![InitTracker { uninitialized_ranges: vec![] }],
    });
    let mut bound = group(1, &first);
    bound.used.textures.push(use_of(30, TEXTURE_RESOURCE));
    bound.used_texture_ranges.push(TextureInitTrackerAction {
        texture: texture.clone(),
        range: TextureInitRange { mip_start: 0, mip_end: 1, layer_start: 0, layer_end: 1 },
        kind: MemoryInitKind::NeedsInitializedMemory,
    });
    add_group(&mut global, bound);
    global.command_buffers[0].recording.texture_memory_actions.discards.push(
        TextureSurfaceDiscard {
            texture,
            mip_level: 0,
            layer: 0,
            slot: TrackerIndex(30),
            clear_uses: TEXTURE_COPY_DST,
        },
    );
    let mut pass = new_pass();
    wgpu_compute_pass_set_pipeline(&mut pass, ComputePipelineId(1));
    wgpu_compute_pass_set_bind_group(&mut pass, 0, BindGroupId(1), &[]);
    wgpu_compute_pass_dispatch_workgroups(&mut pass, 1, 1, 1);
    assert_eq!(run(&mut global, &pass), Ok(()));
    let buffer = &global.command_buffers[0];
    assert_eq!(
        buffer.list[0].commands.commands,
        vec![
            RawCommand::TransitionTextures(vec![]),
            RawCommand::ClearSurface { texture: TextureId(6), mip_level: 0, layer: 0 },
            RawCommand::TransitionBuffers(vec![]),
            RawCommand::TransitionTextures(vec![Transition {
                index: TrackerIndex(30),
                from: TEXTURE_COPY_DST,
                to: TEXTURE_RESOURCE,
            }]),
        ]
    );
    assert!(buffer.recording.texture_memory_actions.discards.is_empty());
}
