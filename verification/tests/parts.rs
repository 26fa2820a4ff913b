use compute_pass::bind::{Binder, SlotLayouts};
use compute_pass::error::{
    CommandEncoderError, ComputePassError, ComputePassErrorInner, DeviceError, DispatchError,
    ErrorFormatter, ErrorLine, MapPassErr, PassErrorScope, PrettyError,
};
use compute_pass::id::{
    BindGroupId, BindGroupLayoutId, BufferId, CommandEncoderId, ComputePipelineId,
    PipelineLayoutId, RawHandle, TextureId, TrackerIndex,
};
use compute_pass::init_tracker::{InitRange, InitTracker, MemoryInitKind};
use compute_pass::memory_init::{
    check_texture_action, CommandBufferTextureMemoryActions, TextureInitRange,
    TextureInitTrackerAction, TextureSurfaceDiscard,
};
use compute_pass::push_constant::{compute_nonoverlapping_ranges, push_constant_clear};
use compute_pass::raw::{RawCommand, RawEncoder};
use compute_pass::resource::{
    BindGroup, BindGroupLayout, LateSizedBufferGroup, LayoutOrigin, PipelineLayout, Texture,
};
use compute_pass::run::Recording;
use compute_pass::state_change::{BindGroupStateChange, StateChange};
use compute_pass::storage::Storage;
use compute_pass::track::{
    BindGroupStates, InvalidUse, ResourceKind, ResourceUse, StatelessTracker, TrackedUse,
    Transition, UsageConflict, UsageScope, UsageTracker, BUFFER_STORAGE_READ, BUFFER_UNIFORM,
    TEXTURE_COPY_DST, TEXTURE_RESOURCE, TEXTURE_STORAGE_READ_WRITE,
};
use compute_pass::types::{
    PushConstantRange, COMPUTE_STAGE, FRAGMENT_STAGE, MAX_BIND_GROUPS, VERTEX_STAGE,
};
use std::sync::Arc;

fn range(stages: u32, start: u32, end: u32) -> PushConstantRange {
    PushConstantRange { stages, start, end }
}

#[test]
fn overlapping_ranges_are_broken_up() {
    let ranges = vec![
        range(VERTEX_STAGE, 0, 16),
        range(FRAGMENT_STAGE, 8, 24),
        range(COMPUTE_STAGE, 32, 40),
    ];
    assert_eq!(
        compute_nonoverlapping_ranges(&ranges),
        vec![
            range(VERTEX_STAGE, 0, 8),
            range(VERTEX_STAGE | FRAGMENT_STAGE, 8, 16),
            range(FRAGMENT_STAGE, 16, 24),
            range(COMPUTE_STAGE, 32, 40),
        ]
    );
}

#[test]
fn ranges_that_begin_together_are_broken_up() {
    let ranges = vec![range(VERTEX_STAGE, 0, 8), range(COMPUTE_STAGE, 0, 4)];
    assert_eq!(
        compute_nonoverlapping_ranges(&ranges),
        vec![range(VERTEX_STAGE | COMPUTE_STAGE, 0, 4), range(VERTEX_STAGE, 4, 8)]
    );
    assert_eq!(compute_nonoverlapping_ranges(&vec![]), vec![]);
    assert_eq!(compute_nonoverlapping_ranges(&vec![range(COMPUTE_STAGE, 4, 4)]), vec![]);
}

#[test]
fn push_constants_are_cleared_in_chunks() {
    let mut raw = RawEncoder::new();
    push_constant_clear(&mut raw, RawHandle(1), 8, 4 * 130);
    let clear = |offset: u32, words: usize| RawCommand::SetPushConstants {
        layout: RawHandle(1),
        stages: COMPUTE_STAGE,
        offset,
        data: vec![0; words],
    };
    assert_eq!(raw.commands, vec![clear(8, 64), clear(264, 64), clear(520, 2)]);
}

#[test]
fn clearing_nothing_asks_for_nothing() {
    let mut raw = RawEncoder::new();
    push_constant_clear(&mut raw, RawHandle(1), 8, 3);
    assert!(raw.commands.is_empty());
}

#[test]
fn unwritten_memory_is_found() {
    let tracker = InitTracker {
        uninitialized_ranges: vec![
            InitRange { start: 4, end: 8 },
            InitRange { start: 16, end: 32 },
        ],
    };
    let check = |start: u64, end: u64| {
        tracker.check(InitRange { start, end }).map(|part| (part.start, part.end))
    };
    assert_eq!(check(0, 4), None);
    assert_eq!(check(0, 5), Some((4, 5)));
    assert_eq!(check(6, 12), Some((6, 8)));
    assert_eq!(check(0, 17), Some((4, 17)));
    assert_eq!(check(8, 16), None);
    assert_eq!(check(8, 64), Some((16, 32)));
    assert_eq!(check(32, 64), None);
}

fn texture(id: u64, mips: Vec<Vec<(u64, u64)>>) -> Arc<Texture> {
    Arc::new(Texture {
        id: TextureId(id),
        initialization_status: mips
            .into_iter()
            .map(|ranges| InitTracker {
                uninitialized_ranges: ranges
                    .into_iter()
                    .map(|(start, end)| InitRange { start, end })
                    .collect(),
            })
            .collect(),
    })
}

fn texture_range(mips: (u32, u32), layers: (u32, u32)) -> TextureInitRange {
    TextureInitRange {
        mip_start: mips.0,
        mip_end: mips.1,
        layer_start: layers.0,
        layer_end: layers.1,
    }
}

fn touch(
    texture: &Arc<Texture>,
    mips: (u32, u32),
    layers: (u32, u32),
    kind: MemoryInitKind,
) -> TextureInitTrackerAction {
    TextureInitTrackerAction {
        texture: texture.clone(),
        range: texture_range(mips, layers),
        kind,
    }
}

#[test]
fn unwritten_layers_are_found_over_all_mip_levels() {
    let texture = texture(1, vec![vec![(0, 2)], vec![], vec![(3, 5)]]);
    let reads = MemoryInitKind::NeedsInitializedMemory;
    let found = |mips: (u32, u32), layers: (u32, u32)| {
        check_texture_action(&touch(&texture, mips, layers, reads)).map(|action| action.range)
    };
    assert_eq!(found((0, 3), (1, 4)), Some(texture_range((0, 3), (1, 4))));
    assert_eq!(found((0, 1), (0, 6)), Some(texture_range((0, 1), (0, 2))));
    assert_eq!(found((1, 2), (0, 6)), None);
    assert_eq!(found((2, 9), (0, 4)), Some(texture_range((2, 3), (3, 4))));
}

fn surface(texture: &Arc<Texture>, mip_level: u32, layer: u32) -> TextureSurfaceDiscard {
    TextureSurfaceDiscard {
        texture: texture.clone(),
        mip_level,
        layer,
        slot: TrackerIndex(100 + layer),
        clear_uses: TEXTURE_COPY_DST,
    }
}

fn discarded(texture: &Arc<Texture>) -> CommandBufferTextureMemoryActions {
    let mut memory = CommandBufferTextureMemoryActions::new();
    memory.discards.push(surface(texture, 0, 0));
    memory.discards.push(surface(texture, 0, 1));
    memory.discards.push(surface(texture, 1, 1));
    memory
}

fn positions(surfaces: &[TextureSurfaceDiscard]) -> Vec<(u32, u32)> {
    surfaces.iter().map(|surface| (surface.mip_level, surface.layer)).collect()
}

#[test]
fn discarded_surfaces_that_are_read_have_to_be_cleared() {
    let texture = texture(1, vec![vec![], vec![]]);
    let mut memory = discarded(&texture);
    let mut fixups = vec![];
    let reads = MemoryInitKind::NeedsInitializedMemory;
    memory.register_init_action(&touch(&texture, (0, 1), (1, 2), reads), &mut fixups);
    assert_eq!(positions(&fixups), vec![(0, 1)]);
    assert_eq!(positions(&memory.discards), vec![(0, 0), (1, 1)]);
    // The surface counts as written from there on.
    assert_eq!(memory.init_actions.len(), 1);
    assert_eq!(memory.init_actions[0].range, texture_range((0, 1), (1, 2)));
    assert_eq!(memory.init_actions[0].kind, MemoryInitKind::ImplicitlyInitialized);
    // A second read finds nothing to clear.
    memory.register_init_action(&touch(&texture, (0, 1), (1, 2), reads), &mut fixups);
    assert_eq!(fixups.len(), 1);
}

#[test]
fn discarded_surfaces_that_are_overwritten_are_forgotten() {
    let texture = texture(1, vec![vec![], vec![]]);
    let mut memory = discarded(&texture);
    let mut fixups = vec![];
    let writes = MemoryInitKind::ImplicitlyInitialized;
    memory.register_init_action(&touch(&texture, (0, 2), (1, 2), writes), &mut fixups);
    assert!(fixups.is_empty());
    assert!(memory.init_actions.is_empty());
    assert_eq!(positions(&memory.discards), vec![(0, 0)]);
}

#[test]
fn discarded_surfaces_of_other_textures_stay() {
    let discarded_texture = texture(1, vec![vec![], vec![]]);
    let other = texture(2, vec![vec![(0, 9)], vec![]]);
    let mut memory = discarded(&discarded_texture);
    let mut fixups = vec![];
    let reads = MemoryInitKind::NeedsInitializedMemory;
    memory.register_init_actions(&vec![touch(&other, (0, 2), (0, 2), reads)], &mut fixups);
    assert!(fixups.is_empty());
    assert_eq!(memory.discards.len(), 3);
    assert_eq!(memory.init_actions.len(), 1);
    assert_eq!(memory.init_actions[0].texture.id, TextureId(2));
    assert_eq!(memory.init_actions[0].range, texture_range((0, 1), (0, 2)));
}

#[test]
fn surfaces_are_moved_to_be_cleared() {
    let texture = texture(1, vec![vec![]]);
    let mut recording = Recording::new();
    recording.trackers.textures.set(
        ResourceKind::Texture,
        TrackerIndex(100),
        TEXTURE_RESOURCE,
        TEXTURE_RESOURCE,
    );
    recording.fixup_discarded_surfaces(&vec![surface(&texture, 0, 0), surface(&texture, 0, 1)]);
    let clear = |layer: u32| RawCommand::ClearSurface {
        texture: TextureId(1),
        mip_level: 0,
        layer,
    };
    assert_eq!(
        recording.raw.commands,
        vec![
            RawCommand::TransitionTextures(vec![Transition {
                index: TrackerIndex(100),
                from: TEXTURE_RESOURCE,
                to: TEXTURE_COPY_DST,
            }]),
            clear(0),
            RawCommand::TransitionTextures(vec![]),
            clear(1),
        ]
    );
    assert!(recording.trackers.textures.pending.is_empty());
}

fn use_of(index: u32, uses: u16) -> ResourceUse {
    ResourceUse { index: TrackerIndex(index), id: index as u64, uses }
}

#[test]
fn textures_are_merged_behind_buffers() {
    let mut scope = UsageScope::new();
    let uses = |buffer: u16, texture: u16| BindGroupStates {
        buffers: vec![use_of(1, buffer)],
        textures: vec![use_of(1, texture)],
    };
    assert_eq!(scope.merge_bind_group(&uses(BUFFER_UNIFORM, TEXTURE_RESOURCE)), Ok(()));
    assert_eq!(
        scope.merge_bind_group(&uses(BUFFER_STORAGE_READ, TEXTURE_STORAGE_READ_WRITE)),
        Err(UsageConflict::Texture {
            texture: TextureId(1),
            invalid_use: InvalidUse {
                current_state: TEXTURE_RESOURCE,
                new_state: TEXTURE_STORAGE_READ_WRITE,
            },
        })
    );
    assert_eq!(scope.buffers, vec![use_of(1, BUFFER_UNIFORM | BUFFER_STORAGE_READ)]);
    assert_eq!(scope.textures, vec![use_of(1, TEXTURE_RESOURCE)]);
}

#[test]
fn uses_move_from_the_scope_into_the_tracker() {
    let mut tracker = UsageTracker::new();
    let mut scope = vec![use_of(1, BUFFER_UNIFORM), use_of(2, BUFFER_STORAGE_READ)];
    tracker.take_slot_from_scope(ResourceKind::Buffer, &mut scope, TrackerIndex(3));
    assert_eq!(scope.len(), 2);
    tracker.take_from_scope(
        ResourceKind::Buffer,
        &mut scope,
        &vec![use_of(2, BUFFER_UNIFORM), use_of(2, BUFFER_UNIFORM)],
    );
    assert_eq!(scope, vec![use_of(1, BUFFER_UNIFORM)]);
    assert_eq!(
        tracker.uses,
        vec![TrackedUse {
            index: TrackerIndex(2),
            start: BUFFER_STORAGE_READ,
            end: BUFFER_STORAGE_READ,
        }]
    );
    tracker.set(ResourceKind::Buffer, TrackerIndex(2), BUFFER_STORAGE_READ, BUFFER_UNIFORM);
    assert!(tracker.drain_transitions().is_empty());
    tracker.set(ResourceKind::Buffer, TrackerIndex(2), BUFFER_STORAGE_READ, BUFFER_UNIFORM);
    assert_eq!(
        tracker.drain_transitions(),
        vec![Transition {
            index: TrackerIndex(2),
            from: BUFFER_UNIFORM,
            to: BUFFER_STORAGE_READ,
        }]
    );
    assert!(tracker.pending.is_empty());
}

#[test]
fn objects_are_kept_alive_once() {
    let mut tracker = StatelessTracker::new();
    for id in [3, 1, 3, 2, 1] {
        tracker.insert_single(id);
    }
    assert_eq!(tracker.ids, vec![3, 1, 2]);
}

#[test]
fn a_storage_finds_its_objects() {
    let mut storage: Storage<u32> = Storage::new();
    storage.insert(4, Arc::new(40));
    storage.insert(2, Arc::new(20));
    assert_eq!(storage.get(2).map(|object| **object), Some(20));
    assert_eq!(storage.get(4).map(|object| **object), Some(40));
    assert!(storage.get(3).is_none());
}

#[test]
fn state_changes_are_remembered() {
    let mut pipeline: StateChange<ComputePipelineId> = StateChange::new();
    assert!(!pipeline.set_and_check_redundant(ComputePipelineId(1)));
    assert!(pipeline.set_and_check_redundant(ComputePipelineId(1)));
    pipeline.reset();
    assert!(!pipeline.set_and_check_redundant(ComputePipelineId(1)));
    let mut groups = BindGroupStateChange::new();
    let mut offsets = vec![];
    assert!(!groups.set_and_check_redundant(BindGroupId(1), 7, &mut offsets, &[]));
    assert!(groups.set_and_check_redundant(BindGroupId(1), 7, &mut offsets, &[]));
    assert!(!groups.set_and_check_redundant(BindGroupId(1), 7, &mut offsets, &[5]));
    assert!(!groups.set_and_check_redundant(BindGroupId(1), 7, &mut offsets, &[]));
    assert_eq!(offsets, vec![5]);
}

fn layout(id: u64) -> Arc<BindGroupLayout> {
    Arc::new(BindGroupLayout {
        id: BindGroupLayoutId(id),
        label: String::new(),
        origin: LayoutOrigin::Pool,
    })
}

fn group(id: u64, layout: &Arc<BindGroupLayout>, sizes: Vec<u64>) -> Arc<BindGroup> {
    Arc::new(BindGroup {
        id: BindGroupId(id),
        layout: layout.clone(),
        raw: None,
        dynamic_binding_info: vec![],
        late_buffer_binding_sizes: sizes,
        used: BindGroupStates { buffers: vec![], textures: vec![] },
        used_buffer_ranges: vec![],
        used_texture_ranges: vec![],
    })
}

fn pipeline_layout(id: u64, layouts: Vec<Arc<BindGroupLayout>>) -> Arc<PipelineLayout> {
    Arc::new(PipelineLayout {
        id: PipelineLayoutId(id),
        raw: RawHandle(id),
        bind_group_layouts: layouts,
        push_constant_ranges: vec![],
    })
}

#[test]
fn a_binder_tells_which_slots_to_hand_over() {
    let (a, b) = (layout(1), layout(2));
    let mut binder = Binder::new();
    assert_eq!(binder.invalid_mask(), 0);
    // Without a pipeline nothing is handed over.
    assert_eq!(binder.assign_group(1, &group(2, &b, vec![]), &[]), 1);
    let both = pipeline_layout(1, vec![a.clone(), b.clone()]);
    assert_eq!(binder.change_pipeline_layout(&both, &vec![]), (0, 0));
    assert_eq!(binder.invalid_mask(), 0b1);
    assert_eq!(binder.assign_group(0, &group(1, &a, vec![]), &[]), 2);
    assert_eq!(binder.invalid_mask(), 0);
    let active: Vec<u64> = binder.list_active().iter().map(|group| group.id.0).collect();
    assert_eq!(active, vec![1, 2]);
    // A group of another layout makes its slot invalid.
    assert_eq!(binder.assign_group(0, &group(3, &b, vec![]), &[]), 0);
    assert_eq!(binder.invalid_mask(), 0b1);
    assert_eq!(binder.bgl_diff().len(), 2);
    // A pipeline that expects less leaves the rest alone.
    let first = pipeline_layout(2, vec![b.clone()]);
    assert_eq!(binder.change_pipeline_layout(&first, &vec![]), (0, 1));
    assert_eq!(binder.invalid_mask(), 0);
    assert_eq!(binder.slots.len(), MAX_BIND_GROUPS);
    let active: Vec<u64> = binder.list_active().iter().map(|group| group.id.0).collect();
    assert_eq!(active, vec![3]);
}

#[test]
fn sizes_are_compared_only_as_far_as_the_pipeline_looks() {
    let a = layout(1);
    let mut binder = Binder::new();
    binder.assign_group(0, &group(1, &a, vec![8, 8]), &[]);
    let one = pipeline_layout(1, vec![a.clone()]);
    let late = |sizes: Vec<u64>| vec![LateSizedBufferGroup { shader_sizes: sizes }];
    binder.change_pipeline_layout(&one, &late(vec![8, 16]));
    let error = binder.check_late_buffer_bindings().unwrap_err();
    assert_eq!(
        (error.group_index, error.compact_index, error.shader_size, error.bound_size),
        (0, 1, 16, 8)
    );
    let two = pipeline_layout(2, vec![a.clone()]);
    binder.change_pipeline_layout(&two, &late(vec![8]));
    assert!(binder.check_late_buffer_bindings().is_ok());
    let three = pipeline_layout(3, vec![a]);
    binder.change_pipeline_layout(&three, &late(vec![8, 8, 4]));
    assert!(binder.check_late_buffer_bindings().is_err());
}

#[test]
fn slots_without_expectation_are_valid_and_unused() {
    let slot = SlotLayouts { assigned: Some(layout(1)), expected: None };
    assert!(slot.is_valid());
    assert!(!slot.is_active());
    assert!(!slot.expects(&layout(1)));
    assert_eq!(
        slot.bgl_diff(),
        vec!["Expected bind group layout not found (internal error)".to_string()]
    );
    let slot = SlotLayouts { assigned: None, expected: Some(layout(1)) };
    assert!(!slot.is_valid());
    assert!(slot.expects(&layout(1)));
}

fn explain(error: &dyn PrettyError) -> Vec<ErrorLine> {
    let mut formatter = ErrorFormatter::new();
    error.fmt_pretty(&mut formatter);
    formatter.lines
}

#[test]
fn errors_name_what_they_are_about() {
    assert_eq!(
        explain(&ComputePassErrorInner::InvalidPipeline(ComputePipelineId(3))),
        vec![ErrorLine::Message, ErrorLine::ComputePipelineLabel(ComputePipelineId(3))]
    );
    assert_eq!(
        explain(&ComputePassErrorInner::InvalidIndirectBuffer(BufferId(4))),
        vec![ErrorLine::Message, ErrorLine::BufferLabel(BufferId(4))]
    );
    assert_eq!(
        explain(&ComputePassErrorInner::InvalidBuffer(BufferId(4))),
        vec![ErrorLine::Message]
    );
    assert_eq!(
        explain(&ComputePassErrorInner::Dispatch(DispatchError::IncompatibleBindGroup {
            index: 1,
            diff: vec!["one".to_string(), "two".to_string()],
        })),
        vec![
            ErrorLine::Message,
            ErrorLine::Note("one".to_string()),
            ErrorLine::Note("two".to_string()),
        ]
    );
}

#[test]
fn errors_name_where_they_come_from() {
    let explain_scope = |scope: PassErrorScope| {
        explain(&ComputePassError { scope, inner: ComputePassErrorInner::InvalidPopDebugGroup })
    };
    assert_eq!(
        explain_scope(PassErrorScope::Pass(CommandEncoderId(1))),
        vec![ErrorLine::Message, ErrorLine::CommandBufferLabel(CommandEncoderId(1))]
    );
    assert_eq!(
        explain_scope(PassErrorScope::SetBindGroup(BindGroupId(2))),
        vec![ErrorLine::Message, ErrorLine::BindGroupLabel(BindGroupId(2))]
    );
    assert_eq!(
        explain_scope(PassErrorScope::SetPipelineCompute(ComputePipelineId(3))),
        vec![ErrorLine::Message, ErrorLine::ComputePipelineLabel(ComputePipelineId(3))]
    );
    assert_eq!(
        explain_scope(PassErrorScope::Dispatch {
            indirect: true,
            pipeline: Some(ComputePipelineId(3)),
        }),
        vec![ErrorLine::Message, ErrorLine::ComputePipelineLabel(ComputePipelineId(3))]
    );
    assert_eq!(
        explain_scope(PassErrorScope::Dispatch { indirect: false, pipeline: None }),
        vec![ErrorLine::Message]
    );
    assert_eq!(explain_scope(PassErrorScope::SetPushConstant), vec![ErrorLine::Message]);
}

#[test]
fn errors_get_their_scope() {
    let scope = PassErrorScope::WriteTimestamp;
    let fine: Result<u8, DeviceError> = Ok(3);
    assert_eq!(fine.map_pass_err(scope), Ok(3));
    let failed: Result<u8, DeviceError> = Err(DeviceError::Invalid);
    assert_eq!(
        failed.map_pass_err(scope),
        Err(ComputePassError { scope, inner: ComputePassErrorInner::Device(DeviceError::Invalid) })
    );
    let failed: Result<u8, CommandEncoderError> = Err(CommandEncoderError::NotRecording);
    assert_eq!(
        failed.map_pass_err(scope),
        Err(ComputePassError {
            scope,
            inner: ComputePassErrorInner::Encoder(CommandEncoderError::NotRecording),
        })
    );
}
