//! Running the commands of a compute pass.
//!
//! Each command either changes the state of the run, or ends the run with an error. A command that
//! was not recorded properly, or that refers to something that cannot be, has no outcome at all: such
//! runs are ruled out from the start.
use crate::bind::{BinderView, PayloadView};
use crate::command::ArcComputeCommand;
use crate::error::{
    ComputePassError, ComputePassErrorInner, DispatchError, ErrorView, Fault, MapPassErr,
    MissingBufferUsageError, MissingDownlevelFlags, MissingFeatures, PassErrorScope,
};
use crate::id::{ComputePipelineId, QuerySetId, RawHandle, TrackerIndex};
use crate::init_tracker::{InitRange, MemoryInitKind};
use crate::memory_init;
use crate::memory_init::{
    create_buffer_action, extend_buffer_actions, BufferInitTrackerAction,
    CommandBufferTextureMemoryActions, TextureMemoryView, TextureSurfaceDiscard,
};
use crate::push_constant;
use crate::push_constant::{compute_nonoverlapping_ranges, push_constant_clear};
use crate::query::{ActiveQuery, QueryType, QueryUseError};
use crate::raw::{RawCommand, RawEncoder, RawView};
use crate::resource::{BindGroup, Buffer, ComputePipeline, QuerySet};
use crate::state;
use crate::state::{Flush, FlushView, State};
use crate::storage::Storage;
use crate::track;
use crate::track::{ResourceKind, ResourceUse, ScopeView, Tracker, TrackerView};
use crate::types;
use crate::types::{
    contains_features, contains_flags, BufferAddress, DownlevelFlags, DynamicOffset, Features,
    Limits, PushConstantRange, BUFFER_USAGE_INDIRECT, COMPUTE_STAGE, DISPATCH_INDIRECT_ARGS_SIZE,
    INDIRECT_EXECUTION, MAX_BIND_GROUPS, PUSH_CONSTANT_ALIGNMENT, TIMESTAMP_QUERY_INSIDE_PASSES,
};
use std::sync::Arc;
use vstd::prelude::*;

verus! {

/// What the commands of a pass can look at but not change.
#[derive(Debug)]
pub struct PassEnv<'a> {
    pub limits: Limits,
    pub features: Features,
    pub downlevel_flags: DownlevelFlags,
    pub discard_hal_labels: bool,
    pub bind_groups: &'a Storage<BindGroup>,
    pub query_sets: &'a Storage<QuerySet>,
    pub dynamic_offsets: &'a [DynamicOffset],
    pub string_data: &'a [u8],
    pub push_constant_data: &'a [u32],
}

/// What the commands of a command buffer leave behind.
#[derive(Debug)]
pub struct Recording {
    pub raw: RawEncoder,
    pub trackers: Tracker,
    pub buffer_memory_init_actions: Vec<BufferInitTrackerAction>,
    pub texture_memory_actions: CommandBufferTextureMemoryActions,
}

/// The contents of a [`Recording`].
#[verifier::ext_equal]
pub struct RecordingView {
    pub raw: Seq<RawView>,
    pub trackers: TrackerView,
    pub buffer_inits: Seq<BufferInitTrackerAction>,
    pub texture_memory: TextureMemoryView,
}

impl View for Recording {
    type V = RecordingView;

    open spec fn view(&self) -> RecordingView {
        RecordingView {
            raw: self.raw@,
            trackers: self.trackers@,
            buffer_inits: self.buffer_memory_init_actions@,
            texture_memory: self.texture_memory_actions@,
        }
    }
}

/// A pass in the middle of being run.
#[derive(Debug)]
pub struct PassRecorder {
    pub state: State,
    pub dynamic_offset_count: usize,
    pub string_offset: usize,
    pub active_query: ActiveQuery,
    /// The uses of the resources by the dispatches of the pass.
    pub intermediate_trackers: Tracker,
    /// Surfaces that have to be cleared before the pass because they were discarded before it.
    pub pending_discard_init_fixups: Vec<TextureSurfaceDiscard>,
}

/// Everything that the commands of a pass change.
#[verifier::ext_equal]
pub struct RunView {
    pub binder: BinderView,
    pub pipeline: Option<ComputePipelineId>,
    pub scope: ScopeView,
    pub debug_scope_depth: u32,
    /// The number of dynamic offsets that have been taken.
    pub dynamic_offset_count: nat,
    /// The number of bytes of string data that have been taken.
    pub string_offset: nat,
    pub active_query: ActiveQuery,
    pub intermediate: TrackerView,
    pub fixups: Seq<TextureSurfaceDiscard>,
    pub out: RecordingView,
}

/// The contents of a pass in the middle of being run, and of what it leaves behind.
pub open spec fn run_view(recorder: PassRecorder, out: Recording) -> RunView {
    RunView {
        binder: recorder.state.binder@,
        pipeline: recorder.state.pipeline,
        scope: recorder.state.scope@,
        debug_scope_depth: recorder.state.debug_scope_depth,
        dynamic_offset_count: recorder.dynamic_offset_count as nat,
        string_offset: recorder.string_offset as nat,
        active_query: recorder.active_query,
        intermediate: recorder.intermediate_trackers@,
        fixups: recorder.pending_discard_init_fixups@,
        out: out@,
    }
}

/// How a command ends.
pub enum Step {
    Done(RunView),
    Failed(RunView, ErrorView),
    /// The command has no outcome.
    Stuck,
}

/// The state and the result of executing a command are those that were foretold.
pub open spec fn step_agrees(step: Step, after: RunView, r: Result<(), ComputePassError>) -> bool {
    match step {
        Step::Done(s) => r is Ok && after == s,
        Step::Failed(s, e) => (r matches Err(error) && error@ == e) && after == s,
        Step::Stuck => true,
    }
}

/// Hands `n` slots from `start` on to the backend. Stops at the first group whose backend object is
/// gone, and returns its slot.
pub open spec fn rebind(
    raw: Seq<RawView>,
    layout: RawHandle,
    payloads: Seq<PayloadView>,
    start: int,
    n: nat,
) -> (Seq<RawView>, Option<int>)
    decreases n,
{
    if n == 0 {
        (raw, None)
    } else {
        let (before, gone) = rebind(raw, layout, payloads, start, (n - 1) as nat);
        if gone is Some {
            (before, gone)
        } else {
            let payload = payloads[start + n - 1];
            match payload.group {
                None => (before, None),
                Some(group) => match group.raw {
                    None => (before, Some(start + n - 1)),
                    Some(handle) => (
                        before.push(
                            RawView::SetBindGroup {
                                layout,
                                index: (start + n - 1) as u32,
                                group: handle,
                                dynamic_offsets: payload.dynamic_offsets,
                            },
                        ),
                        None,
                    ),
                },
            }
        }
    }
}

/// The calls that clear the first `n` of some ranges of push constants.
pub open spec fn clear_ranges(
    raw: Seq<RawView>,
    layout: RawHandle,
    ranges: Seq<PushConstantRange>,
    n: nat,
) -> Seq<RawView>
    decreases n,
{
    if n == 0 {
        raw
    } else {
        clear_ranges(raw, layout, ranges, (n - 1) as nat) + push_constant::clear_commands(
            layout,
            ranges[n - 1].start as int,
            ((ranges[n - 1].end - ranges[n - 1].start) / PUSH_CONSTANT_ALIGNMENT as int) as nat,
        )
    }
}

/// The buffer actions with one more, if one is needed.
pub open spec fn with_action(
    actions: Seq<BufferInitTrackerAction>,
    action: Option<BufferInitTrackerAction>,
) -> Seq<BufferInitTrackerAction> {
    match action {
        Some(action) => actions.push(action),
        None => actions,
    }
}

impl RunView {
    /// The run with other calls on the backend.
    pub open spec fn with_raw(self, raw: Seq<RawView>) -> Self {
        RunView { out: RecordingView { raw, ..self.out }, ..self }
    }

    /// The run with one more call on the backend.
    pub open spec fn emit(self, command: RawView) -> Self {
        self.with_raw(self.out.raw.push(command))
    }

    /// The run ends with an error.
    pub open spec fn fail(self, scope: PassErrorScope, fault: Fault) -> Step {
        Step::Failed(self, ErrorView { scope, fault })
    }

    /// The run ends with an error that says all by itself.
    pub open spec fn fail_with(self, scope: PassErrorScope, inner: ComputePassErrorInner) -> Step {
        self.fail(scope, Fault::Other(inner))
    }

    /// Hands the slots `start..end` to the backend. The error for a group whose backend object is gone
    /// names its slot.
    pub open spec fn rebind(
        self,
        scope: PassErrorScope,
        layout: RawHandle,
        start: int,
        end: int,
    ) -> Step {
        let (raw, gone) = rebind(
            self.out.raw,
            layout,
            self.binder.payloads,
            start,
            (end - start) as nat,
        );
        match gone {
            Some(slot) => self.with_raw(raw).fail_with(
                scope,
                ComputePassErrorInner::InvalidBindGroup(slot as u32),
            ),
            None => Step::Done(self.with_raw(raw)),
        }
    }

    /// Binds a group to a slot. The slot has to be within the limits and the dynamic offsets have to
    /// fit the group. What the group reads and nobody has written yet is noted. The slots that the
    /// pipeline can use now are handed to the backend.
    pub open spec fn set_bind_group(
        self,
        env: PassEnv,
        index: u32,
        num_dynamic_offsets: usize,
        bind_group: Arc<BindGroup>,
    ) -> Step {
        let scope = PassErrorScope::SetBindGroup(bind_group.id);
        let end = self.dynamic_offset_count + num_dynamic_offsets;
        if index >= env.limits.max_bind_groups {
            self.fail_with(
                scope,
                ComputePassErrorInner::BindGroupIndexOutOfRange {
                    index,
                    max: env.limits.max_bind_groups,
                },
            )
        } else if end > env.dynamic_offsets@.len() {
            Step::Stuck
        } else {
            let offsets = env.dynamic_offsets@.subrange(
                self.dynamic_offset_count as int,
                end as int,
            );
            let held = RunView {
                dynamic_offset_count: end as nat,
                out: RecordingView {
                    trackers: TrackerView {
                        bind_groups: track::insert_once(
                            self.out.trackers.bind_groups,
                            bind_group.id.0,
                        ),
                        ..self.out.trackers
                    },
                    ..self.out
                },
                ..self
            };
            if !bind_group.offsets_can_be_checked(index, offsets, env.limits) {
                Step::Stuck
            } else {
                match bind_group.dynamic_bindings_error(index, offsets, env.limits) {
                    Some(e) => held.fail_with(scope, ComputePassErrorInner::Bind(e)),
                    None => if index >= MAX_BIND_GROUPS {
                        Step::Stuck
                    } else {
                        held.touch_memory(bind_group).assign_group(index, bind_group, offsets)
                    },
                }
            }
        }
    }

    /// Notes what a group reads and nobody has written yet.
    pub open spec fn touch_memory(self, bind_group: Arc<BindGroup>) -> Self {
        let (texture_memory, fixups) = self.out.texture_memory.register_init_actions(
            bind_group.used_texture_ranges@,
            self.fixups,
            bind_group.used_texture_ranges@.len(),
        );
        RunView {
            fixups,
            out: RecordingView {
                buffer_inits: self.out.buffer_inits + memory_init::buffer_actions_needed(
                    bind_group.used_buffer_ranges@,
                    bind_group.used_buffer_ranges@.len(),
                ),
                texture_memory,
                ..self.out
            },
            ..self
        }
    }

    /// Puts a group into its slot, and hands the slots that the pipeline can use now to the backend.
    pub open spec fn assign_group(
        self,
        index: u32,
        bind_group: Arc<BindGroup>,
        offsets: Seq<DynamicOffset>,
    ) -> Step {
        let bound = RunView {
            binder: self.binder.assign_group(index as int, bind_group, offsets),
            ..self
        };
        match self.binder.layout {
            Some(layout) => bound.rebind(
                PassErrorScope::SetBindGroup(bind_group.id),
                layout.raw,
                index as int,
                bound.binder.rebind_end(index as int),
            ),
            None => Step::Done(bound),
        }
    }

    /// Sets the pipeline. Where its layout is another one than before, the slots that this disturbs
    /// are handed to the backend again, and all push constants are cleared.
    pub open spec fn set_pipeline(self, pipeline: Arc<ComputePipeline>) -> Step {
        let set = RunView {
            pipeline: Some(pipeline.id),
            out: RecordingView {
                trackers: TrackerView {
                    compute_pipelines: track::insert_once(
                        self.out.trackers.compute_pipelines,
                        pipeline.id.0,
                    ),
                    ..self.out.trackers
                },
                ..self.out
            },
            ..self
        }.emit(RawView::SetComputePipeline(pipeline.raw));
        let same_layout = self.binder.layout matches Some(layout) && layout.id
            == pipeline.layout.id;
        if same_layout {
            Step::Done(set)
        } else if pipeline.layout.bind_group_layouts@.len() > MAX_BIND_GROUPS {
            Step::Stuck
        } else {
            let changed = RunView {
                binder: self.binder.change_pipeline_layout(
                    pipeline.layout,
                    pipeline.late_sized_buffer_groups@,
                ),
                ..set
            };
            match changed.rebind(
                PassErrorScope::SetPipelineCompute(pipeline.id),
                pipeline.layout.raw,
                self.binder.rebind_start(pipeline.layout),
                changed.binder.rebind_end(self.binder.first_changed_slot(pipeline.layout)),
            ) {
                Step::Done(bound) => {
                    let ranges = push_constant::nonoverlapping_ranges(
                        pipeline.layout.push_constant_ranges@,
                    );
                    Step::Done(
                        bound.with_raw(
                            clear_ranges(
                                bound.out.raw,
                                pipeline.layout.raw,
                                ranges,
                                ranges.len(),
                            ),
                        ),
                    )
                },
                other => other,
            }
        }
    }

    /// Sets push constants, which the layout of the pipeline has to have.
    pub open spec fn set_push_constant(
        self,
        env: PassEnv,
        offset: u32,
        size_bytes: u32,
        values_offset: u32,
    ) -> Step {
        let scope = PassErrorScope::SetPushConstant;
        let end_offset = offset + size_bytes;
        let values_end = values_offset + size_bytes / PUSH_CONSTANT_ALIGNMENT;
        if end_offset > u32::MAX || values_end > u32::MAX || values_end
            > env.push_constant_data@.len() {
            Step::Stuck
        } else {
            match self.binder.layout {
                None => self.fail_with(
                    scope,
                    ComputePassErrorInner::Dispatch(DispatchError::MissingPipeline),
                ),
                Some(layout) => match push_constant::push_constant_error(
                    layout.push_constant_ranges@,
                    COMPUTE_STAGE,
                    offset,
                    end_offset as u32,
                ) {
                    Some(e) => self.fail_with(scope, ComputePassErrorInner::PushConstants(e)),
                    None => Step::Done(
                        self.emit(
                            RawView::SetPushConstants {
                                layout: layout.raw,
                                stages: COMPUTE_STAGE,
                                offset,
                                data: env.push_constant_data@.subrange(
                                    values_offset as int,
                                    values_end,
                                ),
                            },
                        ),
                    ),
                },
            }
        }
    }

    /// Flushes the state before a dispatch.
    pub open spec fn flush(
        self,
        env: PassEnv,
        scope: PassErrorScope,
        indirect_buffer: Option<TrackerIndex>,
    ) -> Step {
        match state::flush(
            self.binder,
            *env.bind_groups,
            indirect_buffer,
            FlushView { scope: self.scope, trackers: self.intermediate, raw: self.out.raw },
        ) {
            Flush::Gone => Step::Stuck,
            Flush::Done(after) => Step::Done(self.flushed(after)),
            Flush::Conflict(after, e) => self.flushed(after).fail_with(
                scope,
                ComputePassErrorInner::ResourceUsageConflict(e),
            ),
        }
    }

    /// The run with what flushing changed.
    pub open spec fn flushed(self, after: FlushView) -> Self {
        RunView { scope: after.scope, intermediate: after.trackers, ..self }.with_raw(after.raw)
    }

    /// Runs the pipeline on a grid that has to be within the limits.
    pub open spec fn dispatch(self, env: PassEnv, groups: [u32; 3]) -> Step {
        let scope = PassErrorScope::Dispatch { indirect: false, pipeline: self.pipeline };
        let limit = env.limits.max_compute_workgroups_per_dimension;
        match state::not_ready(self.binder, self.pipeline) {
            Some(fault) => self.fail(scope, fault),
            None => match self.flush(env, scope, None) {
                Step::Done(flushed) => if groups[0] > limit || groups[1] > limit || groups[2]
                    > limit {
                    flushed.fail_with(
                        scope,
                        ComputePassErrorInner::Dispatch(
                            DispatchError::InvalidGroupSize { current: groups, limit },
                        ),
                    )
                } else {
                    Step::Done(flushed.emit(RawView::Dispatch(groups)))
                },
                other => other,
            },
        }
    }

    /// Runs the pipeline on a grid whose size stands in a buffer. The device has to be able to do
    /// that; the buffer has to be made for it, to be used for nothing that excludes it, to be large
    /// enough and to be alive.
    pub open spec fn dispatch_indirect(
        self,
        env: PassEnv,
        buffer: Arc<Buffer>,
        offset: BufferAddress,
    ) -> Step {
        let scope = PassErrorScope::Dispatch { indirect: true, pipeline: self.pipeline };
        let end_offset = offset + DISPATCH_INDIRECT_ARGS_SIZE;
        match state::not_ready(self.binder, self.pipeline) {
            Some(fault) => self.fail(scope, fault),
            None => if !types::has_flags(env.downlevel_flags, INDIRECT_EXECUTION) {
                self.fail_with(
                    scope,
                    ComputePassErrorInner::MissingDownlevelFlags(
                        MissingDownlevelFlags(INDIRECT_EXECUTION),
                    ),
                )
            } else {
                match track::merge_use(
                    self.scope.buffers,
                    ResourceKind::Buffer,
                    ResourceUse {
                        index: buffer.tracker_index,
                        id: buffer.id.0,
                        uses: track::BUFFER_INDIRECT,
                    },
                ) {
                    Err(e) => self.fail_with(
                        scope,
                        ComputePassErrorInner::ResourceUsageConflict(e),
                    ),
                    Ok(buffers) => {
                        let merged = RunView {
                            scope: ScopeView { buffers, ..self.scope },
                            ..self
                        };
                        if !types::has_flags(buffer.usage, BUFFER_USAGE_INDIRECT) {
                            merged.fail_with(
                                scope,
                                ComputePassErrorInner::MissingBufferUsage(
                                    MissingBufferUsageError {
                                        id: buffer.id,
                                        actual: buffer.usage,
                                        expected: BUFFER_USAGE_INDIRECT,
                                    },
                                ),
                            )
                        } else if end_offset > u64::MAX {
                            Step::Stuck
                        } else if end_offset > buffer.size {
                            merged.fail_with(
                                scope,
                                ComputePassErrorInner::IndirectBufferOverrun {
                                    offset,
                                    end_offset: end_offset as u64,
                                    buffer_size: buffer.size,
                                },
                            )
                        } else {
                            match buffer.raw {
                                None => merged.fail_with(
                                    scope,
                                    ComputePassErrorInner::InvalidIndirectBuffer(buffer.id),
                                ),
                                Some(handle) => merged.dispatch_from(
                                    env,
                                    scope,
                                    buffer,
                                    handle,
                                    offset,
                                ),
                            }
                        }
                    },
                }
            },
        }
    }

    /// Runs the pipeline on a grid whose size stands in a buffer that can be used for this.
    pub open spec fn dispatch_from(
        self,
        env: PassEnv,
        scope: PassErrorScope,
        buffer: Arc<Buffer>,
        handle: RawHandle,
        offset: BufferAddress,
    ) -> Step {
        let read = RunView {
            out: RecordingView {
                buffer_inits: with_action(
                    self.out.buffer_inits,
                    memory_init::buffer_action_needed(
                        buffer,
                        InitRange {
                            start: offset,
                            end: (offset + DISPATCH_INDIRECT_ARGS_SIZE) as u64,
                        },
                        MemoryInitKind::NeedsInitializedMemory,
                    ),
                ),
                ..self.out
            },
            ..self
        };
        match read.flush(env, scope, Some(buffer.tracker_index)) {
            Step::Done(flushed) => Step::Done(
                flushed.emit(RawView::DispatchIndirect { buffer: handle, offset }),
            ),
            other => other,
        }
    }

    /// Takes the next label from the string data.
    pub open spec fn take_label(self, env: PassEnv, len: usize) -> Option<Seq<char>> {
        let end = self.string_offset + len;
        if env.discard_hal_labels || end > env.string_data@.len() {
            None
        } else {
            let bytes = env.string_data@.subrange(self.string_offset as int, end as int);
            if vstd::utf8::valid_utf8(bytes) {
                Some(vstd::utf8::decode_utf8(bytes))
            } else {
                None
            }
        }
    }

    /// Opens a debug group with a label, which the backend sees unless labels are discarded.
    pub open spec fn push_debug_group(self, env: PassEnv, len: usize) -> Step {
        let label = self.take_label(env, len);
        if self.debug_scope_depth == u32::MAX || self.string_offset + len > usize::MAX || (
        !env.discard_hal_labels && label is None) {
            Step::Stuck
        } else {
            let pushed = RunView {
                debug_scope_depth: (self.debug_scope_depth + 1) as u32,
                string_offset: self.string_offset + len as nat,
                ..self
            };
            Step::Done(
                if env.discard_hal_labels {
                    pushed
                } else {
                    pushed.emit(RawView::BeginDebugMarker(label->0))
                },
            )
        }
    }

    /// Closes a debug group, which has to be open.
    pub open spec fn pop_debug_group(self, env: PassEnv) -> Step {
        if self.debug_scope_depth == 0 {
            self.fail_with(
                PassErrorScope::PopDebugGroup,
                ComputePassErrorInner::InvalidPopDebugGroup,
            )
        } else {
            let popped = RunView {
                debug_scope_depth: (self.debug_scope_depth - 1) as u32,
                ..self
            };
            Step::Done(
                if env.discard_hal_labels {
                    popped
                } else {
                    popped.emit(RawView::EndDebugMarker)
                },
            )
        }
    }

    /// Leaves a label between two commands, which the backend sees unless labels are discarded.
    pub open spec fn insert_debug_marker(self, env: PassEnv, len: usize) -> Step {
        let label = self.take_label(env, len);
        if self.string_offset + len > usize::MAX || (!env.discard_hal_labels && label is None) {
            Step::Stuck
        } else {
            let marked = RunView { string_offset: self.string_offset + len as nat, ..self };
            Step::Done(
                if env.discard_hal_labels {
                    marked
                } else {
                    marked.emit(RawView::InsertDebugMarker(label->0))
                },
            )
        }
    }

    /// Keeps a query set alive.
    pub open spec fn track_query_set(self, id: QuerySetId) -> Self {
        RunView {
            out: RecordingView {
                trackers: TrackerView {
                    query_sets: track::insert_once(self.out.trackers.query_sets, id.0),
                    ..self.out.trackers
                },
                ..self.out
            },
            ..self
        }
    }

    /// Resets a query.
    pub open spec fn reset_query(self, query_set: RawHandle, index: u32) -> Self {
        self.emit(RawView::ResetQueries { query_set, start: index, end: (index + 1) as u32 })
    }

    /// Writes a timestamp, which the device has to be able to do inside a pass.
    pub open spec fn write_timestamp(
        self,
        env: PassEnv,
        query_set: Arc<QuerySet>,
        query_index: u32,
    ) -> Step {
        let scope = PassErrorScope::WriteTimestamp;
        if !types::has_features(env.features, TIMESTAMP_QUERY_INSIDE_PASSES) {
            self.fail_with(
                scope,
                ComputePassErrorInner::MissingFeatures(
                    MissingFeatures(TIMESTAMP_QUERY_INSIDE_PASSES),
                ),
            )
        } else {
            let held = self.track_query_set(query_set.id);
            match query_set.query_error(QueryType::Timestamp, query_index) {
                Some(e) => held.fail_with(scope, ComputePassErrorInner::QueryUse(e)),
                None => Step::Done(
                    held.reset_query(query_set.raw, query_index).emit(
                        RawView::WriteTimestamp { query_set: query_set.raw, index: query_index },
                    ),
                ),
            }
        }
    }

    /// Begins a pipeline statistics query, while no other one is active.
    pub open spec fn begin_query(self, query_set: Arc<QuerySet>, query_index: u32) -> Step {
        let scope = PassErrorScope::BeginPipelineStatisticsQuery;
        let held = self.track_query_set(query_set.id);
        match query_set.query_error(QueryType::PipelineStatistics, query_index) {
            Some(e) => held.fail_with(scope, ComputePassErrorInner::QueryUse(e)),
            None => {
                let active = RunView {
                    active_query: Some((query_set.id, query_index)),
                    ..held
                };
                match self.active_query {
                    Some((_, active_query_index)) => active.fail_with(
                        scope,
                        ComputePassErrorInner::QueryUse(
                            QueryUseError::AlreadyStarted {
                                active_query_index,
                                new_query_index: query_index,
                            },
                        ),
                    ),
                    None => Step::Done(
                        active.reset_query(query_set.raw, query_index).emit(
                            RawView::BeginQuery { query_set: query_set.raw, index: query_index },
                        ),
                    ),
                }
            },
        }
    }

    /// Ends the query that is active.
    pub open spec fn end_query(self, env: PassEnv) -> Step {
        match self.active_query {
            None => self.fail_with(
                PassErrorScope::EndPipelineStatisticsQuery,
                ComputePassErrorInner::QueryUse(QueryUseError::AlreadyStopped),
            ),
            Some((id, index)) => match env.query_sets.object(id.0) {
                None => Step::Stuck,
                Some(query_set) => Step::Done(
                    RunView { active_query: None, ..self }.emit(
                        RawView::EndQuery { query_set: query_set.raw, index },
                    ),
                ),
            },
        }
    }

    /// Executes a command.
    pub open spec fn step(self, env: PassEnv, command: ArcComputeCommand) -> Step {
        match command {
            ArcComputeCommand::SetBindGroup { index, num_dynamic_offsets, bind_group } => {
                self.set_bind_group(env, index, num_dynamic_offsets, bind_group)
            },
            ArcComputeCommand::SetPipeline(pipeline) => self.set_pipeline(pipeline),
            ArcComputeCommand::SetPushConstant { offset, size_bytes, values_offset } => {
                self.set_push_constant(env, offset, size_bytes, values_offset)
            },
            ArcComputeCommand::Dispatch(groups) => self.dispatch(env, groups),
            ArcComputeCommand::DispatchIndirect { buffer, offset } => {
                self.dispatch_indirect(env, buffer, offset)
            },
            ArcComputeCommand::PushDebugGroup { len, .. } => self.push_debug_group(env, len),
            ArcComputeCommand::PopDebugGroup => self.pop_debug_group(env),
            ArcComputeCommand::InsertDebugMarker { len, .. } => self.insert_debug_marker(env, len),
            ArcComputeCommand::WriteTimestamp { query_set, query_index } => {
                self.write_timestamp(env, query_set, query_index)
            },
            ArcComputeCommand::BeginPipelineStatisticsQuery { query_set, query_index } => {
                self.begin_query(query_set, query_index)
            },
            ArcComputeCommand::EndPipelineStatisticsQuery => self.end_query(env),
        }
    }

    /// Executes the first `n` of some commands, up to the first that fails.
    pub open spec fn steps(self, env: PassEnv, commands: Seq<ArcComputeCommand>, n: nat) -> Step
        decreases n,
    {
        if n == 0 {
            Step::Done(self)
        } else {
            match self.steps(env, commands, (n - 1) as nat) {
                Step::Done(before) => before.step(env, commands[n - 1]),
                other => other,
            }
        }
    }
}

/// A run that has ended does not go on.
pub proof fn ended_run_stays(
    start: RunView,
    env: PassEnv,
    commands: Seq<ArcComputeCommand>,
    n: nat,
    m: nat,
)
    requires
        n <= m,
        !(start.steps(env, commands, n) is Done),
    ensures
        start.steps(env, commands, m) == start.steps(env, commands, n),
    decreases m,
{
    if n < m {
        ended_run_stays(start, env, commands, n, (m - 1) as nat);
    }
}

/// A part of some words.
fn copy_words(words: &[u32], start: usize, end: usize) -> (r: Vec<u32>)
    requires
        start <= end <= words@.len(),
    ensures
        r@ == words@.subrange(start as int, end as int),
{
    let mut copy: Vec<u32> = Vec::new();
    copy.extend_from_slice(vstd::slice::slice_subrange(words, start, end));
    assert(copy@ =~= words@.subrange(start as int, end as int));
    copy
}

/// Declares `core::str::Utf8Error`, the error of `core::str::from_utf8`. Nothing is said of what is in
/// it.
#[verifier::external_type_specification]
#[verifier::external_body]
pub struct ExUtf8Error(core::str::Utf8Error);

/// `core::str::from_utf8` accepts exactly the byte sequences that are the UTF-8 encoding of a text,
/// and returns that text.
pub assume_specification[ core::str::from_utf8 ](v: &[u8]) -> (r: Result<
    &str,
    core::str::Utf8Error,
>)
    ensures
        r is Ok <==> vstd::utf8::valid_utf8(v@),
        r matches Ok(text) ==> vstd::utf8::encode_utf8(text@) == v@,
;

/// The text that some bytes encode.
fn read_label(string_data: &[u8], start: usize, end: usize) -> (r: String)
    requires
        start <= end <= string_data@.len(),
        vstd::utf8::valid_utf8(string_data@.subrange(start as int, end as int)),
    ensures
        r@ == vstd::utf8::decode_utf8(string_data@.subrange(start as int, end as int)),
{
    let bytes: &[u8] = vstd::slice::slice_subrange(string_data, start, end);
    match core::str::from_utf8(bytes) {
        Ok(text) => {
            proof {
                vstd::utf8::encode_utf8_decode_utf8(text@);
            }
            text.to_owned()
        },
        Err(_) => {
            assert(false);
            String::new()
        },
    }
}

fn failure(scope: PassErrorScope, inner: ComputePassErrorInner) -> (r: Result<
    (),
    ComputePassError,
>)
    ensures
        r == Err::<(), ComputePassError>(ComputePassError { scope, inner }),
{
    Err(ComputePassError { scope, inner })
}

proof fn lemma_rebind_gone_stays(
    raw: Seq<RawView>,
    layout: RawHandle,
    payloads: Seq<PayloadView>,
    start: int,
    n: nat,
    m: nat,
)
    requires
        n <= m,
        rebind(raw, layout, payloads, start, n).1 is Some,
    ensures
        rebind(raw, layout, payloads, start, m) == rebind(raw, layout, payloads, start, n),
    decreases m,
{
    if n < m {
        lemma_rebind_gone_stays(raw, layout, payloads, start, n, (m - 1) as nat);
    }
}

impl PassRecorder {
    /// The binder of the run is in order.
    pub open spec fn wf(self) -> bool {
        self.state.binder@.wf()
    }

    /// A run at its beginning.
    pub fn new() -> (r: Self)
        ensures
            r.wf(),
            forall|out: Recording|
                #[trigger] run_view(r, out) == (RunView {
                    binder: BinderView::empty(),
                    pipeline: None,
                    scope: ScopeView { buffers: Seq::empty(), textures: Seq::empty() },
                    debug_scope_depth: 0,
                    dynamic_offset_count: 0,
                    string_offset: 0,
                    active_query: None,
                    intermediate: TrackerView::empty(),
                    fixups: Seq::empty(),
                    out: out@,
                }),
    {
        let recorder = PassRecorder {
            state: State::new(),
            dynamic_offset_count: 0,
            string_offset: 0,
            active_query: None,
            intermediate_trackers: Tracker::new(),
            pending_discard_init_fixups: Vec::new(),
        };
        assert(recorder.state.scope@.buffers =~= Seq::empty());
        assert(recorder.state.scope@.textures =~= Seq::empty());
        recorder
    }

    /// Hands the slots `start..end` to the backend.
    fn rebind(
        &self,
        out: &mut Recording,
        scope: PassErrorScope,
        layout: RawHandle,
        start: usize,
        end: usize,
    ) -> (r: Result<(), ComputePassError>)
        requires
            self.wf(),
            start <= end <= MAX_BIND_GROUPS,
        ensures
            step_agrees(
                run_view(*self, *old(out)).rebind(scope, layout, start as int, end as int),
                run_view(*self, *final(out)),
                r,
            ),
    {
        let ghost raw = out.raw@;
        let ghost payloads = self.state.binder@.payloads;
        let ghost before = *out;
        let mut i: usize = 0;
        while i < end - start
            invariant
                self.wf(),
                start <= end <= MAX_BIND_GROUPS,
                i <= end - start,
                before == *old(out),
                payloads == self.state.binder@.payloads,
                raw == before.raw@,
                out.trackers == before.trackers,
                out.buffer_memory_init_actions == before.buffer_memory_init_actions,
                out.texture_memory_actions == before.texture_memory_actions,
                rebind(raw, layout, payloads, start as int, i as nat) == (out.raw@, None::<int>),
            decreases end - start - i,
        {
            let payload = &self.state.binder.payloads[start + i];
            assert(payload@ == payloads[start + i]);
            match &payload.group {
                Some(group) => match group.raw {
                    Some(handle) => {
                        out.raw.record(
                            RawCommand::SetBindGroup {
                                layout,
                                index: start as u32 + i as u32,
                                group: handle,
                                dynamic_offsets: crate::bind::copy_offsets(
                                    payload.dynamic_offsets.as_slice(),
                                ),
                            },
                        );
                    },
                    None => {
                        proof {
                            lemma_rebind_gone_stays(
                                raw,
                                layout,
                                payloads,
                                start as int,
                                (i + 1) as nat,
                                (end - start) as nat,
                            );
                        }
                        return failure(
                            scope,
                            ComputePassErrorInner::InvalidBindGroup(start as u32 + i as u32),
                        );
                    },
                },
                None => {},
            }
            i = i + 1;
        }
        Ok(())
    }

    fn set_bind_group(
        &mut self,
        out: &mut Recording,
        env: &PassEnv<'_>,
        index: u32,
        num_dynamic_offsets: usize,
        bind_group: &Arc<BindGroup>,
    ) -> (r: Result<(), ComputePassError>)
        requires
            old(self).wf(),
            !(run_view(*old(self), *old(out)).set_bind_group(
                *env,
                index,
                num_dynamic_offsets,
                *bind_group,
            ) is Stuck),
        ensures
            final(self).wf(),
            step_agrees(
                run_view(*old(self), *old(out)).set_bind_group(
                    *env,
                    index,
                    num_dynamic_offsets,
                    *bind_group,
                ),
                run_view(*final(self), *final(out)),
                r,
            ),
    {
        let ghost start = run_view(*self, *out);
        let scope: PassErrorScope = PassErrorScope::SetBindGroup(bind_group.id);
        if index >= env.limits.max_bind_groups {
            return failure(
                scope,
                ComputePassErrorInner::BindGroupIndexOutOfRange {
                    index,
                    max: env.limits.max_bind_groups,
                },
            );
        }
        assert(env.dynamic_offsets.len() == env.dynamic_offsets@.len());
        let end: usize = self.dynamic_offset_count + num_dynamic_offsets;
        let offsets: &[DynamicOffset] = vstd::slice::slice_subrange(
            env.dynamic_offsets,
            self.dynamic_offset_count,
            end,
        );
        self.dynamic_offset_count = end;
        out.trackers.bind_groups.insert_single(bind_group.id.0);
        match bind_group.validate_dynamic_bindings(index, offsets, &env.limits).map_pass_err(
            scope,
        ) {
            Ok(()) => {},
            Err(e) => {
                return Err(e);
            },
        }
        extend_buffer_actions(&mut out.buffer_memory_init_actions, &bind_group.used_buffer_ranges);
        out.texture_memory_actions.register_init_actions(
            &bind_group.used_texture_ranges,
            &mut self.pending_discard_init_fixups,
        );
        let layout: Option<RawHandle> = match &self.state.binder.pipeline_layout {
            Some(layout) => Some(layout.raw),
            None => None,
        };
        let rebind_end: usize = self.state.binder.assign_group(
            index as usize,
            bind_group,
            offsets,
        );
        match layout {
            Some(raw) => self.rebind(out, scope, raw, index as usize, rebind_end),
            None => Ok(()),
        }
    }

    fn set_pipeline(&mut self, out: &mut Recording, pipeline: &Arc<ComputePipeline>) -> (r: Result<
        (),
        ComputePassError,
    >)
        requires
            old(self).wf(),
            !(run_view(*old(self), *old(out)).set_pipeline(*pipeline) is Stuck),
        ensures
            final(self).wf(),
            step_agrees(
                run_view(*old(self), *old(out)).set_pipeline(*pipeline),
                run_view(*final(self), *final(out)),
                r,
            ),
    {
        let scope: PassErrorScope = PassErrorScope::SetPipelineCompute(pipeline.id);
        self.state.pipeline = Some(pipeline.id);
        out.trackers.compute_pipelines.insert_single(pipeline.id.0);
        out.raw.record(RawCommand::SetComputePipeline(pipeline.raw));
        let same_layout: bool = match &self.state.binder.pipeline_layout {
            Some(layout) => layout.id == pipeline.layout.id,
            None => false,
        };
        if same_layout {
            return Ok(());
        }
        let range: (usize, usize) = self.state.binder.change_pipeline_layout(
            &pipeline.layout,
            &pipeline.late_sized_buffer_groups,
        );
        match self.rebind(out, scope, pipeline.layout.raw, range.0, range.1) {
            Ok(()) => {},
            Err(e) => {
                return Err(e);
            },
        }
        let ranges: Vec<PushConstantRange> = compute_nonoverlapping_ranges(
            &pipeline.layout.push_constant_ranges,
        );
        let ghost bound = *out;
        let mut i: usize = 0;
        while i < ranges.len()
            invariant
                i <= ranges.len(),
                ranges@ == push_constant::nonoverlapping_ranges(
                    pipeline.layout.push_constant_ranges@,
                ),
                out.trackers == bound.trackers,
                out.buffer_memory_init_actions == bound.buffer_memory_init_actions,
                out.texture_memory_actions == bound.texture_memory_actions,
                out.raw@ == clear_ranges(bound.raw@, pipeline.layout.raw, ranges@, i as nat),
            decreases ranges.len() - i,
        {
            let range: PushConstantRange = ranges[i];
            proof {
                push_constant::lemma_nonoverlapping_range_not_empty(
                    pipeline.layout.push_constant_ranges@,
                    i as int,
                );
            }
            push_constant_clear(
                &mut out.raw,
                pipeline.layout.raw,
                range.start,
                range.end - range.start,
            );
            i = i + 1;
        }
        Ok(())
    }

    fn set_push_constant(
        &mut self,
        out: &mut Recording,
        env: &PassEnv<'_>,
        offset: u32,
        size_bytes: u32,
        values_offset: u32,
    ) -> (r: Result<(), ComputePassError>)
        requires
            old(self).wf(),
            !(run_view(*old(self), *old(out)).set_push_constant(
                *env,
                offset,
                size_bytes,
                values_offset,
            ) is Stuck),
        ensures
            final(self).wf(),
            step_agrees(
                run_view(*old(self), *old(out)).set_push_constant(
                    *env,
                    offset,
                    size_bytes,
                    values_offset,
                ),
                run_view(*final(self), *final(out)),
                r,
            ),
    {
        let scope: PassErrorScope = PassErrorScope::SetPushConstant;
        let end_offset: u32 = offset + size_bytes;
        let values_end: u32 = values_offset + size_bytes / PUSH_CONSTANT_ALIGNMENT;
        let data: Vec<u32> = copy_words(
            env.push_constant_data,
            values_offset as usize,
            values_end as usize,
        );
        match &self.state.binder.pipeline_layout {
            None => failure(
                scope,
                ComputePassErrorInner::Dispatch(DispatchError::MissingPipeline),
            ),
            Some(layout) => {
                match layout.validate_push_constant_ranges(
                    COMPUTE_STAGE,
                    offset,
                    end_offset,
                ).map_pass_err(scope) {
                    Ok(()) => {},
                    Err(e) => {
                        return Err(e);
                    },
                }
                out.raw.record(
                    RawCommand::SetPushConstants {
                        layout: layout.raw,
                        stages: COMPUTE_STAGE,
                        offset,
                        data,
                    },
                );
                Ok(())
            },
        }
    }

    fn check_ready(&self, scope: PassErrorScope) -> (r: Result<(), ComputePassError>)
        requires
            self.wf(),
        ensures
            match state::not_ready(self.state.binder@, self.state.pipeline) {
                None => r is Ok,
                Some(fault) => r matches Err(e) && e@ == (ErrorView { scope, fault }),
            },
    {
        self.state.is_ready().map_pass_err(scope)
    }

    fn flush(
        &mut self,
        out: &mut Recording,
        env: &PassEnv<'_>,
        scope: PassErrorScope,
        indirect_buffer: Option<TrackerIndex>,
    ) -> (r: Result<(), ComputePassError>)
        requires
            old(self).wf(),
            !(run_view(*old(self), *old(out)).flush(*env, scope, indirect_buffer) is Stuck),
        ensures
            final(self).wf(),
            step_agrees(
                run_view(*old(self), *old(out)).flush(*env, scope, indirect_buffer),
                run_view(*final(self), *final(out)),
                r,
            ),
    {
        self.state.flush_states(
            &mut out.raw,
            &mut self.intermediate_trackers,
            env.bind_groups,
            indirect_buffer,
        ).map_pass_err(scope)
    }

    fn dispatch(&mut self, out: &mut Recording, env: &PassEnv<'_>, groups: &[u32; 3]) -> (r: Result<
        (),
        ComputePassError,
    >)
        requires
            old(self).wf(),
            !(run_view(*old(self), *old(out)).dispatch(*env, *groups) is Stuck),
        ensures
            final(self).wf(),
            step_agrees(
                run_view(*old(self), *old(out)).dispatch(*env, *groups),
                run_view(*final(self), *final(out)),
                r,
            ),
    {
        let scope: PassErrorScope = PassErrorScope::Dispatch {
            indirect: false,
            pipeline: self.state.pipeline,
        };
        match self.check_ready(scope) {
            Ok(()) => {},
            Err(e) => {
                return Err(e);
            },
        }
        match self.flush(out, env, scope, None) {
            Ok(()) => {},
            Err(e) => {
                return Err(e);
            },
        }
        let limit: u32 = env.limits.max_compute_workgroups_per_dimension;
        if groups[0] > limit || groups[1] > limit || groups[2] > limit {
            return failure(
                scope,
                ComputePassErrorInner::Dispatch(
                    DispatchError::InvalidGroupSize { current: *groups, limit },
                ),
            );
        }
        out.raw.record(RawCommand::Dispatch(*groups));
        Ok(())
    }

    fn dispatch_indirect(
        &mut self,
        out: &mut Recording,
        env: &PassEnv<'_>,
        buffer: &Arc<Buffer>,
        offset: BufferAddress,
    ) -> (r: Result<(), ComputePassError>)
        requires
            old(self).wf(),
            !(run_view(*old(self), *old(out)).dispatch_indirect(*env, *buffer, offset) is Stuck),
        ensures
            final(self).wf(),
            step_agrees(
                run_view(*old(self), *old(out)).dispatch_indirect(*env, *buffer, offset),
                run_view(*final(self), *final(out)),
                r,
            ),
    {
        let scope: PassErrorScope = PassErrorScope::Dispatch {
            indirect: true,
            pipeline: self.state.pipeline,
        };
        match self.check_ready(scope) {
            Ok(()) => {},
            Err(e) => {
                return Err(e);
            },
        }
        if !contains_flags(env.downlevel_flags, INDIRECT_EXECUTION) {
            return failure(
                scope,
                ComputePassErrorInner::MissingDownlevelFlags(
                    MissingDownlevelFlags(INDIRECT_EXECUTION),
                ),
            );
        }
        match self.state.scope.insert_merge_buffer(
            ResourceUse {
                index: buffer.tracker_index,
                id: buffer.id.0,
                uses: track::BUFFER_INDIRECT,
            },
        ).map_pass_err(scope) {
            Ok(()) => {},
            Err(e) => {
                return Err(e);
            },
        }
        if !contains_flags(buffer.usage, BUFFER_USAGE_INDIRECT) {
            return failure(
                scope,
                ComputePassErrorInner::MissingBufferUsage(
                    MissingBufferUsageError {
                        id: buffer.id,
                        actual: buffer.usage,
                        expected: BUFFER_USAGE_INDIRECT,
                    },
                ),
            );
        }
        let end_offset: u64 = offset + DISPATCH_INDIRECT_ARGS_SIZE;
        if end_offset > buffer.size {
            return failure(
                scope,
                ComputePassErrorInner::IndirectBufferOverrun {
                    offset,
                    end_offset,
                    buffer_size: buffer.size,
                },
            );
        }
        let handle: RawHandle = match buffer.raw {
            Some(handle) => handle,
            None => {
                return failure(scope, ComputePassErrorInner::InvalidIndirectBuffer(buffer.id));
            },
        };
        match create_buffer_action(
            buffer,
            InitRange { start: offset, end: end_offset },
            MemoryInitKind::NeedsInitializedMemory,
        ) {
            Some(action) => {
                out.buffer_memory_init_actions.push(action);
            },
            None => {},
        }
        match self.flush(out, env, scope, Some(buffer.tracker_index)) {
            Ok(()) => {},
            Err(e) => {
                return Err(e);
            },
        }
        out.raw.record(RawCommand::DispatchIndirect { buffer: handle, offset });
        Ok(())
    }

    fn push_debug_group(&mut self, out: &mut Recording, env: &PassEnv<'_>, len: usize)
        requires
            old(self).wf(),
            !(run_view(*old(self), *old(out)).push_debug_group(*env, len) is Stuck),
        ensures
            final(self).wf(),
            Step::Done(run_view(*final(self), *final(out))) == run_view(
                *old(self),
                *old(out),
            ).push_debug_group(*env, len),
    {
        self.state.debug_scope_depth = self.state.debug_scope_depth + 1;
        if !env.discard_hal_labels {
            let label: String = read_label(
                env.string_data,
                self.string_offset,
                self.string_offset + len,
            );
            out.raw.record(RawCommand::BeginDebugMarker(label));
        }
        self.string_offset = self.string_offset + len;
    }

    fn pop_debug_group(&mut self, out: &mut Recording, env: &PassEnv<'_>) -> (r: Result<
        (),
        ComputePassError,
    >)
        requires
            old(self).wf(),
        ensures
            final(self).wf(),
            step_agrees(
                run_view(*old(self), *old(out)).pop_debug_group(*env),
                run_view(*final(self), *final(out)),
                r,
            ),
    {
        if self.state.debug_scope_depth == 0 {
            return failure(
                PassErrorScope::PopDebugGroup,
                ComputePassErrorInner::InvalidPopDebugGroup,
            );
        }
        self.state.debug_scope_depth = self.state.debug_scope_depth - 1;
        if !env.discard_hal_labels {
            out.raw.record(RawCommand::EndDebugMarker);
        }
        Ok(())
    }

    fn insert_debug_marker(&mut self, out: &mut Recording, env: &PassEnv<'_>, len: usize)
        requires
            old(self).wf(),
            !(run_view(*old(self), *old(out)).insert_debug_marker(*env, len) is Stuck),
        ensures
            final(self).wf(),
            Step::Done(run_view(*final(self), *final(out))) == run_view(
                *old(self),
                *old(out),
            ).insert_debug_marker(*env, len),
    {
        if !env.discard_hal_labels {
            let label: String = read_label(
                env.string_data,
                self.string_offset,
                self.string_offset + len,
            );
            out.raw.record(RawCommand::InsertDebugMarker(label));
        }
        self.string_offset = self.string_offset + len;
    }

    fn write_timestamp(
        &mut self,
        out: &mut Recording,
        env: &PassEnv<'_>,
        query_set: &Arc<QuerySet>,
        query_index: u32,
    ) -> (r: Result<(), ComputePassError>)
        requires
            old(self).wf(),
        ensures
            final(self).wf(),
            step_agrees(
                run_view(*old(self), *old(out)).write_timestamp(*env, *query_set, query_index),
                run_view(*final(self), *final(out)),
                r,
            ),
    {
        let scope: PassErrorScope = PassErrorScope::WriteTimestamp;
        if !contains_features(env.features, TIMESTAMP_QUERY_INSIDE_PASSES) {
            return failure(
                scope,
                ComputePassErrorInner::MissingFeatures(
                    MissingFeatures(TIMESTAMP_QUERY_INSIDE_PASSES),
                ),
            );
        }
        out.trackers.query_sets.insert_single(query_set.id.0);
        query_set.validate_and_write_timestamp(&mut out.raw, query_index).map_pass_err(scope)
    }

    fn begin_query(
        &mut self,
        out: &mut Recording,
        query_set: &Arc<QuerySet>,
        query_index: u32,
    ) -> (r: Result<(), ComputePassError>)
        requires
            old(self).wf(),
        ensures
            final(self).wf(),
            step_agrees(
                run_view(*old(self), *old(out)).begin_query(*query_set, query_index),
                run_view(*final(self), *final(out)),
                r,
            ),
    {
        let scope: PassErrorScope = PassErrorScope::BeginPipelineStatisticsQuery;
        out.trackers.query_sets.insert_single(query_set.id.0);
        query_set.validate_and_begin_pipeline_statistics_query(
            &mut out.raw,
            query_index,
            &mut self.active_query,
        ).map_pass_err(scope)
    }

    fn end_query(&mut self, out: &mut Recording, env: &PassEnv<'_>) -> (r: Result<
        (),
        ComputePassError,
    >)
        requires
            old(self).wf(),
            !(run_view(*old(self), *old(out)).end_query(*env) is Stuck),
        ensures
            final(self).wf(),
            step_agrees(
                run_view(*old(self), *old(out)).end_query(*env),
                run_view(*final(self), *final(out)),
                r,
            ),
    {
        match self.active_query {
            None => failure(
                PassErrorScope::EndPipelineStatisticsQuery,
                ComputePassErrorInner::QueryUse(QueryUseError::AlreadyStopped),
            ),
            Some((id, index)) => {
                match env.query_sets.get(id.0) {
                    Some(query_set) => {
                        self.active_query = None;
                        out.raw.record(RawCommand::EndQuery { query_set: query_set.raw, index });
                    },
                    None => {
                        assert(false);
                    },
                }
                Ok(())
            },
        }
    }

    /// Executes a command.
    pub fn step(&mut self, out: &mut Recording, env: &PassEnv<'_>, command: &ArcComputeCommand) -> (r:
        Result<(), ComputePassError>)
        requires
            old(self).wf(),
            !(run_view(*old(self), *old(out)).step(*env, *command) is Stuck),
        ensures
            final(self).wf(),
            step_agrees(
                run_view(*old(self), *old(out)).step(*env, *command),
                run_view(*final(self), *final(out)),
                r,
            ),
    {
        match command {
            ArcComputeCommand::SetBindGroup { index, num_dynamic_offsets, bind_group } => {
                self.set_bind_group(out, env, *index, *num_dynamic_offsets, bind_group)
            },
            ArcComputeCommand::SetPipeline(pipeline) => self.set_pipeline(out, pipeline),
            ArcComputeCommand::SetPushConstant { offset, size_bytes, values_offset } => {
                self.set_push_constant(out, env, *offset, *size_bytes, *values_offset)
            },
            ArcComputeCommand::Dispatch(groups) => self.dispatch(out, env, groups),
            ArcComputeCommand::DispatchIndirect { buffer, offset } => {
                self.dispatch_indirect(out, env, buffer, *offset)
            },
            ArcComputeCommand::PushDebugGroup { color: _, len } => {
                self.push_debug_group(out, env, *len);
                Ok(())
            },
            ArcComputeCommand::PopDebugGroup => self.pop_debug_group(out, env),
            ArcComputeCommand::InsertDebugMarker { color: _, len } => {
                self.insert_debug_marker(out, env, *len);
                Ok(())
            },
            ArcComputeCommand::WriteTimestamp { query_set, query_index } => {
                self.write_timestamp(out, env, query_set, *query_index)
            },
            ArcComputeCommand::BeginPipelineStatisticsQuery { query_set, query_index } => {
                self.begin_query(out, query_set, *query_index)
            },
            ArcComputeCommand::EndPipelineStatisticsQuery => self.end_query(out, env),
        }
    }

    /// Executes some commands, up to the first that fails.
    pub fn steps(&mut self, out: &mut Recording, env: &PassEnv<'_>, commands: &[ArcComputeCommand]) -> (r:
        Result<(), ComputePassError>)
        requires
            old(self).wf(),
            !(run_view(*old(self), *old(out)).steps(*env, commands@, commands@.len()) is Stuck),
        ensures
            final(self).wf(),
            step_agrees(
                run_view(*old(self), *old(out)).steps(*env, commands@, commands@.len()),
                run_view(*final(self), *final(out)),
                r,
            ),
    {
        let ghost start = run_view(*self, *out);
        let mut i: usize = 0;
        while i < commands.len()
            invariant
                i <= commands.len(),
                    self.wf(),
                start == run_view(*old(self), *old(out)),
                !(start.steps(*env, commands@, commands@.len()) is Stuck),
                start.steps(*env, commands@, i as nat) == Step::Done(run_view(*self, *out)),
            decreases commands.len() - i,
        {
            proof {
                if !(start.steps(*env, commands@, (i + 1) as nat) is Done) {
                    ended_run_stays(start, *env, commands@, (i + 1) as nat, commands@.len());
                }
            }
            match self.step(out, env, &commands[i]) {
                Ok(()) => {},
                Err(e) => {
                    return Err(e);
                },
            }
            i = i + 1;
        }
        Ok(())
    }
}

} // verus!
