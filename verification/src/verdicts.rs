//! Which commands succeed, and which error the others end with.
use crate::bind::BinderView;
use crate::command::ArcComputeCommand;
use crate::command_buffer;
use crate::error::{
    ComputePassErrorInner, DispatchError, Fault, MissingBufferUsageError, MissingDownlevelFlags,
    MissingFeatures, PassErrorScope,
};
use crate::id::CommandEncoderId;
use crate::init_tracker::{InitRange, MemoryInitKind};
use crate::memory_init;
use crate::pass::ComputePassTimestampWrites;
use crate::push_constant;
use crate::query::{QueryType, QueryUseError};
use crate::raw::RawView;
use crate::readiness;
use crate::resource::{Buffer, QuerySet};
use crate::run;
use crate::run::{PassEnv, RecordingView, RunView, Step};
use crate::state;
use crate::state::{Flush, FlushView};
use crate::track;
use crate::track::{ResourceKind, ResourceUse, ScopeView};
use crate::types::BufferAddress;
use crate::upload;
use crate::warrant;
use std::sync::Arc;
use vstd::prelude::*;

verus! {

/// What is bound fits the pipeline that is set, and all buffers are large enough for it.
pub open spec fn is_ready(s: RunView) -> bool {
    readiness::all_suited(s.binder) && s.pipeline is Some && readiness::all_large_enough(s.binder)
}

/// The slots are in order, and so are the numbers of late bindings that they count.
pub open spec fn is_sound(binder: BinderView) -> bool {
    &&& binder.wf()
    &&& forall|i: int| 0 <= i < 8 ==> (#[trigger] binder.payloads[i]).late_count <= usize::MAX
}

/// The fault says truly why the state is not ready.
pub open spec fn is_not_ready_because(s: RunView, fault: Fault) -> bool {
    match fault {
        Fault::IncompatibleBindGroup { index, .. } => {
            &&& index < 8
            &&& !readiness::is_suited(s.binder.slots[index as int])
        },
        Fault::Other(ComputePassErrorInner::Dispatch(DispatchError::MissingPipeline)) =>
            readiness::all_suited(s.binder) && s.pipeline is None,
        Fault::Other(ComputePassErrorInner::Dispatch(DispatchError::BindingSizeTooSmall(e))) => {
            &&& readiness::all_suited(s.binder)
            &&& s.pipeline is Some
            &&& e.group_index < 8
            &&& !readiness::is_large_enough(
                s.binder,
                e.group_index as int,
                e.compact_index as int,
            )
        },
        _ => false,
    }
}

/// How flushing the state ends.
pub open spec fn flush_of(s: RunView, env: PassEnv, indirect: Option<crate::id::TrackerIndex>) -> Flush {
    state::flush(
        s.binder,
        *env.bind_groups,
        indirect,
        FlushView { scope: s.scope, trackers: s.intermediate, raw: s.out.raw },
    )
}

/// A dispatch succeeds exactly where the state is ready, the uses of the groups do not conflict, and no
/// dimension of the grid exceeds the limit. Each error says truly why it does not.
pub proof fn verdict_on_dispatch(s: RunView, env: PassEnv, groups: [u32; 3])
    requires
        is_sound(s.binder),
    ensures
        ({
            let limit = env.limits.max_compute_workgroups_per_dimension;
            let fits = groups[0] <= limit && groups[1] <= limit && groups[2] <= limit;
            match s.dispatch(env, groups) {
                Step::Done(t) => {
                    &&& is_ready(s)
                    &&& fits
                    &&& flush_of(s, env, None) matches Flush::Done(after) && t.out.raw
                        == after.raw.push(RawView::Dispatch(groups)) && t.scope == after.scope
                        && t.intermediate == after.trackers
                    &&& t.binder == s.binder
                    &&& t.pipeline == s.pipeline
                    &&& t.out.buffer_inits == s.out.buffer_inits
                },
                Step::Failed(_, e) => {
                    &&& e.scope == (PassErrorScope::Dispatch {
                        indirect: false,
                        pipeline: s.pipeline,
                    })
                    &&& match e.fault {
                        Fault::Other(ComputePassErrorInner::ResourceUsageConflict(c)) => is_ready(s)
                            && (flush_of(s, env, None) matches Flush::Conflict(_, d) && c == d),
                        Fault::Other(
                            ComputePassErrorInner::Dispatch(
                                DispatchError::InvalidGroupSize { current, limit: allowed },
                            ),
                        ) => is_ready(s) && flush_of(s, env, None) is Done && !fits && current
                            == groups && allowed == limit,
                        fault => is_not_ready_because(s, fault) && state::not_ready(
                            s.binder,
                            s.pipeline,
                        ) == Some(fault),
                    }
                },
                Step::Stuck => is_ready(s) && flush_of(s, env, None) is Gone,
            }
        }),
{
    readiness::dispatch_is_possible_where_ready(s.binder, s.pipeline);
}

/// The scope with the use of the buffer that holds the arguments of a dispatch, or the conflict.
pub open spec fn with_arguments(s: RunView, buffer: Arc<Buffer>) -> Result<RunView, track::UsageConflict> {
    match track::merge_use(
        s.scope.buffers,
        ResourceKind::Buffer,
        ResourceUse { index: buffer.tracker_index, id: buffer.id.0, uses: 0x200 },
    ) {
        Ok(buffers) => Ok(RunView { scope: ScopeView { buffers, ..s.scope }, ..s }),
        Err(e) => Err(e),
    }
}

/// An indirect dispatch succeeds exactly where the state is ready, the device can do it, the buffer is not
/// used in a way that excludes it, was made for it whatever else it was made for, holds three words from the
/// offset on, and is alive, and the uses of the groups do not conflict. Each error says truly why it does not.
pub proof fn verdict_on_indirect_dispatch(
    s: RunView,
    env: PassEnv,
    buffer: Arc<Buffer>,
    offset: BufferAddress,
)
    requires
        is_sound(s.binder),
    ensures
        ({
            let able = env.downlevel_flags & 4 != 0;
            let made = buffer.usage & 0x100 != 0;
            let slot = Some(buffer.tracker_index);
            match s.dispatch_indirect(env, buffer, offset) {
                Step::Done(t) => {
                    &&& is_ready(s)
                    &&& able
                    &&& made
                    &&& offset + 12 <= buffer.size
                    &&& with_arguments(s, buffer) matches Ok(merged) && (flush_of(
                        merged,
                        env,
                        slot,
                    ) matches Flush::Done(after) && (buffer.raw matches Some(handle) && t.out.raw
                        == after.raw.push(
                        RawView::DispatchIndirect { buffer: handle, offset },
                    )) && t.scope == after.scope && t.intermediate == after.trackers)
                    &&& t.binder == s.binder
                    &&& t.pipeline == s.pipeline
                },
                Step::Failed(_, e) => {
                    &&& e.scope == (PassErrorScope::Dispatch {
                        indirect: true,
                        pipeline: s.pipeline,
                    })
                    &&& match e.fault {
                        Fault::Other(ComputePassErrorInner::MissingDownlevelFlags(missing)) =>
                            is_ready(s) && !able && missing == MissingDownlevelFlags(4),
                        Fault::Other(ComputePassErrorInner::MissingBufferUsage(missing)) => {
                            &&& is_ready(s)
                            &&& able
                            &&& with_arguments(s, buffer) is Ok
                            &&& !made
                            &&& missing == (MissingBufferUsageError {
                                id: buffer.id,
                                actual: buffer.usage,
                                expected: 0x100,
                            })
                        },
                        Fault::Other(
                            ComputePassErrorInner::IndirectBufferOverrun {
                                offset: from,
                                end_offset,
                                buffer_size,
                            },
                        ) => {
                            &&& is_ready(s)
                            &&& able
                            &&& made
                            &&& with_arguments(s, buffer) is Ok
                            &&& from == offset
                            &&& end_offset == offset + 12
                            &&& buffer_size == buffer.size
                            &&& buffer.size < offset + 12
                        },
                        Fault::Other(ComputePassErrorInner::InvalidIndirectBuffer(id)) => {
                            &&& is_ready(s)
                            &&& able
                            &&& made
                            &&& with_arguments(s, buffer) is Ok
                            &&& offset + 12 <= buffer.size
                            &&& id == buffer.id
                            &&& buffer.raw is None
                        },
                        Fault::Other(ComputePassErrorInner::ResourceUsageConflict(c)) => {
                            &&& is_ready(s)
                            &&& able
                            &&& match with_arguments(s, buffer) {
                                Err(d) => c == d,
                                Ok(merged) => {
                                    &&& made
                                    &&& offset + 12 <= buffer.size
                                    &&& buffer.raw is Some
                                    &&& flush_of(merged, env, slot) matches Flush::Conflict(_, d)
                                        && c == d
                                },
                            }
                        },
                        fault => is_not_ready_because(s, fault) && state::not_ready(
                            s.binder,
                            s.pipeline,
                        ) == Some(fault),
                    }
                },
                Step::Stuck => is_ready(s) && able && made && (offset + 12 > u64::MAX || (
                with_arguments(s, buffer) matches Ok(merged) && flush_of(
                    merged,
                    env,
                    slot,
                ) is Gone)),
            }
        }),
{
    readiness::dispatch_is_possible_where_ready(s.binder, s.pipeline);
    let flags = env.downlevel_flags;
    let usage = buffer.usage;
    assert((flags & 4u32 == 4u32) == (flags & 4u32 != 0) && (usage & 0x100u32 == 0x100u32) == (usage
        & 0x100u32 != 0)) by (bit_vector);
    if let Ok(merged) = with_arguments(s, buffer) {
        let read = RunView {
            out: RecordingView {
                buffer_inits: run::with_action(
                    merged.out.buffer_inits,
                    memory_init::buffer_action_needed(
                        buffer,
                        InitRange { start: offset, end: (offset + 12) as u64 },
                        MemoryInitKind::NeedsInitializedMemory,
                    ),
                ),
                ..merged.out
            },
            ..merged
        };
        assert(flush_of(read, env, Some(buffer.tracker_index)) == flush_of(
            merged,
            env,
            Some(buffer.tracker_index),
        ));
    }
}

/// Push constants are set exactly where the layout of a pipeline is in force that accepts the write; the
/// backend then gets the recorded words, at the offset that was asked for.
pub proof fn verdict_on_push_constants(
    s: RunView,
    env: PassEnv,
    offset: u32,
    size_bytes: u32,
    values_offset: u32,
)
    ensures
        ({
            let end = offset + size_bytes;
            let values_end = values_offset + size_bytes / 4;
            match s.set_push_constant(env, offset, size_bytes, values_offset) {
                Step::Done(t) => s.binder.layout matches Some(layout) && {
                    let ranges = layout.push_constant_ranges@;
                    &&& offset as int % 4 == 0
                    &&& forall|i: int|
                        0 <= i < ranges.len() ==> upload::agrees(
                            #[trigger] ranges[i],
                            4,
                            offset,
                            end as u32,
                        )
                    &&& upload::is_provided(ranges, 4, 4)
                    &&& t == s.emit(
                        RawView::SetPushConstants {
                            layout: layout.raw,
                            stages: 4,
                            offset,
                            data: env.push_constant_data@.subrange(
                                values_offset as int,
                                values_end,
                            ),
                        },
                    )
                },
                Step::Failed(t, e) => {
                    &&& t == s
                    &&& e.scope == PassErrorScope::SetPushConstant
                    &&& match e.fault {
                        Fault::Other(
                            ComputePassErrorInner::Dispatch(DispatchError::MissingPipeline),
                        ) => s.binder.layout is None,
                        Fault::Other(ComputePassErrorInner::PushConstants(e)) => {
                            s.binder.layout matches Some(layout) && upload::is_accurate(
                                e,
                                layout.push_constant_ranges@,
                                4,
                                offset,
                                end as u32,
                            )
                        },
                        _ => false,
                    }
                },
                Step::Stuck => end > u32::MAX || values_end > u32::MAX || values_end
                    > env.push_constant_data@.len(),
            }
        }),
{
    if let Some(layout) = s.binder.layout {
        let ranges = layout.push_constant_ranges@;
        let end = offset + size_bytes;
        assert(ranges.len() == layout.push_constant_ranges.len());
        upload::fitting_writes_are_accepted(ranges, 4, offset, end as u32);
        assert(4u32 & 4u32 != 0) by (bit_vector);
        if push_constant::push_constant_error(ranges, 4, offset, end as u32) is None {
            assert(upload::is_provided(ranges, 4, 4));
        }
    }
}

/// A debug group can be closed exactly where one is open, and opening and closing undo each other.
pub proof fn verdict_on_debug_groups(s: RunView, env: PassEnv, len: usize)
    ensures
        match s.pop_debug_group(env) {
            Step::Done(t) => s.debug_scope_depth > 0 && t.debug_scope_depth == s.debug_scope_depth
                - 1 && t.out.raw == if env.discard_hal_labels {
                s.out.raw
            } else {
                s.out.raw.push(RawView::EndDebugMarker)
            },
            Step::Failed(t, e) => s.debug_scope_depth == 0 && t == s && e.scope
                == PassErrorScope::PopDebugGroup && e.fault == Fault::Other(
                ComputePassErrorInner::InvalidPopDebugGroup,
            ),
            Step::Stuck => false,
        },
        s.push_debug_group(env, len) matches Step::Done(t) ==> {
            &&& t.debug_scope_depth == s.debug_scope_depth + 1
            &&& t.pop_debug_group(env) matches Step::Done(u) && u.debug_scope_depth
                == s.debug_scope_depth
            &&& t.string_offset == s.string_offset + len
        },
        s.insert_debug_marker(env, len) matches Step::Done(t) ==> t.debug_scope_depth
            == s.debug_scope_depth && t.string_offset == s.string_offset + len,
        !(s.push_debug_group(env, len) is Failed),
        !(s.insert_debug_marker(env, len) is Failed),
{
}

/// A timestamp is written exactly where the device can do so inside a pass, the set is one of timestamps and
/// has the query; the query is reset first.
pub proof fn verdict_on_timestamps(
    s: RunView,
    env: PassEnv,
    query_set: Arc<QuerySet>,
    query_index: u32,
)
    ensures
        ({
            let able = env.features & 0x2_0000_0000 != 0;
            match s.write_timestamp(env, query_set, query_index) {
                Step::Done(t) => {
                    &&& able
                    &&& query_set.ty == QueryType::Timestamp
                    &&& query_index < query_set.count
                    &&& t.out.raw == s.out.raw.push(
                        RawView::ResetQueries {
                            query_set: query_set.raw,
                            start: query_index,
                            end: (query_index + 1) as u32,
                        },
                    ).push(
                        RawView::WriteTimestamp { query_set: query_set.raw, index: query_index },
                    )
                    &&& t.active_query == s.active_query
                },
                Step::Failed(t, e) => {
                    &&& e.scope == PassErrorScope::WriteTimestamp
                    &&& t.out.raw == s.out.raw
                    &&& match e.fault {
                        Fault::Other(ComputePassErrorInner::MissingFeatures(missing)) => !able
                            && missing == MissingFeatures(0x2_0000_0000),
                        Fault::Other(ComputePassErrorInner::QueryUse(e)) => able && is_query_fault(
                            e,
                            query_set,
                            QueryType::Timestamp,
                            query_index,
                        ),
                        _ => false,
                    }
                },
                Step::Stuck => false,
            }
        }),
{
    let features = env.features;
    assert((features & 0x2_0000_0000u64 == 0x2_0000_0000u64) == (features & 0x2_0000_0000u64 != 0))
        by (bit_vector);
}

/// The error says truly why a query of a set cannot be used.
pub open spec fn is_query_fault(
    e: QueryUseError,
    query_set: Arc<QuerySet>,
    wanted: QueryType,
    index: u32,
) -> bool {
    match e {
        QueryUseError::IncompatibleType { set_type, query_type } => set_type == query_set.ty
            && query_type == wanted && query_set.ty != wanted,
        QueryUseError::OutOfBounds { query_index, query_set_size } => query_set.ty == wanted
            && query_index == index && query_set_size == query_set.count && query_set.count
            <= index,
        _ => false,
    }
}

/// A statistics query is begun exactly where the set is one of statistics, has the query, and no other one is
/// active; it is ended exactly where one is.
pub proof fn verdict_on_queries(
    s: RunView,
    env: PassEnv,
    query_set: Arc<QuerySet>,
    query_index: u32,
)
    ensures
        match s.begin_query(query_set, query_index) {
            Step::Done(t) => {
                &&& query_set.ty == QueryType::PipelineStatistics
                &&& query_index < query_set.count
                &&& s.active_query is None
                &&& t.active_query == Some((query_set.id, query_index))
                &&& t.out.raw == s.out.raw.push(
                    RawView::ResetQueries {
                        query_set: query_set.raw,
                        start: query_index,
                        end: (query_index + 1) as u32,
                    },
                ).push(RawView::BeginQuery { query_set: query_set.raw, index: query_index })
            },
            Step::Failed(t, e) => {
                &&& e.scope == PassErrorScope::BeginPipelineStatisticsQuery
                &&& t.out.raw == s.out.raw
                &&& match e.fault {
                    Fault::Other(
                        ComputePassErrorInner::QueryUse(
                            QueryUseError::AlreadyStarted { active_query_index, new_query_index },
                        ),
                    ) => {
                        &&& query_set.ty == QueryType::PipelineStatistics
                        &&& query_index < query_set.count
                        &&& s.active_query matches Some((_, active)) && active
                            == active_query_index
                        &&& new_query_index == query_index
                    },
                    Fault::Other(ComputePassErrorInner::QueryUse(e)) => is_query_fault(
                        e,
                        query_set,
                        QueryType::PipelineStatistics,
                        query_index,
                    ),
                    _ => false,
                }
            },
            Step::Stuck => false,
        },
        match s.end_query(env) {
            Step::Done(t) => s.active_query matches Some((id, index)) && (env.query_sets.object(
                id.0,
            ) matches Some(active) && t.out.raw == s.out.raw.push(
                RawView::EndQuery { query_set: active.raw, index },
            ) && t.active_query is None),
            Step::Failed(t, e) => s.active_query is None && t == s && e.scope
                == PassErrorScope::EndPipelineStatisticsQuery && e.fault == Fault::Other(
                ComputePassErrorInner::QueryUse(QueryUseError::AlreadyStopped),
            ),
            Step::Stuck => s.active_query matches Some((id, _)) && env.query_sets.object(id.0)
                is None,
        },
{
}

/// A pass is begun by one call, which carries its label unless labels are discarded, and its timestamp
/// writes. Where it writes timestamps, both their queries are reset before, and no query outside of them and
/// what lies between them.
pub proof fn verdict_on_the_beginning(
    s: RunView,
    env: PassEnv,
    encoder_id: CommandEncoderId,
    label: Option<Seq<char>>,
    writes: Option<ComputePassTimestampWrites>,
)
    ensures
        match command_buffer::begin_pass(s, env, encoder_id, label, writes) {
            Step::Done(t) => {
                &&& t.out.raw.len() > s.out.raw.len()
                &&& warrant::extends(s.out.raw, t.out.raw)
                &&& t.out.raw.last() matches RawView::BeginComputePass {
                    label: seen,
                    timestamp_writes,
                } && {
                    &&& seen == if env.discard_hal_labels {
                        None
                    } else {
                        label
                    }
                    &&& match writes {
                        None => timestamp_writes is None && t.out.raw.len() == s.out.raw.len() + 1,
                        Some(asked) => {
                            &&& env.query_sets.object(asked.query_set.0) matches Some(set) && (
                            timestamp_writes matches Some(told) && {
                                &&& told.query_set == set.raw
                                &&& told.beginning_of_pass_write_index
                                    == asked.beginning_of_pass_write_index
                                &&& told.end_of_pass_write_index == asked.end_of_pass_write_index
                                &&& is_reset(
                                    s.out.raw.len(),
                                    t.out.raw,
                                    set.raw,
                                    asked.beginning_of_pass_write_index,
                                    asked.end_of_pass_write_index,
                                )
                            })
                        },
                    }
                }
                &&& t.binder == s.binder
                &&& t.pipeline == s.pipeline
                &&& t.scope == s.scope
            },
            Step::Failed(t, e) => {
                &&& t == s
                &&& e.scope == PassErrorScope::Pass(encoder_id)
                &&& writes matches Some(asked) && env.query_sets.object(asked.query_set.0) is None
                    && e.fault == Fault::Other(
                    ComputePassErrorInner::InvalidQuerySet(asked.query_set),
                )
            },
            Step::Stuck => writes matches Some(asked) && (asked.beginning_of_pass_write_index
                == Some(u32::MAX) || asked.end_of_pass_write_index == Some(u32::MAX)),
        },
{
}

/// Where one of two queries is used, one call resets the queries from the smaller of those that are used to
/// the larger; where none is, there is no such call.
pub open spec fn is_reset(
    from: nat,
    calls: Seq<RawView>,
    query_set: crate::id::RawHandle,
    one: Option<u32>,
    other: Option<u32>,
) -> bool {
    if one is None && other is None {
        calls.len() == from + 1
    } else {
        &&& calls.len() == from + 2
        &&& calls[from as int] matches RawView::ResetQueries { query_set: set, start, end } && {
            &&& set == query_set
            &&& Some(start) == one || Some(start) == other
            &&& Some((end - 1) as u32) == one || Some((end - 1) as u32) == other
            &&& 0 < end
            &&& one matches Some(index) ==> start <= index && index < end
            &&& other matches Some(index) ==> start <= index && index < end
        }
    }
}

/// What a command is not about stays as it is: only binding and setting a pipeline change the slots, only
/// dispatches change the uses, only debug groups their depth, only queries which one is active, and only
/// binding takes dynamic offsets or settles the memory of textures.
pub proof fn commands_keep_to_their_business(s: RunView, env: PassEnv, command: ArcComputeCommand)
    ensures
        s.step(env, command) matches Step::Done(t) ==> {
            let binds = command is SetBindGroup;
            let sets = command is SetPipeline;
            let dispatches = command is Dispatch || command is DispatchIndirect;
            let queries = command is BeginPipelineStatisticsQuery
                || command is EndPipelineStatisticsQuery;
            &&& !binds && !sets ==> t.binder == s.binder
            &&& !sets ==> t.pipeline == s.pipeline
            &&& !dispatches ==> t.scope == s.scope && t.intermediate == s.intermediate
            &&& !(command is PushDebugGroup) && !(command is PopDebugGroup) ==> t.debug_scope_depth
                == s.debug_scope_depth
            &&& !(command is PushDebugGroup) && !(command is InsertDebugMarker) ==> t.string_offset
                == s.string_offset
            &&& !queries ==> t.active_query == s.active_query
            &&& !binds ==> t.dynamic_offset_count == s.dynamic_offset_count && t.fixups == s.fixups
                && t.out.texture_memory == s.out.texture_memory
            &&& !binds && !(command is DispatchIndirect) ==> t.out.buffer_inits
                == s.out.buffer_inits
            &&& !binds ==> t.out.trackers.bind_groups == s.out.trackers.bind_groups
            &&& !sets ==> t.out.trackers.compute_pipelines == s.out.trackers.compute_pipelines
            &&& !(command is WriteTimestamp) && !(command is BeginPipelineStatisticsQuery)
                ==> t.out.trackers.query_sets == s.out.trackers.query_sets
            &&& t.out.trackers.buffers == s.out.trackers.buffers
            &&& t.out.trackers.textures == s.out.trackers.textures
        },
{
}

/// A command that fails leaves almost everything as it was. It changes the slots only where it was to hand them over,
/// and takes from the streams only the dynamic offsets that belong to it. The backend has been told of nothing,
/// except of the slots that were handed over before one of them could not be, and of the transitions for a dispatch
/// whose grid is too large. A query that is begun while another one is active takes its place.
pub proof fn failed_commands_leave_little(s: RunView, env: PassEnv, command: ArcComputeCommand)
    ensures
        s.step(env, command) matches Step::Failed(t, e) ==> {
            let binds = command is SetBindGroup;
            let sets = command is SetPipeline;
            let indirect = command is DispatchIndirect;
            let queries = command is WriteTimestamp || command is BeginPipelineStatisticsQuery;
            &&& !binds && !sets ==> t.binder == s.binder
            &&& !sets ==> t.pipeline == s.pipeline
            &&& !sets ==> t.out.trackers.compute_pipelines == s.out.trackers.compute_pipelines
            &&& !binds ==> t.out.trackers.bind_groups == s.out.trackers.bind_groups
            &&& !queries ==> t.out.trackers.query_sets == s.out.trackers.query_sets
            &&& t.out.trackers.buffers == s.out.trackers.buffers
            &&& t.out.trackers.textures == s.out.trackers.textures
            &&& !binds ==> t.dynamic_offset_count == s.dynamic_offset_count && t.fixups == s.fixups
                && t.out.texture_memory == s.out.texture_memory
            &&& !binds && !indirect ==> t.out.buffer_inits == s.out.buffer_inits
            &&& t.debug_scope_depth == s.debug_scope_depth
            &&& t.string_offset == s.string_offset
            &&& t.active_query == match (command, e.fault) {
                (
                    ArcComputeCommand::BeginPipelineStatisticsQuery { query_set, query_index },
                    Fault::Other(
                        ComputePassErrorInner::QueryUse(QueryUseError::AlreadyStarted { .. }),
                    ),
                ) => Some((query_set.id, query_index)),
                _ => s.active_query,
            }
            &&& match command {
                ArcComputeCommand::SetBindGroup { .. } => true,
                ArcComputeCommand::SetPipeline(_) => true,
                ArcComputeCommand::Dispatch(_) => match e.fault {
                    Fault::Other(
                        ComputePassErrorInner::Dispatch(DispatchError::InvalidGroupSize { .. }),
                    ) => flush_of(s, env, None) matches Flush::Done(after) && t.out.raw == after.raw
                        && t.scope == after.scope && t.intermediate == after.trackers,
                    _ => t.out.raw == s.out.raw && t.intermediate == s.intermediate,
                },
                _ => t.out.raw == s.out.raw && t.intermediate == s.intermediate,
            }
        },
{
}

} // verus!
