//! Every call that a run makes on the backend is warranted by a command of the pass.
use crate::bind::PayloadView;
use crate::command::ArcComputeCommand;
use crate::error::PassErrorScope;
use crate::id::{RawHandle, TrackerIndex};
use crate::init_tracker::{InitRange, MemoryInitKind};
use crate::memory_init;
use crate::push_constant;
use crate::query::QueryType;
use crate::raw::RawView;
use crate::resource::{BindGroup, Buffer};
use crate::run;
use crate::run::{PassEnv, RecordingView, RunView, Step};
use crate::state;
use crate::state::{FlushView, Merge};
use crate::storage::Storage;
use crate::track;
use crate::track::{ResourceKind, ResourceUse, ScopeView};
use crate::types;
use crate::types::{
    BUFFER_USAGE_INDIRECT, COMPUTE_STAGE, DISPATCH_INDIRECT_ARGS_SIZE, INDIRECT_EXECUTION,
    PUSH_CONSTANT_ALIGNMENT, TIMESTAMP_QUERY_INSIDE_PASSES,
};
use std::sync::Arc;
use vstd::prelude::*;

verus! {

/// The call only moves resources from one use to another.
pub open spec fn is_transition(call: RawView) -> bool {
    call is TransitionBuffers || call is TransitionTextures
}

/// The call clears push constants.
pub open spec fn is_clear(layout: RawHandle, call: RawView) -> bool {
    match call {
        RawView::SetPushConstants { layout: used, stages, data, .. } => {
            &&& used == layout
            &&& stages == COMPUTE_STAGE
            &&& forall|i: int| 0 <= i < data.len() ==> data[i] == 0
        },
        _ => false,
    }
}

/// The command gives reason to make the call.
///
/// A dispatch is within the limits of the device. An indirect dispatch reads from a buffer that is
/// alive, was made for this and is large enough, on a device that is able to do it. A timestamp goes
/// into a query that exists, on a device that can write timestamps inside a pass. Labels are seen
/// only where they are not to be discarded.
pub open spec fn warrants(env: PassEnv, command: ArcComputeCommand, call: RawView) -> bool {
    match command {
        ArcComputeCommand::SetBindGroup { .. } => call is SetBindGroup,
        ArcComputeCommand::SetPipeline(pipeline) => {
            ||| call == RawView::SetComputePipeline(pipeline.raw)
            ||| call is SetBindGroup
            ||| is_clear(pipeline.layout.raw, call)
        },
        ArcComputeCommand::SetPushConstant { offset, size_bytes, values_offset } => {
            call matches RawView::SetPushConstants { stages, offset: used, data, .. } && {
                &&& stages == COMPUTE_STAGE
                &&& used == offset
                &&& data == env.push_constant_data@.subrange(
                    values_offset as int,
                    values_offset + size_bytes / PUSH_CONSTANT_ALIGNMENT,
                )
            }
        },
        ArcComputeCommand::Dispatch(groups) => is_transition(call) || {
            let limit = env.limits.max_compute_workgroups_per_dimension;
            &&& call == RawView::Dispatch(groups)
            &&& groups[0] <= limit
            &&& groups[1] <= limit
            &&& groups[2] <= limit
        },
        ArcComputeCommand::DispatchIndirect { buffer, offset } => is_transition(call) || {
            &&& call matches RawView::DispatchIndirect { buffer: handle, offset: used }
            &&& buffer.raw == Some(handle)
            &&& used == offset
            &&& offset + DISPATCH_INDIRECT_ARGS_SIZE <= buffer.size
            &&& types::has_flags(buffer.usage, BUFFER_USAGE_INDIRECT)
            &&& types::has_flags(env.downlevel_flags, INDIRECT_EXECUTION)
        },
        ArcComputeCommand::PushDebugGroup { .. } => !env.discard_hal_labels
            && call is BeginDebugMarker,
        ArcComputeCommand::PopDebugGroup => !env.discard_hal_labels && call is EndDebugMarker,
        ArcComputeCommand::InsertDebugMarker { .. } => !env.discard_hal_labels
            && call is InsertDebugMarker,
        ArcComputeCommand::WriteTimestamp { query_set, query_index } => {
            &&& query_set.ty == QueryType::Timestamp
            &&& query_index < query_set.count
            &&& types::has_features(env.features, TIMESTAMP_QUERY_INSIDE_PASSES)
            &&& {
                ||| call == (RawView::ResetQueries {
                    query_set: query_set.raw,
                    start: query_index,
                    end: (query_index + 1) as u32,
                })
                ||| call == (RawView::WriteTimestamp {
                    query_set: query_set.raw,
                    index: query_index,
                })
            }
        },
        ArcComputeCommand::BeginPipelineStatisticsQuery { query_set, query_index } => {
            &&& query_set.ty == QueryType::PipelineStatistics
            &&& query_index < query_set.count
            &&& {
                ||| call == (RawView::ResetQueries {
                    query_set: query_set.raw,
                    start: query_index,
                    end: (query_index + 1) as u32,
                })
                ||| call == (RawView::BeginQuery {
                    query_set: query_set.raw,
                    index: query_index,
                })
            }
        },
        ArcComputeCommand::EndPipelineStatisticsQuery => call is EndQuery,
    }
}

/// The calls `after` go on where the calls `before` end.
pub open spec fn extends(before: Seq<RawView>, after: Seq<RawView>) -> bool {
    &&& before.len() <= after.len()
    &&& forall|p: int| 0 <= p < before.len() ==> #[trigger] after[p] == before[p]
}

/// The state that a step leads to, if it leads to one.
pub open spec fn reached(step: Step) -> Option<RunView> {
    match step {
        Step::Done(after) => Some(after),
        Step::Failed(after, _) => Some(after),
        Step::Stuck => None,
    }
}

pub(crate) proof fn lemma_rebind_calls(
    raw: Seq<RawView>,
    layout: RawHandle,
    payloads: Seq<PayloadView>,
    start: int,
    n: nat,
)
    ensures
        extends(raw, run::rebind(raw, layout, payloads, start, n).0),
        forall|p: int|
            raw.len() <= p < run::rebind(raw, layout, payloads, start, n).0.len() ==> (
            #[trigger] run::rebind(raw, layout, payloads, start, n).0[p]) is SetBindGroup,
    decreases n,
{
    if n > 0 {
        lemma_rebind_calls(raw, layout, payloads, start, (n - 1) as nat);
    }
}

pub(crate) proof fn lemma_clear_calls(layout: RawHandle, offset: int, words: nat)
    ensures
        forall|p: int|
            0 <= p < push_constant::clear_commands(layout, offset, words).len() ==> is_clear(
                layout,
                #[trigger] push_constant::clear_commands(layout, offset, words)[p],
            ),
    decreases words,
{
    if words > 0 {
        let chunk = if words < push_constant::PUSH_CONSTANT_CLEAR_WORDS {
            words
        } else {
            push_constant::PUSH_CONSTANT_CLEAR_WORDS as nat
        };
        let next = offset + chunk * PUSH_CONSTANT_ALIGNMENT;
        let rest = push_constant::clear_commands(layout, next, (words - chunk) as nat);
        lemma_clear_calls(layout, next, (words - chunk) as nat);
        let all = push_constant::clear_commands(layout, offset, words);
        assert forall|p: int| 0 <= p < all.len() implies is_clear(layout, #[trigger] all[p]) by {
            if p > 0 {
                assert(all[p] == rest[p - 1]);
            }
        }
    }
}

pub(crate) proof fn lemma_clear_ranges_calls(
    raw: Seq<RawView>,
    layout: RawHandle,
    ranges: Seq<types::PushConstantRange>,
    n: nat,
)
    ensures
        extends(raw, run::clear_ranges(raw, layout, ranges, n)),
        forall|p: int|
            raw.len() <= p < run::clear_ranges(raw, layout, ranges, n).len() ==> is_clear(
                layout,
                #[trigger] run::clear_ranges(raw, layout, ranges, n)[p],
            ),
    decreases n,
{
    if n > 0 {
        lemma_clear_ranges_calls(raw, layout, ranges, (n - 1) as nat);
        lemma_clear_calls(
            layout,
            ranges[n - 1].start as int,
            ((ranges[n - 1].end - ranges[n - 1].start) / PUSH_CONSTANT_ALIGNMENT as int) as nat,
        );
    }
}

proof fn lemma_take_groups_raw(
    before: FlushView,
    groups: Seq<Arc<BindGroup>>,
    storage: Storage<BindGroup>,
    n: nat,
)
    ensures
        before.take_groups(groups, storage, n).raw == before.raw,
    decreases n,
{
    if n > 0 {
        lemma_take_groups_raw(before, groups, storage, (n - 1) as nat);
    }
}

/// Flushing adds at most transitions, and leaves the rest of the run alone.
pub(crate) proof fn lemma_flush_calls(
    s: RunView,
    env: PassEnv,
    scope: PassErrorScope,
    indirect_buffer: Option<TrackerIndex>,
)
    ensures
        match s.flush(env, scope, indirect_buffer) {
            Step::Done(t) => {
                &&& t == (RunView {
                    scope: t.scope,
                    intermediate: t.intermediate,
                    ..s
                }).with_raw(t.out.raw)
                &&& t.out.raw.len() == s.out.raw.len() + 2
                &&& extends(s.out.raw, t.out.raw)
                &&& is_transition(t.out.raw[s.out.raw.len() as int])
                &&& is_transition(t.out.raw[s.out.raw.len() as int + 1])
            },
            Step::Failed(t, _) => t == (RunView { scope: t.scope, ..s }),
            Step::Stuck => true,
        },
{
    let groups = s.binder.active_groups(types::MAX_BIND_GROUPS as nat);
    match state::merge_groups(s.scope, groups, *env.bind_groups, groups.len()) {
        Merge::Merged(scope) => {
            lemma_take_groups_raw(
                FlushView {
                    scope,
                    trackers: s.intermediate,
                    raw: s.out.raw,
                },
                groups,
                *env.bind_groups,
                groups.len(),
            );
        },
        _ => {},
    }
}

/// A command only adds calls, and only such as it warrants.
pub proof fn step_is_warranted(s: RunView, env: PassEnv, command: ArcComputeCommand)
    ensures
        reached(s.step(env, command)) matches Some(t) ==> {
            &&& extends(s.out.raw, t.out.raw)
            &&& forall|p: int|
                s.out.raw.len() <= p < t.out.raw.len() ==> warrants(
                    env,
                    command,
                    #[trigger] t.out.raw[p],
                )
        },
{
    match command {
        ArcComputeCommand::SetBindGroup { index, num_dynamic_offsets, bind_group } => {
            if let Some(layout) = s.binder.layout {
                let end = s.dynamic_offset_count + num_dynamic_offsets;
                let offsets = env.dynamic_offsets@.subrange(
                    s.dynamic_offset_count as int,
                    end as int,
                );
                let binder = s.binder.assign_group(index as int, bind_group, offsets);
                lemma_rebind_calls(
                    s.out.raw,
                    layout.raw,
                    binder.payloads,
                    index as int,
                    (binder.rebind_end(index as int) - index) as nat,
                );
            }
        },
        ArcComputeCommand::SetPipeline(pipeline) => {
            let layout = pipeline.layout;
            let set = s.out.raw.push(RawView::SetComputePipeline(pipeline.raw));
            let binder = s.binder.change_pipeline_layout(
                layout,
                pipeline.late_sized_buffer_groups@,
            );
            let start = s.binder.rebind_start(layout);
            let end = binder.rebind_end(s.binder.first_changed_slot(layout));
            lemma_rebind_calls(set, layout.raw, binder.payloads, start, (end - start) as nat);
            let bound = run::rebind(set, layout.raw, binder.payloads, start, (end - start) as nat).0;
            let ranges = push_constant::nonoverlapping_ranges(layout.push_constant_ranges@);
            lemma_clear_ranges_calls(bound, layout.raw, ranges, ranges.len());
        },
        ArcComputeCommand::Dispatch(groups) => {
            let scope = PassErrorScope::Dispatch {
                indirect: false,
                pipeline: s.pipeline,
            };
            lemma_flush_calls(s, env, scope, None);
        },
        ArcComputeCommand::DispatchIndirect { buffer, offset } => {
            lemma_dispatch_indirect_calls(s, env, buffer, offset);
        },
        _ => {},
    }
}

proof fn lemma_dispatch_indirect_calls(
    s: RunView,
    env: PassEnv,
    buffer: Arc<Buffer>,
    offset: types::BufferAddress,
)
    ensures
        reached(s.dispatch_indirect(env, buffer, offset)) matches Some(t) ==> {
            &&& extends(s.out.raw, t.out.raw)
            &&& forall|p: int|
                s.out.raw.len() <= p < t.out.raw.len() ==> warrants(
                    env,
                    ArcComputeCommand::DispatchIndirect { buffer, offset },
                    #[trigger] t.out.raw[p],
                )
        },
{
    let scope = PassErrorScope::Dispatch { indirect: true, pipeline: s.pipeline };
    match track::merge_use(
        s.scope.buffers,
        ResourceKind::Buffer,
        ResourceUse {
            index: buffer.tracker_index,
            id: buffer.id.0,
            uses: track::BUFFER_INDIRECT,
        },
    ) {
        Ok(buffers) => {
            let read = RunView {
                scope: ScopeView { buffers, ..s.scope },
                out: RecordingView {
                    buffer_inits: run::with_action(
                        s.out.buffer_inits,
                        memory_init::buffer_action_needed(
                            buffer,
                            InitRange {
                                start: offset,
                                end: (offset + DISPATCH_INDIRECT_ARGS_SIZE) as u64,
                            },
                            MemoryInitKind::NeedsInitializedMemory,
                        ),
                    ),
                    ..s.out
                },
                ..s
            };
            lemma_flush_calls(read, env, scope, Some(buffer.tracker_index));
        },
        Err(_) => {},
    }
}

/// Whatever commands are executed, the calls that were there stay, and each new one is warranted by
/// one of the commands.
pub proof fn every_call_is_warranted(
    start: RunView,
    env: PassEnv,
    commands: Seq<ArcComputeCommand>,
    n: nat,
)
    requires
        n <= commands.len(),
    ensures
        reached(start.steps(env, commands, n)) matches Some(t) ==> {
            &&& extends(start.out.raw, t.out.raw)
            &&& forall|p: int|
                start.out.raw.len() <= p < t.out.raw.len() ==> exists|i: int|
                    0 <= i < n && warrants(env, #[trigger] commands[i], #[trigger] t.out.raw[p])
        },
    decreases n,
{
    if n > 0 {
        every_call_is_warranted(start, env, commands, (n - 1) as nat);
        match start.steps(env, commands, (n - 1) as nat) {
            Step::Done(before) => {
                step_is_warranted(before, env, commands[n - 1]);
                if let Some(t) = reached(start.steps(env, commands, n)) {
                    assert forall|p: int| start.out.raw.len() <= p < t.out.raw.len() implies exists|
                        i: int,
                    |
                        0 <= i < n && warrants(
                            env,
                            #[trigger] commands[i],
                            #[trigger] t.out.raw[p],
                        ) by {
                        if p < before.out.raw.len() {
                            assert(before.out.raw[p] == t.out.raw[p]);
                        } else {
                            assert(warrants(env, commands[n - 1], t.out.raw[p]));
                        }
                    }
                }
            },
            _ => {},
        }
    }
}

} // verus!
