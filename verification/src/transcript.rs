//! The dispatches, markers, timestamps and queries that the backend sees are those that were recorded, one for
//! one.
use crate::command::{ArcComputeCommand, BaseView, ComputeCommand};
use crate::command_buffer;
use crate::command_buffer::CommandBufferView;
use crate::error::{ComputePassError, PassErrorScope};
use crate::global::{BufferProgress, HalReply, WaitingView};
use crate::history;
use crate::history::PassCall;
use crate::hub;
use crate::hub::Hub;
use crate::id::{BufferId, CommandEncoderId, QuerySetId, RawHandle};
use crate::init_tracker::{InitRange, MemoryInitKind};
use crate::memory_init;
use crate::pass::{ComputePassTimestampWrites, PassView};
use crate::progress;
use crate::raw::RawView;
use crate::replay;
use crate::resource::Buffer;
use crate::run;
use crate::run::{PassEnv, RecordingView, RunView, Step};
use crate::track;
use crate::track::{ResourceKind, ResourceUse, ScopeView};
use crate::types::{BufferAddress, DISPATCH_INDIRECT_ARGS_SIZE};
use crate::warrant;
use std::sync::Arc;
use vstd::prelude::*;

verus! {

/// What is listed of a pass.
pub enum Topic {
    Dispatches,
    Markers,
    Timestamps,
    Queries,
}

/// The call belongs to the topic.
pub open spec fn is_about(topic: Topic, call: RawView) -> bool {
    match topic {
        Topic::Dispatches => call is Dispatch || call is DispatchIndirect,
        Topic::Markers => call is BeginDebugMarker || call is EndDebugMarker
            || call is InsertDebugMarker,
        Topic::Timestamps => call is WriteTimestamp,
        Topic::Queries => call is BeginQuery,
    }
}

/// The calls of a topic among the calls `from..n`, in their order.
pub open spec fn seen(topic: Topic, calls: Seq<RawView>, from: nat, n: nat) -> Seq<RawView>
    decreases n,
{
    if n <= from {
        Seq::empty()
    } else {
        let before = seen(topic, calls, from, (n - 1) as nat);
        if is_about(topic, calls[n - 1]) {
            before.push(calls[n - 1])
        } else {
            before
        }
    }
}

/// The handle of a buffer.
pub open spec fn buffer_handle(hub: Hub, id: BufferId) -> RawHandle {
    hub.buffers.object(id.0)->0.raw->0
}

/// The handle of a query set.
pub open spec fn query_set_handle(hub: Hub, id: QuerySetId) -> RawHandle {
    hub.query_sets.object(id.0)->0.raw
}

/// The call of a topic that a recorded command stands for.
pub open spec fn due(topic: Topic, hub: Hub, base: BaseView, i: int) -> Option<RawView> {
    match (topic, base.commands[i]) {
        (Topic::Dispatches, ComputeCommand::Dispatch(groups)) => Some(RawView::Dispatch(groups)),
        (Topic::Dispatches, ComputeCommand::DispatchIndirect { buffer_id, offset }) => Some(
            RawView::DispatchIndirect { buffer: buffer_handle(hub, buffer_id), offset },
        ),
        (Topic::Markers, ComputeCommand::PushDebugGroup { .. }) => Some(
            RawView::BeginDebugMarker(base.label_of(i)),
        ),
        (Topic::Markers, ComputeCommand::PopDebugGroup) => Some(RawView::EndDebugMarker),
        (Topic::Markers, ComputeCommand::InsertDebugMarker { .. }) => Some(
            RawView::InsertDebugMarker(base.label_of(i)),
        ),
        (Topic::Timestamps, ComputeCommand::WriteTimestamp { query_set_id, query_index }) => Some(
            RawView::WriteTimestamp {
                query_set: query_set_handle(hub, query_set_id),
                index: query_index,
            },
        ),
        (
            Topic::Queries,
            ComputeCommand::BeginPipelineStatisticsQuery { query_set_id, query_index },
        ) => Some(
            RawView::BeginQuery {
                query_set: query_set_handle(hub, query_set_id),
                index: query_index,
            },
        ),
        _ => None,
    }
}

/// The calls of a topic that the first `n` commands of a recorded pass stand for.
pub open spec fn all_due(topic: Topic, hub: Hub, base: BaseView, n: nat) -> Seq<RawView>
    decreases n,
{
    if n == 0 {
        Seq::empty()
    } else {
        let before = all_due(topic, hub, base, (n - 1) as nat);
        match due(topic, hub, base, n - 1) {
            Some(call) => before.push(call),
            None => before,
        }
    }
}

/// The call of a topic that is asked for when a pass is recorded.
pub open spec fn asked(topic: Topic, hub: Hub, call: PassCall) -> Option<RawView> {
    match (topic, call) {
        (Topic::Dispatches, PassCall::Dispatch(groups)) => Some(RawView::Dispatch(groups)),
        (Topic::Dispatches, PassCall::DispatchIndirect { buffer_id, offset }) => Some(
            RawView::DispatchIndirect { buffer: buffer_handle(hub, buffer_id), offset },
        ),
        (Topic::Markers, PassCall::PushDebugGroup { label, .. }) => Some(
            RawView::BeginDebugMarker(label),
        ),
        (Topic::Markers, PassCall::PopDebugGroup) => Some(RawView::EndDebugMarker),
        (Topic::Markers, PassCall::InsertDebugMarker { label, .. }) => Some(
            RawView::InsertDebugMarker(label),
        ),
        (Topic::Timestamps, PassCall::WriteTimestamp { query_set_id, query_index }) => Some(
            RawView::WriteTimestamp {
                query_set: query_set_handle(hub, query_set_id),
                index: query_index,
            },
        ),
        (Topic::Queries, PassCall::BeginPipelineStatisticsQuery { query_set_id, query_index }) => {
            Some(
                RawView::BeginQuery {
                    query_set: query_set_handle(hub, query_set_id),
                    index: query_index,
                },
            )
        },
        _ => None,
    }
}

/// The calls of a topic that the first `n` calls ask for when a pass is recorded.
pub open spec fn all_asked(topic: Topic, hub: Hub, calls: Seq<PassCall>, n: nat) -> Seq<RawView>
    decreases n,
{
    if n == 0 {
        Seq::empty()
    } else {
        let before = all_asked(topic, hub, calls, (n - 1) as nat);
        match asked(topic, hub, calls[n - 1]) {
            Some(call) => before.push(call),
            None => before,
        }
    }
}

proof fn lemma_due_kept(topic: Topic, hub: Hub, pass: PassView, call: PassCall, n: nat)
    requires
        history::is_faithful(pass),
        pass.allows(call),
        n <= pass.base.commands.len(),
    ensures
        all_due(topic, hub, pass.base.with_call(call), n) == all_due(topic, hub, pass.base, n),
    decreases n,
{
    if n > 0 {
        lemma_due_kept(topic, hub, pass, call, (n - 1) as nat);
        history::lemma_record(pass, call);
        assert(pass.base.with_call(call).string_of(n - 1) == pass.base.string_of(n - 1));
    }
}

/// A pass holds one command for each dispatch, group, marker, timestamp and query that was asked for, in the
/// order of the calls, with their arguments and labels.
pub proof fn topics_are_recorded(
    topic: Topic,
    hub: Hub,
    start: PassView,
    calls: Seq<PassCall>,
    n: nat,
)
    requires
        start.is_new(),
        start.allows_all(calls),
        n <= calls.len(),
    ensures
        all_due(
            topic,
            hub,
            start.after_all(calls, n).base,
            start.after_all(calls, n).base.commands.len(),
        ) == all_asked(topic, hub, calls, n),
    decreases n,
{
    if n > 0 {
        topics_are_recorded(topic, hub, start, calls, (n - 1) as nat);
        history::recording_is_faithful(start, calls, (n - 1) as nat);
        let before = start.after_all(calls, (n - 1) as nat);
        let call = calls[n - 1];
        let len = before.base.commands.len();
        assert(before.allows(call));
        if !before.is_redundant(call) {
            lemma_due_kept(topic, hub, before, call, len);
            history::lemma_record(before, call);
            match call {
                PassCall::PushDebugGroup { label, .. } => {
                    vstd::utf8::encode_utf8_decode_utf8(label);
                },
                PassCall::InsertDebugMarker { label, .. } => {
                    vstd::utf8::encode_utf8_decode_utf8(label);
                },
                _ => {},
            }
            assert(before.base.with_call(call).commands[len as int] == call.command(
                before.base.push_constant_data.len(),
            ));
            assert(due(topic, hub, before.base.with_call(call), len as int) == asked(
                topic,
                hub,
                call,
            ));
        }
    }
}

proof fn lemma_seen_extends(
    topic: Topic,
    before: Seq<RawView>,
    after: Seq<RawView>,
    from: nat,
    n: nat,
)
    requires
        warrant::extends(before, after),
        n <= before.len(),
    ensures
        seen(topic, after, from, n) == seen(topic, before, from, n),
    decreases n,
{
    if n > from {
        lemma_seen_extends(topic, before, after, from, (n - 1) as nat);
        assert(after[n - 1] == before[n - 1]);
    }
}

proof fn lemma_seen_same(topic: Topic, calls: Seq<RawView>, from: nat, n: nat, m: nat)
    requires
        from <= n <= m <= calls.len(),
        forall|p: int| n <= p < m ==> !is_about(topic, #[trigger] calls[p]),
    ensures
        seen(topic, calls, from, m) == seen(topic, calls, from, n),
    decreases m,
{
    if n < m {
        lemma_seen_same(topic, calls, from, n, (m - 1) as nat);
        assert(!is_about(topic, calls[m - 1]));
    }
}

/// A dispatch ends with its call.
proof fn lemma_dispatch_ends(s: RunView, env: PassEnv, command: ArcComputeCommand)
    ensures
        s.step(env, command) matches Step::Done(t) ==> {
            &&& command matches ArcComputeCommand::Dispatch(groups) ==> t.out.raw.len()
                == s.out.raw.len() + 3 && is_flush(s.out.raw, t.out.raw) && t.out.raw.last()
                == RawView::Dispatch(groups)
            &&& command matches ArcComputeCommand::DispatchIndirect { buffer, offset }
                ==> t.out.raw.len() == s.out.raw.len() + 3 && is_flush(s.out.raw, t.out.raw)
                && t.out.raw.last() == (RawView::DispatchIndirect {
                buffer: buffer.raw->0,
                offset,
            })
        },
{
    match command {
        ArcComputeCommand::Dispatch(groups) => {
            let scope = PassErrorScope::Dispatch { indirect: false, pipeline: s.pipeline };
            warrant::lemma_flush_calls(s, env, scope, None);
        },
        ArcComputeCommand::DispatchIndirect { buffer, offset } => {
            lemma_indirect_ends(s, env, buffer, offset);
        },
        _ => {},
    }
}

/// The first two calls behind those that were there are transitions.
spec fn is_flush(before: Seq<RawView>, after: Seq<RawView>) -> bool {
    &&& warrant::is_transition(after[before.len() as int])
    &&& warrant::is_transition(after[before.len() as int + 1])
}

proof fn lemma_indirect_ends(
    s: RunView,
    env: PassEnv,
    buffer: Arc<Buffer>,
    offset: BufferAddress,
)
    ensures
        s.dispatch_indirect(env, buffer, offset) matches Step::Done(t) ==> {
            &&& t.out.raw.len() == s.out.raw.len() + 3
            &&& is_flush(s.out.raw, t.out.raw)
            &&& t.out.raw.last() == (RawView::DispatchIndirect { buffer: buffer.raw->0, offset })
        },
{
    let scope = PassErrorScope::Dispatch { indirect: true, pipeline: s.pipeline };
    if let Ok(buffers) = track::merge_use(
        s.scope.buffers,
        ResourceKind::Buffer,
        ResourceUse {
            index: buffer.tracker_index,
            id: buffer.id.0,
            uses: track::BUFFER_INDIRECT,
        },
    ) {
        let read = RunView {
            scope: ScopeView { buffers, ..s.scope },
            out: RecordingView {
                buffer_inits: run::with_action(
                    s.out.buffer_inits,
                    memory_init::buffer_action_needed(
                        buffer,
                        InitRange {
                            start: offset,
                            end: (offset + DISPATCH_INDIRECT_ARGS_SIZE) as u64,
                        },
                        MemoryInitKind::NeedsInitializedMemory,
                    ),
                ),
                ..s.out
            },
            ..s
        };
        warrant::lemma_flush_calls(read, env, scope, Some(buffer.tracker_index));
    }
}

/// The objects of the commands are those that the recorded commands name, and the commands draw from the
/// streams of the recorded pass.
pub open spec fn is_resolved(
    hub: Hub,
    env: PassEnv,
    commands: Seq<ArcComputeCommand>,
    base: BaseView,
) -> bool {
    &&& hub.keys_match()
    &&& hub::resolve_all(hub, base.commands, base.commands.len()) == Ok::<
        Seq<ArcComputeCommand>,
        ComputePassError,
    >(commands)
    &&& replay::is_run_of(env, commands, base)
}

/// The calls of a topic that are made of all that there could be: no markers where labels are discarded,
/// and everything otherwise.
pub open spec fn made(topic: Topic, env: PassEnv, all: Seq<RawView>) -> Seq<RawView> {
    if topic is Markers && env.discard_hal_labels {
        Seq::empty()
    } else {
        all
    }
}

/// Up to each command, the backend has seen exactly the dispatches, markers, timestamps and queries that the
/// commands stand for, in their order, each once; no markers at all where labels are discarded.
pub proof fn topics_are_replayed(
    topic: Topic,
    hub: Hub,
    start: RunView,
    env: PassEnv,
    commands: Seq<ArcComputeCommand>,
    base: BaseView,
    n: nat,
)
    requires
        n <= commands.len(),
        replay::at_the_beginning(start),
        is_resolved(hub, env, commands, base),
    ensures
        start.steps(env, commands, n) matches Step::Done(t) ==> {
            &&& warrant::extends(start.out.raw, t.out.raw)
            &&& seen(topic, t.out.raw, start.out.raw.len(), t.out.raw.len()) == made(
                topic,
                env,
                all_due(topic, hub, base, n),
            )
        },
    decreases n,
{
    let from = start.out.raw.len();
    if n > 0 {
        topics_are_replayed(topic, hub, start, env, commands, base, (n - 1) as nat);
        if let Step::Done(s) = start.steps(env, commands, (n - 1) as nat) {
            let command = commands[n - 1];
            if let Step::Done(t) = s.step(env, command) {
                replay::streams_are_taken_in_order(start, env, commands, (n - 1) as nat);
                hub::resolving_keeps_commands(hub, base.commands, base.commands.len());
                assert(command.unresolved() == base.commands[n - 1]);
                assert(hub::resolve(hub, base.commands[n - 1]) == Ok::<
                    ArcComputeCommand,
                    ComputePassError,
                >(command));
                warrant::step_is_warranted(s, env, command);
                lemma_seen_extends(topic, s.out.raw, t.out.raw, from, s.out.raw.len());
                lemma_step_is_seen(topic, hub, s, env, command, base, n - 1, from);
            }
        }
    }
}

proof fn lemma_step_is_seen(
    topic: Topic,
    hub: Hub,
    s: RunView,
    env: PassEnv,
    command: ArcComputeCommand,
    base: BaseView,
    i: int,
    from: nat,
)
    requires
        0 <= i < base.commands.len(),
        from <= s.out.raw.len(),
        s.step(env, command) is Done,
        command.unresolved() == base.commands[i],
        hub::resolve(hub, base.commands[i]) == Ok::<ArcComputeCommand, ComputePassError>(command),
        env.string_data@ == base.string_data,
        s.string_offset == crate::pass::bytes_before(base.commands, i as nat),
    ensures
        ({
            let t = s.step(env, command)->Done_0;
            let before = seen(topic, t.out.raw, from, s.out.raw.len());
            let after = seen(topic, t.out.raw, from, t.out.raw.len());
            match due(topic, hub, base, i) {
                Some(call) => after == if topic is Markers && env.discard_hal_labels {
                    before
                } else {
                    before.push(call)
                },
                None => after == before,
            }
        }),
{
    let t = s.step(env, command)->Done_0;
    let k = s.out.raw.len();
    warrant::step_is_warranted(s, env, command);
    lemma_dispatch_ends(s, env, command);
    let is_dispatch = command is Dispatch || command is DispatchIndirect;
    let is_marker = command is PushDebugGroup || command is PopDebugGroup
        || command is InsertDebugMarker;
    if topic is Dispatches && is_dispatch {
        assert forall|p: int| k <= p < k + 2 implies !is_about(topic, #[trigger] t.out.raw[p]) by {
            assert(warrant::is_transition(t.out.raw[p]));
        }
        lemma_seen_same(topic, t.out.raw, from, k, k + 2);
    } else if topic is Markers && is_marker && !env.discard_hal_labels {
        assert(t.out.raw.len() == k + 1);
    } else if (topic is Timestamps && command is WriteTimestamp) || (topic is Queries
        && command is BeginPipelineStatisticsQuery) {
        assert(t.out.raw.len() == k + 2);
        assert(t.out.raw[k as int] is ResetQueries);
        lemma_seen_same(topic, t.out.raw, from, k, k + 1);
    } else {
        assert forall|p: int| k <= p < t.out.raw.len() implies !is_about(
            topic,
            #[trigger] t.out.raw[p],
        ) by {
            assert(warrant::warrants(env, command, t.out.raw[p]));
        }
        lemma_seen_same(topic, t.out.raw, from, k, t.out.raw.len());
    }
}

/// The call begins or ends a pass.
pub open spec fn is_bracket(call: RawView) -> bool {
    call is BeginComputePass || call is EndComputePass
}

/// From `from` on the calls make up one pass: it is begun once, behind nothing but the reset of queries,
/// and ended once, by the last call.
pub open spec fn is_one_pass(calls: Seq<RawView>, from: nat) -> bool {
    &&& from < calls.len() - 1
    &&& calls.last() is EndComputePass
    &&& exists|p: int|
        {
            &&& from <= p < calls.len() - 1
            &&& (#[trigger] calls[p]) is BeginComputePass
            &&& forall|q: int| from <= q < p ==> (#[trigger] calls[q]) is ResetQueries
            &&& forall|q: int| p < q < calls.len() - 1 ==> !is_bracket(#[trigger] calls[q])
        }
}

/// The body of a pass is one pass to the backend.
pub proof fn body_is_one_pass(
    start: RunView,
    env: PassEnv,
    encoder_id: CommandEncoderId,
    label: Option<Seq<char>>,
    writes: Option<ComputePassTimestampWrites>,
    commands: Seq<ArcComputeCommand>,
)
    ensures
        command_buffer::pass_body(start, env, encoder_id, label, writes, commands) matches Step::Done(
            t,
        ) ==> is_one_pass(t.out.raw, start.out.raw.len()),
{
    if let Step::Done(t) = command_buffer::pass_body(
        start,
        env,
        encoder_id,
        label,
        writes,
        commands,
    ) {
        let from = start.out.raw.len();
        let begun = command_buffer::begin_pass(start, env, encoder_id, label, writes)->Done_0;
        let ended = begun.steps(env, commands, commands.len())->Done_0;
        let p = begun.out.raw.len() - 1;
        warrant::every_call_is_warranted(begun, env, commands, commands.len());
        assert(ended.out.raw[p] == begun.out.raw[p]);
        assert(t.out.raw[p] is BeginComputePass);
        assert forall|q: int| from <= q < p implies (#[trigger] t.out.raw[q]) is ResetQueries by {
            assert(ended.out.raw[q] == begun.out.raw[q]);
        }
        assert forall|q: int| p < q < t.out.raw.len() - 1 implies !is_bracket(
            #[trigger] t.out.raw[q],
        ) by {
            assert(t.out.raw[q] == ended.out.raw[q]);
            let i = choose|i: int|
                0 <= i < commands.len() && warrant::warrants(
                    env,
                    #[trigger] commands[i],
                    ended.out.raw[q],
                );
            assert(warrant::warrants(env, commands[i], ended.out.raw[q]));
        }
    }
}

/// In the body of a pass, the backend sees exactly the dispatches and markers that the commands of the
/// recorded pass stand for.
pub proof fn body_replays_topics(
    topic: Topic,
    hub: Hub,
    start: RunView,
    env: PassEnv,
    encoder_id: CommandEncoderId,
    label: Option<Seq<char>>,
    writes: Option<ComputePassTimestampWrites>,
    commands: Seq<ArcComputeCommand>,
    base: BaseView,
)
    requires
        replay::at_the_beginning(start),
        is_resolved(hub, env, commands, base),
    ensures
        command_buffer::pass_body(start, env, encoder_id, label, writes, commands) matches Step::Done(
            t,
        ) ==> seen(topic, t.out.raw, start.out.raw.len(), t.out.raw.len()) == made(
            topic,
            env,
            all_due(topic, hub, base, base.commands.len()),
        ),
{
    if let Step::Done(t) = command_buffer::pass_body(
        start,
        env,
        encoder_id,
        label,
        writes,
        commands,
    ) {
        let from = start.out.raw.len();
        let begun = command_buffer::begin_pass(start, env, encoder_id, label, writes)->Done_0;
        let ended = begun.steps(env, commands, commands.len())->Done_0;
        let k = begun.out.raw.len();
        topics_are_replayed(topic, hub, begun, env, commands, base, commands.len());
        assert(command_buffer::unresolved(commands).len() == base.commands.len());
        assert(warrant::extends(ended.out.raw, t.out.raw));
        lemma_seen_extends(topic, ended.out.raw, t.out.raw, k, ended.out.raw.len());
        assert forall|p: int| from <= p < k implies !is_about(topic, #[trigger] t.out.raw[p]) by {
            assert(ended.out.raw[p] == begun.out.raw[p]);
        }
        lemma_seen_same(topic, t.out.raw, from, from, k);
        lemma_seen_from(topic, t.out.raw, from, k, t.out.raw.len());
    }
}

proof fn lemma_seen_from(topic: Topic, calls: Seq<RawView>, from: nat, k: nat, n: nat)
    requires
        from <= k <= n,
        seen(topic, calls, from, k).len() == 0,
    ensures
        seen(topic, calls, from, n) == seen(topic, calls, k, n),
    decreases n,
{
    if k < n {
        lemma_seen_from(topic, calls, from, k, (n - 1) as nat);
    }
}

/// A run that finishes without an error has put one pass into the command buffer, as its last stretch of
/// encoding. Its dispatches, timestamps and queries, and its markers unless labels are discarded, are exactly
/// those that the calls asked for that recorded the pass, in the order of the calls, none dropped and none added.
pub proof fn finished_run_replays_the_calls(
    topic: Topic,
    hub: Hub,
    run: WaitingView,
    env: PassEnv,
    buffer: CommandBufferView,
    replies: Seq<HalReply>,
    n: nat,
    start: PassView,
    calls: Seq<PassCall>,
)
    requires
        start.is_new(),
        start.allows_all(calls),
        run.base == start.after_all(calls, calls.len()).base,
        is_resolved(hub, env, run.commands, run.base),
    ensures
        progress::after_replies(run, env, buffer, replies, n) matches BufferProgress::Finished(
            now,
            None,
        ) ==> ({
            let body = now.list.last().commands;
            let from = progress::body_start(buffer).raw.len();
            &&& is_one_pass(body, from)
            &&& seen(topic, body, from, body.len()) == made(
                topic,
                env,
                all_asked(topic, hub, calls, calls.len()),
            )
        }),
{
    progress::finished_pass_is_recorded(run, env, buffer, replies, n);
    topics_are_recorded(topic, hub, start, calls, calls.len());
    let begin = command_buffer::run_start(progress::body_start(buffer));
    body_is_one_pass(
        begin,
        env,
        run.encoder_id,
        run.base.label,
        run.timestamp_writes,
        run.commands,
    );
    body_replays_topics(
        topic,
        hub,
        begin,
        env,
        run.encoder_id,
        run.base.label,
        run.timestamp_writes,
        run.commands,
        run.base,
    );
}

} // verus!
