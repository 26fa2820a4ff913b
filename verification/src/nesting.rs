//! Debug markers and queries are begun and ended in an order that the backend accepts.
use crate::command::ArcComputeCommand;
use crate::id::{QuerySetId, RawHandle};
use crate::raw::RawView;
use crate::run::{PassEnv, RunView, Step};
use crate::warrant;
use vstd::prelude::*;

verus! {

/// The number of debug markers that are open after the calls `from..n`, unless one of these calls
/// ends a marker that is not open.
pub open spec fn open_markers(calls: Seq<RawView>, from: nat, n: nat) -> Option<nat>
    decreases n,
{
    if n <= from {
        Some(0)
    } else {
        match open_markers(calls, from, (n - 1) as nat) {
            None => None,
            Some(depth) => match calls[n - 1] {
                RawView::BeginDebugMarker(_) => Some(depth + 1),
                RawView::EndDebugMarker => if depth == 0 {
                    None
                } else {
                    Some((depth - 1) as nat)
                },
                _ => Some(depth),
            },
        }
    }
}

proof fn lemma_open_markers_extends(before: Seq<RawView>, after: Seq<RawView>, from: nat, n: nat)
    requires
        warrant::extends(before, after),
        n <= before.len(),
    ensures
        open_markers(after, from, n) == open_markers(before, from, n),
    decreases n,
{
    if n > from {
        lemma_open_markers_extends(before, after, from, (n - 1) as nat);
        assert(after[n - 1] == before[n - 1]);
    }
}

proof fn lemma_open_markers_same(calls: Seq<RawView>, from: nat, n: nat, m: nat)
    requires
        from <= n <= m <= calls.len(),
        forall|p: int|
            n <= p < m ==> !((#[trigger] calls[p]) is BeginDebugMarker) && !(
            calls[p] is EndDebugMarker),
    ensures
        open_markers(calls, from, m) == open_markers(calls, from, n),
    decreases m,
{
    if n < m {
        lemma_open_markers_same(calls, from, n, (m - 1) as nat);
        assert(!(calls[m - 1] is BeginDebugMarker));
    }
}

/// The number of markers that the backend has open while the debug groups of the pass are this deep.
pub open spec fn seen_depth(env: PassEnv, depth: u32) -> nat {
    if env.discard_hal_labels {
        0
    } else {
        depth as nat
    }
}

/// No debug marker is ended that is not open, and as many are open as debug groups of the pass are:
/// none at all where labels are discarded.
pub proof fn markers_are_nested(
    start: RunView,
    env: PassEnv,
    commands: Seq<ArcComputeCommand>,
    n: nat,
)
    requires
        n <= commands.len(),
        start.debug_scope_depth == 0,
    ensures
        warrant::reached(start.steps(env, commands, n)) matches Some(t) ==> open_markers(
            t.out.raw,
            start.out.raw.len(),
            t.out.raw.len(),
        ) == Some(seen_depth(env, t.debug_scope_depth)),
    decreases n,
{
    let from = start.out.raw.len();
    if n > 0 {
        markers_are_nested(start, env, commands, (n - 1) as nat);
        warrant::every_call_is_warranted(start, env, commands, (n - 1) as nat);
        match start.steps(env, commands, (n - 1) as nat) {
            Step::Done(s) => {
                let command = commands[n - 1];
                warrant::step_is_warranted(s, env, command);
                if let Some(t) = warrant::reached(s.step(env, command)) {
                    let k = s.out.raw.len();
                    lemma_open_markers_extends(s.out.raw, t.out.raw, from, k);
                    if command is PushDebugGroup || command is PopDebugGroup {
                        lemma_open_markers_same(t.out.raw, from, t.out.raw.len(), t.out.raw.len());
                    } else {
                        assert forall|p: int| k <= p < t.out.raw.len() implies !((
                        #[trigger] t.out.raw[p]) is BeginDebugMarker) && !(
                        t.out.raw[p] is EndDebugMarker) by {
                            assert(warrant::warrants(env, command, t.out.raw[p]));
                        }
                        lemma_open_markers_same(t.out.raw, from, k, t.out.raw.len());
                        lemma_depth_kept(s, env, command);
                    }
                }
            },
            _ => {},
        }
    }
}

proof fn lemma_depth_kept(s: RunView, env: PassEnv, command: ArcComputeCommand)
    requires
        !(command is PushDebugGroup),
        !(command is PopDebugGroup),
    ensures
        warrant::reached(s.step(env, command)) matches Some(t) ==> t.debug_scope_depth
            == s.debug_scope_depth,
{
}

/// The query that is active after the calls `from..n`, unless one of these calls begins a query while
/// another one is active, or ends one that is not.
pub open spec fn open_query(calls: Seq<RawView>, from: nat, n: nat) -> Option<
    Option<(RawHandle, u32)>,
>
    decreases n,
{
    if n <= from {
        Some(None)
    } else {
        match open_query(calls, from, (n - 1) as nat) {
            None => None,
            Some(active) => match calls[n - 1] {
                RawView::BeginQuery { query_set, index } => if active is None {
                    Some(Some((query_set, index)))
                } else {
                    None
                },
                RawView::EndQuery { query_set, index } => if active == Some((query_set, index)) {
                    Some(None)
                } else {
                    None
                },
                _ => Some(active),
            },
        }
    }
}

proof fn lemma_open_query_extends(before: Seq<RawView>, after: Seq<RawView>, from: nat, n: nat)
    requires
        warrant::extends(before, after),
        n <= before.len(),
    ensures
        open_query(after, from, n) == open_query(before, from, n),
    decreases n,
{
    if n > from {
        lemma_open_query_extends(before, after, from, (n - 1) as nat);
        assert(after[n - 1] == before[n - 1]);
    }
}

proof fn lemma_open_query_same(calls: Seq<RawView>, from: nat, n: nat, m: nat)
    requires
        from <= n <= m <= calls.len(),
        forall|p: int|
            n <= p < m ==> !((#[trigger] calls[p]) is BeginQuery) && !(calls[p] is EndQuery),
    ensures
        open_query(calls, from, m) == open_query(calls, from, n),
    decreases m,
{
    if n < m {
        lemma_open_query_same(calls, from, n, (m - 1) as nat);
        assert(!(calls[m - 1] is BeginQuery));
    }
}

/// The query that the backend has active while the pass has this one active.
pub open spec fn seen_query(env: PassEnv, active: Option<(QuerySetId, u32)>) -> Option<
    (RawHandle, u32),
> {
    match active {
        None => None,
        Some((id, index)) => match env.query_sets.object(id.0) {
            Some(query_set) => Some((query_set.raw, index)),
            None => None,
        },
    }
}

/// The query sets that the commands begin queries of are those that exist under their identifiers.
pub open spec fn query_sets_exist(env: PassEnv, commands: Seq<ArcComputeCommand>) -> bool {
    forall|i: int|
        0 <= i < commands.len() ==> match #[trigger] commands[i] {
            ArcComputeCommand::BeginPipelineStatisticsQuery { query_set, .. } => {
                env.query_sets.object(query_set.id.0) == Some(query_set)
            },
            _ => true,
        }
}

/// No query is begun while another one is active, and only the one that is active is ended. As long
/// as the pass does not fail, the backend and the pass agree on which one that is.
pub proof fn queries_are_paired(
    start: RunView,
    env: PassEnv,
    commands: Seq<ArcComputeCommand>,
    n: nat,
)
    requires
        n <= commands.len(),
        start.active_query is None,
        query_sets_exist(env, commands),
    ensures
        warrant::reached(start.steps(env, commands, n)) matches Some(t) ==> open_query(
            t.out.raw,
            start.out.raw.len(),
            t.out.raw.len(),
        ) is Some,
        start.steps(env, commands, n) matches Step::Done(t) ==> {
            &&& open_query(t.out.raw, start.out.raw.len(), t.out.raw.len()) == Some(
                seen_query(env, t.active_query),
            )
            &&& t.active_query is Some == seen_query(env, t.active_query) is Some
        },
    decreases n,
{
    let from = start.out.raw.len();
    if n > 0 {
        queries_are_paired(start, env, commands, (n - 1) as nat);
        warrant::every_call_is_warranted(start, env, commands, (n - 1) as nat);
        match start.steps(env, commands, (n - 1) as nat) {
            Step::Done(s) => {
                let command = commands[n - 1];
                warrant::step_is_warranted(s, env, command);
                if let Some(t) = warrant::reached(s.step(env, command)) {
                    let k = s.out.raw.len();
                    lemma_open_query_extends(s.out.raw, t.out.raw, from, k);
                    match command {
                        ArcComputeCommand::BeginPipelineStatisticsQuery { query_set, query_index } => {
                            if s.step(env, command) is Done {
                                assert(t.out.raw[k as int] is ResetQueries);
                                assert(open_query(t.out.raw, from, k + 1) == open_query(
                                    t.out.raw,
                                    from,
                                    k,
                                ));
                            }
                        },
                        ArcComputeCommand::EndPipelineStatisticsQuery => {},
                        _ => {
                            assert forall|p: int| k <= p < t.out.raw.len() implies !((
                            #[trigger] t.out.raw[p]) is BeginQuery) && !(
                            t.out.raw[p] is EndQuery) by {
                                assert(warrant::warrants(env, command, t.out.raw[p]));
                            }
                            lemma_open_query_same(t.out.raw, from, k, t.out.raw.len());
                            lemma_query_kept(s, env, command);
                        },
                    }
                }
            },
            _ => {},
        }
    }
}

proof fn lemma_query_kept(s: RunView, env: PassEnv, command: ArcComputeCommand)
    requires
        !(command is BeginPipelineStatisticsQuery),
        !(command is EndPipelineStatisticsQuery),
    ensures
        s.step(env, command) matches Step::Done(t) ==> t.active_query == s.active_query,
{
}

} // verus!
