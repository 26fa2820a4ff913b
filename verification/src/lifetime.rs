//! A command buffer keeps alive what the commands of its passes use.
use crate::command::ArcComputeCommand;
use crate::run::{PassEnv, RunView, Step};
use crate::track;
use crate::track::TrackerView;
use vstd::prelude::*;

verus! {

/// The trackers keep the objects of a command alive. Buffers are kept alive by their uses.
pub open spec fn keeps_alive(trackers: TrackerView, command: ArcComputeCommand) -> bool {
    match command {
        ArcComputeCommand::SetBindGroup { bind_group, .. } => trackers.bind_groups.contains(
            bind_group.id.0,
        ),
        ArcComputeCommand::SetPipeline(pipeline) => trackers.compute_pipelines.contains(
            pipeline.id.0,
        ),
        ArcComputeCommand::WriteTimestamp { query_set, .. } => trackers.query_sets.contains(
            query_set.id.0,
        ),
        ArcComputeCommand::BeginPipelineStatisticsQuery { query_set, .. } => {
            trackers.query_sets.contains(query_set.id.0)
        },
        _ => true,
    }
}

proof fn lemma_insert_once(ids: Seq<u64>, id: u64)
    ensures
        track::insert_once(ids, id).contains(id),
        forall|other: u64|
            ids.contains(other) ==> #[trigger] track::insert_once(ids, id).contains(other),
{
    let after = track::insert_once(ids, id);
    if !ids.contains(id) {
        assert(after[ids.len() as int] == id);
    }
    assert forall|other: u64| ids.contains(other) implies #[trigger] after.contains(other) by {
        let k = choose|k: int| 0 <= k < ids.len() && ids[k] == other;
        assert(after[k] == other);
    }
}

proof fn lemma_step_keeps(s: RunView, env: PassEnv, command: ArcComputeCommand)
    ensures
        s.step(env, command) matches Step::Done(t) ==> {
            &&& keeps_alive(t.out.trackers, command)
            &&& forall|id: u64|
                s.out.trackers.bind_groups.contains(id)
                    ==> #[trigger] t.out.trackers.bind_groups.contains(id)
            &&& forall|id: u64|
                s.out.trackers.compute_pipelines.contains(id)
                    ==> #[trigger] t.out.trackers.compute_pipelines.contains(id)
            &&& forall|id: u64|
                s.out.trackers.query_sets.contains(id)
                    ==> #[trigger] t.out.trackers.query_sets.contains(id)
        },
{
    match command {
        ArcComputeCommand::SetBindGroup { bind_group, .. } => {
            lemma_insert_once(s.out.trackers.bind_groups, bind_group.id.0);
        },
        ArcComputeCommand::SetPipeline(pipeline) => {
            lemma_insert_once(s.out.trackers.compute_pipelines, pipeline.id.0);
        },
        ArcComputeCommand::WriteTimestamp { query_set, .. } => {
            lemma_insert_once(s.out.trackers.query_sets, query_set.id.0);
        },
        ArcComputeCommand::BeginPipelineStatisticsQuery { query_set, .. } => {
            lemma_insert_once(s.out.trackers.query_sets, query_set.id.0);
        },
        _ => {},
    }
}

/// After some commands were executed, the groups, pipelines and query sets of all of them are kept
/// alive.
pub proof fn used_objects_are_kept_alive(
    start: RunView,
    env: PassEnv,
    commands: Seq<ArcComputeCommand>,
    n: nat,
)
    requires
        n <= commands.len(),
    ensures
        start.steps(env, commands, n) matches Step::Done(t) ==> forall|i: int|
            0 <= i < n ==> keeps_alive(t.out.trackers, #[trigger] commands[i]),
    decreases n,
{
    if n > 0 {
        used_objects_are_kept_alive(start, env, commands, (n - 1) as nat);
        if let Step::Done(s) = start.steps(env, commands, (n - 1) as nat) {
            lemma_step_keeps(s, env, commands[n - 1]);
            if let Step::Done(t) = start.steps(env, commands, n) {
                assert forall|i: int| 0 <= i < n implies keeps_alive(
                    t.out.trackers,
                    #[trigger] commands[i],
                ) by {
                    if i < n - 1 {
                        assert(keeps_alive(s.out.trackers, commands[i]));
                    }
                }
            }
        }
    }
}

} // verus!
