//! The objects that commands can name, and how commands find them.
use crate::command::{ArcComputeCommand, ComputeCommand};
use crate::error::{ComputePassError, ComputePassErrorInner, PassErrorScope};
use crate::resource::{share, BindGroup, Buffer, ComputePipeline, QuerySet};
use crate::storage::Storage;
use vstd::prelude::*;

verus! {

/// The objects that commands can name.
#[derive(Debug)]
pub struct Hub {
    pub bind_groups: Storage<BindGroup>,
    pub compute_pipelines: Storage<ComputePipeline>,
    pub buffers: Storage<Buffer>,
    pub query_sets: Storage<QuerySet>,
}

impl Hub {
    /// Every object is stored under its own identifier.
    pub open spec fn keys_match(self) -> bool {
        &&& forall|i: int|
            0 <= i < self.bind_groups.entries@.len() ==> (
            #[trigger] self.bind_groups.entries@[i]).1.id.0 == self.bind_groups.entries@[i].0
        &&& forall|i: int|
            0 <= i < self.compute_pipelines.entries@.len() ==> (
            #[trigger] self.compute_pipelines.entries@[i]).1.id.0
                == self.compute_pipelines.entries@[i].0
        &&& forall|i: int|
            0 <= i < self.buffers.entries@.len() ==> (#[trigger] self.buffers.entries@[i]).1.id.0
                == self.buffers.entries@[i].0
        &&& forall|i: int|
            0 <= i < self.query_sets.entries@.len() ==> (
            #[trigger] self.query_sets.entries@[i]).1.id.0 == self.query_sets.entries@[i].0
    }
}

/// The error that a command with the name of an object that does not exist causes.
pub open spec fn unresolved_error(scope: PassErrorScope, inner: ComputePassErrorInner) -> ComputePassError {
    ComputePassError { scope, inner }
}

/// A command with its objects in place of their identifiers, or what is missing.
pub open spec fn resolve(hub: Hub, command: ComputeCommand) -> Result<
    ArcComputeCommand,
    ComputePassError,
> {
    match command {
        ComputeCommand::SetBindGroup { index, num_dynamic_offsets, bind_group_id } => {
            match hub.bind_groups.object(bind_group_id.0) {
                Some(bind_group) => Ok(
                    ArcComputeCommand::SetBindGroup { index, num_dynamic_offsets, bind_group },
                ),
                None => Err(
                    unresolved_error(
                        PassErrorScope::SetBindGroup(bind_group_id),
                        ComputePassErrorInner::InvalidBindGroup(index),
                    ),
                ),
            }
        },
        ComputeCommand::SetPipeline(id) => match hub.compute_pipelines.object(id.0) {
            Some(pipeline) => Ok(ArcComputeCommand::SetPipeline(pipeline)),
            None => Err(
                unresolved_error(
                    PassErrorScope::SetPipelineCompute(id),
                    ComputePassErrorInner::InvalidPipeline(id),
                ),
            ),
        },
        ComputeCommand::SetPushConstant { offset, size_bytes, values_offset } => Ok(
            ArcComputeCommand::SetPushConstant { offset, size_bytes, values_offset },
        ),
        ComputeCommand::Dispatch(groups) => Ok(ArcComputeCommand::Dispatch(groups)),
        ComputeCommand::DispatchIndirect { buffer_id, offset } => match hub.buffers.object(
            buffer_id.0,
        ) {
            Some(buffer) => Ok(ArcComputeCommand::DispatchIndirect { buffer, offset }),
            None => Err(
                unresolved_error(
                    PassErrorScope::Dispatch { indirect: true, pipeline: None },
                    ComputePassErrorInner::InvalidBuffer(buffer_id),
                ),
            ),
        },
        ComputeCommand::PushDebugGroup { color, len } => Ok(
            ArcComputeCommand::PushDebugGroup { color, len },
        ),
        ComputeCommand::PopDebugGroup => Ok(ArcComputeCommand::PopDebugGroup),
        ComputeCommand::InsertDebugMarker { color, len } => Ok(
            ArcComputeCommand::InsertDebugMarker { color, len },
        ),
        ComputeCommand::WriteTimestamp { query_set_id, query_index } => {
            match hub.query_sets.object(query_set_id.0) {
                Some(query_set) => Ok(
                    ArcComputeCommand::WriteTimestamp { query_set, query_index },
                ),
                None => Err(
                    unresolved_error(
                        PassErrorScope::WriteTimestamp,
                        ComputePassErrorInner::InvalidQuerySet(query_set_id),
                    ),
                ),
            }
        },
        ComputeCommand::BeginPipelineStatisticsQuery { query_set_id, query_index } => {
            match hub.query_sets.object(query_set_id.0) {
                Some(query_set) => Ok(
                    ArcComputeCommand::BeginPipelineStatisticsQuery { query_set, query_index },
                ),
                None => Err(
                    unresolved_error(
                        PassErrorScope::BeginPipelineStatisticsQuery,
                        ComputePassErrorInner::InvalidQuerySet(query_set_id),
                    ),
                ),
            }
        },
        ComputeCommand::EndPipelineStatisticsQuery => Ok(
            ArcComputeCommand::EndPipelineStatisticsQuery,
        ),
    }
}

/// The first `n` commands with their objects, or what the first of them that misses one misses.
pub open spec fn resolve_all(hub: Hub, commands: Seq<ComputeCommand>, n: nat) -> Result<
    Seq<ArcComputeCommand>,
    ComputePassError,
>
    decreases n,
{
    if n == 0 {
        Ok(Seq::empty())
    } else {
        match resolve_all(hub, commands, (n - 1) as nat) {
            Err(e) => Err(e),
            Ok(before) => match resolve(hub, commands[n - 1]) {
                Ok(last) => Ok(before.push(last)),
                Err(e) => Err(e),
            },
        }
    }
}

proof fn lemma_resolve_error_stays(hub: Hub, commands: Seq<ComputeCommand>, n: nat, m: nat)
    requires
        n <= m,
        resolve_all(hub, commands, n) is Err,
    ensures
        resolve_all(hub, commands, m) == resolve_all(hub, commands, n),
    decreases m,
{
    if n < m {
        lemma_resolve_error_stays(hub, commands, n, (m - 1) as nat);
    }
}

pub(crate) proof fn lemma_lookup_in<T>(
    entries: Seq<(u64, std::sync::Arc<T>)>,
    id: u64,
    n: nat,
)
    requires
        n <= entries.len(),
        crate::storage::lookup(entries, id, n) is Some,
    ensures
        exists|i: int|
            0 <= i < n && (#[trigger] entries[i]).0 == id && entries[i].1
                == crate::storage::lookup(entries, id, n)->0,
    decreases n,
{
    if crate::storage::lookup(entries, id, (n - 1) as nat) is Some {
        lemma_lookup_in(entries, id, (n - 1) as nat);
    } else {
        assert(entries[n - 1].0 == id);
    }
}

/// Finding the objects of commands loses nothing: a command and its resolved form name the same
/// objects, and there are as many of the one as of the other.
pub proof fn resolving_keeps_commands(hub: Hub, commands: Seq<ComputeCommand>, n: nat)
    requires
        hub.keys_match(),
        n <= commands.len(),
        resolve_all(hub, commands, n) is Ok,
    ensures
        resolve_all(hub, commands, n)->Ok_0.len() == n,
        forall|i: int|
            0 <= i < n ==> (#[trigger] resolve_all(hub, commands, n)->Ok_0[i]).unresolved()
                == commands[i],
        forall|i: int|
            0 <= i < n ==> resolve(hub, commands[i]) == Ok::<ArcComputeCommand, ComputePassError>(
                #[trigger] resolve_all(hub, commands, n)->Ok_0[i],
            ),
    decreases n,
{
    if n > 0 {
        resolving_keeps_commands(hub, commands, (n - 1) as nat);
        match commands[n - 1] {
            ComputeCommand::SetBindGroup { bind_group_id, .. } => {
                lemma_lookup_in(
                    hub.bind_groups.entries@,
                    bind_group_id.0,
                    hub.bind_groups.entries@.len(),
                );
            },
            ComputeCommand::SetPipeline(id) => {
                lemma_lookup_in(
                    hub.compute_pipelines.entries@,
                    id.0,
                    hub.compute_pipelines.entries@.len(),
                );
            },
            ComputeCommand::DispatchIndirect { buffer_id, .. } => {
                lemma_lookup_in(hub.buffers.entries@, buffer_id.0, hub.buffers.entries@.len());
            },
            ComputeCommand::WriteTimestamp { query_set_id, .. } => {
                lemma_lookup_in(
                    hub.query_sets.entries@,
                    query_set_id.0,
                    hub.query_sets.entries@.len(),
                );
            },
            ComputeCommand::BeginPipelineStatisticsQuery { query_set_id, .. } => {
                lemma_lookup_in(
                    hub.query_sets.entries@,
                    query_set_id.0,
                    hub.query_sets.entries@.len(),
                );
            },
            _ => {},
        }
    }
}

impl Hub {
    /// A hub without objects.
    pub fn new() -> (r: Self)
        ensures
            r.keys_match(),
            r.bind_groups.entries@.len() == 0,
            r.compute_pipelines.entries@.len() == 0,
            r.buffers.entries@.len() == 0,
            r.query_sets.entries@.len() == 0,
    {
        Hub {
            bind_groups: Storage::new(),
            compute_pipelines: Storage::new(),
            buffers: Storage::new(),
            query_sets: Storage::new(),
        }
    }

    /// Finds the objects of a command.
    pub fn resolve_compute_command(&self, command: &ComputeCommand) -> (r: Result<
        ArcComputeCommand,
        ComputePassError,
    >)
        ensures
            r == resolve(*self, *command),
    {
        match *command {
            ComputeCommand::SetBindGroup { index, num_dynamic_offsets, bind_group_id } => {
                match self.bind_groups.get(bind_group_id.0) {
                    Some(bind_group) => Ok(
                        ArcComputeCommand::SetBindGroup {
                            index,
                            num_dynamic_offsets,
                            bind_group: share(bind_group),
                        },
                    ),
                    None => Err(
                        ComputePassError {
                            scope: PassErrorScope::SetBindGroup(bind_group_id),
                            inner: ComputePassErrorInner::InvalidBindGroup(index),
                        },
                    ),
                }
            },
            ComputeCommand::SetPipeline(id) => match self.compute_pipelines.get(id.0) {
                Some(pipeline) => Ok(ArcComputeCommand::SetPipeline(share(pipeline))),
                None => Err(
                    ComputePassError {
                        scope: PassErrorScope::SetPipelineCompute(id),
                        inner: ComputePassErrorInner::InvalidPipeline(id),
                    },
                ),
            },
            ComputeCommand::SetPushConstant { offset, size_bytes, values_offset } => Ok(
                ArcComputeCommand::SetPushConstant { offset, size_bytes, values_offset },
            ),
            ComputeCommand::Dispatch(groups) => Ok(ArcComputeCommand::Dispatch(groups)),
            ComputeCommand::DispatchIndirect { buffer_id, offset } => match self.buffers.get(
                buffer_id.0,
            ) {
                Some(buffer) => Ok(
                    ArcComputeCommand::DispatchIndirect { buffer: share(buffer), offset },
                ),
                None => Err(
                    ComputePassError {
                        scope: PassErrorScope::Dispatch { indirect: true, pipeline: None },
                        inner: ComputePassErrorInner::InvalidBuffer(buffer_id),
                    },
                ),
            },
            ComputeCommand::PushDebugGroup { color, len } => Ok(
                ArcComputeCommand::PushDebugGroup { color, len },
            ),
            ComputeCommand::PopDebugGroup => Ok(ArcComputeCommand::PopDebugGroup),
            ComputeCommand::InsertDebugMarker { color, len } => Ok(
                ArcComputeCommand::InsertDebugMarker { color, len },
            ),
            ComputeCommand::WriteTimestamp { query_set_id, query_index } => {
                match self.query_sets.get(query_set_id.0) {
                    Some(query_set) => Ok(
                        ArcComputeCommand::WriteTimestamp {
                            query_set: share(query_set),
                            query_index,
                        },
                    ),
                    None => Err(
                        ComputePassError {
                            scope: PassErrorScope::WriteTimestamp,
                            inner: ComputePassErrorInner::InvalidQuerySet(query_set_id),
                        },
                    ),
                }
            },
            ComputeCommand::BeginPipelineStatisticsQuery { query_set_id, query_index } => {
                match self.query_sets.get(query_set_id.0) {
                    Some(query_set) => Ok(
                        ArcComputeCommand::BeginPipelineStatisticsQuery {
                            query_set: share(query_set),
                            query_index,
                        },
                    ),
                    None => Err(
                        ComputePassError {
                            scope: PassErrorScope::BeginPipelineStatisticsQuery,
                            inner: ComputePassErrorInner::InvalidQuerySet(query_set_id),
                        },
                    ),
                }
            },
            ComputeCommand::EndPipelineStatisticsQuery => Ok(
                ArcComputeCommand::EndPipelineStatisticsQuery,
            ),
        }
    }

    /// Finds the objects of some commands.
    pub fn resolve_compute_command_ids(&self, commands: &[ComputeCommand]) -> (r: Result<
        Vec<ArcComputeCommand>,
        ComputePassError,
    >)
        ensures
            match resolve_all(*self, commands@, commands@.len()) {
                Ok(resolved) => r matches Ok(list) && list@ == resolved,
                Err(e) => r == Err::<Vec<ArcComputeCommand>, ComputePassError>(e),
            },
    {
        let mut resolved: Vec<ArcComputeCommand> = Vec::new();
        let mut i: usize = 0;
        while i < commands.len()
            invariant
                i <= commands.len(),
                resolve_all(*self, commands@, i as nat) == Ok::<
                    Seq<ArcComputeCommand>,
                    ComputePassError,
                >(resolved@),
            decreases commands.len() - i,
        {
            match self.resolve_compute_command(&commands[i]) {
                Ok(command) => {
                    resolved.push(command);
                },
                Err(e) => {
                    proof {
                        lemma_resolve_error_stays(
                            *self,
                            commands@,
                            (i + 1) as nat,
                            commands@.len(),
                        );
                    }
                    return Err(e);
                },
            }
            i = i + 1;
        }
        Ok(resolved)
    }
}

} // verus!
