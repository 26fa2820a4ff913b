//! Which objects and which command buffer are found, and what happens where they are not.
use crate::command::{ArcComputeCommand, BasePassRef, BaseView, ComputeCommand};
use crate::command_buffer;
use crate::command_buffer::{CommandBufferView, CommandEncoderStatus};
use crate::error::{
    CommandEncoderError, ComputePassError, ComputePassErrorInner, ErrorView, Fault, PassErrorScope,
};
use crate::global;
use crate::global::{GlobalProgress, RunPhase, WaitingView};
use crate::hub;
use crate::hub::Hub;
use crate::id::CommandEncoderId;
use crate::pass::ComputePassTimestampWrites;
use crate::storage;
use crate::trace::CommandView;
use crate::track::TrackerView;
use crate::types::InstanceFlags;
use std::sync::Arc;
use vstd::prelude::*;

verus! {

/// An object is found exactly where there is one under its number: the first one.
pub proof fn first_object_is_found<T>(entries: Seq<(u64, Arc<T>)>, id: u64, n: nat)
    requires
        n <= entries.len(),
    ensures
        match storage::lookup(entries, id, n) {
            Some(object) => exists|k: int|
                {
                    &&& 0 <= k < n
                    &&& (#[trigger] entries[k]).0 == id
                    &&& entries[k].1 == object
                    &&& forall|j: int| 0 <= j < k ==> (#[trigger] entries[j]).0 != id
                },
            None => forall|j: int| 0 <= j < n ==> (#[trigger] entries[j]).0 != id,
        },
    decreases n,
{
    if n > 0 {
        first_object_is_found(entries, id, (n - 1) as nat);
        if storage::lookup(entries, id, (n - 1) as nat) is None && entries[n - 1].0 == id {
            assert(entries[n - 1].0 == id);
        }
    }
}

/// The command names an object that does not exist, and this is the error for it.
pub open spec fn is_missing(hub: Hub, command: ComputeCommand, e: ComputePassError) -> bool {
    match command {
        ComputeCommand::SetBindGroup { index, bind_group_id, .. } => {
            &&& hub.bind_groups.object(bind_group_id.0) is None
            &&& e.scope == PassErrorScope::SetBindGroup(bind_group_id)
            &&& e.inner == ComputePassErrorInner::InvalidBindGroup(index)
        },
        ComputeCommand::SetPipeline(id) => {
            &&& hub.compute_pipelines.object(id.0) is None
            &&& e.scope == PassErrorScope::SetPipelineCompute(id)
            &&& e.inner == ComputePassErrorInner::InvalidPipeline(id)
        },
        ComputeCommand::DispatchIndirect { buffer_id, .. } => {
            &&& hub.buffers.object(buffer_id.0) is None
            &&& e.scope == (PassErrorScope::Dispatch { indirect: true, pipeline: None })
            &&& e.inner == ComputePassErrorInner::InvalidBuffer(buffer_id)
        },
        ComputeCommand::WriteTimestamp { query_set_id, .. } => {
            &&& hub.query_sets.object(query_set_id.0) is None
            &&& e.scope == PassErrorScope::WriteTimestamp
            &&& e.inner == ComputePassErrorInner::InvalidQuerySet(query_set_id)
        },
        ComputeCommand::BeginPipelineStatisticsQuery { query_set_id, .. } => {
            &&& hub.query_sets.object(query_set_id.0) is None
            &&& e.scope == PassErrorScope::BeginPipelineStatisticsQuery
            &&& e.inner == ComputePassErrorInner::InvalidQuerySet(query_set_id)
        },
        _ => false,
    }
}

/// The command holds the objects that the recorded command names, and says the same otherwise.
pub open spec fn is_found(hub: Hub, command: ComputeCommand, found: ArcComputeCommand) -> bool {
    match (command, found) {
        (
            ComputeCommand::SetBindGroup { index, num_dynamic_offsets, bind_group_id },
            ArcComputeCommand::SetBindGroup { index: at, num_dynamic_offsets: count, bind_group },
        ) => at == index && count == num_dynamic_offsets && hub.bind_groups.object(bind_group_id.0)
            == Some(bind_group),
        (ComputeCommand::SetPipeline(id), ArcComputeCommand::SetPipeline(pipeline)) =>
            hub.compute_pipelines.object(id.0) == Some(pipeline),
        (
            ComputeCommand::SetPushConstant { offset, size_bytes, values_offset },
            ArcComputeCommand::SetPushConstant { offset: at, size_bytes: size, values_offset: from },
        ) => at == offset && size == size_bytes && from == values_offset,
        (ComputeCommand::Dispatch(groups), ArcComputeCommand::Dispatch(same)) => groups == same,
        (
            ComputeCommand::DispatchIndirect { buffer_id, offset },
            ArcComputeCommand::DispatchIndirect { buffer, offset: at },
        ) => at == offset && hub.buffers.object(buffer_id.0) == Some(buffer),
        (
            ComputeCommand::PushDebugGroup { len, .. },
            ArcComputeCommand::PushDebugGroup { len: same, .. },
        ) => len == same,
        (ComputeCommand::PopDebugGroup, ArcComputeCommand::PopDebugGroup) => true,
        (
            ComputeCommand::InsertDebugMarker { len, .. },
            ArcComputeCommand::InsertDebugMarker { len: same, .. },
        ) => len == same,
        (
            ComputeCommand::WriteTimestamp { query_set_id, query_index },
            ArcComputeCommand::WriteTimestamp { query_set, query_index: same },
        ) => same == query_index && hub.query_sets.object(query_set_id.0) == Some(query_set),
        (
            ComputeCommand::BeginPipelineStatisticsQuery { query_set_id, query_index },
            ArcComputeCommand::BeginPipelineStatisticsQuery { query_set, query_index: same },
        ) => same == query_index && hub.query_sets.object(query_set_id.0) == Some(query_set),
        (
            ComputeCommand::EndPipelineStatisticsQuery,
            ArcComputeCommand::EndPipelineStatisticsQuery,
        ) => true,
        _ => false,
    }
}

/// The commands of a pass find all their objects, one command for each, or the error is that of the first one
/// that misses one.
pub proof fn objects_are_found(hub: Hub, commands: Seq<ComputeCommand>, n: nat)
    requires
        n <= commands.len(),
    ensures
        match hub::resolve_all(hub, commands, n) {
            Ok(found) => {
                &&& found.len() == n
                &&& forall|i: int|
                    0 <= i < n ==> is_found(hub, commands[i], #[trigger] found[i])
            },
            Err(e) => exists|i: int|
                {
                    &&& 0 <= i < n
                    &&& is_missing(hub, #[trigger] commands[i], e)
                    &&& hub::resolve_all(hub, commands, i as nat) is Ok
                },
        },
    decreases n,
{
    if n > 0 {
        objects_are_found(hub, commands, (n - 1) as nat);
        match hub::resolve_all(hub, commands, (n - 1) as nat) {
            Err(e) => {
                let i = choose|i: int|
                    {
                        &&& 0 <= i < n - 1
                        &&& is_missing(hub, #[trigger] commands[i], e)
                        &&& hub::resolve_all(hub, commands, i as nat) is Ok
                    };
                assert(is_missing(hub, commands[i], e));
            },
            Ok(before) => {
                if let Err(e) = hub::resolve(hub, commands[n - 1]) {
                    assert(is_missing(hub, commands[n - 1], e));
                }
            },
        }
    }
}

pub(crate) proof fn lemma_buffer_position(buffers: Seq<CommandBufferView>, id: CommandEncoderId, n: nat)
    requires
        n <= buffers.len(),
    ensures
        match global::buffer_position(buffers, id, n) {
            Some(k) => 0 <= k < n && buffers[k].id == id && forall|j: int|
                0 <= j < k ==> (#[trigger] buffers[j]).id != id,
            None => forall|j: int| 0 <= j < n ==> (#[trigger] buffers[j]).id != id,
        },
    decreases n,
{
    if n > 0 {
        lemma_buffer_position(buffers, id, (n - 1) as nat);
    }
}

/// The error is one of the pass as a whole, for this reason.
pub open spec fn is_pass_error(e: ErrorView, id: CommandEncoderId, reason: ComputePassErrorInner) -> bool {
    e.scope == PassErrorScope::Pass(id) && e.fault == Fault::Other(reason)
}

/// A run is started exactly on the first command buffer of its encoder that there is, where that is being
/// recorded into and its device is valid. The run is added to the trace, if one is kept. What was being encoded is
/// closed first; otherwise encoding begins, and the command buffer counts as failed until the pass turns out to be
/// in order. No other command buffer is touched. Everything else is an error that says truly why.
pub proof fn verdict_on_starting(buffers: Seq<CommandBufferView>, run: WaitingView)
    ensures
        match global::start_run(buffers, run) {
            GlobalProgress::Waiting(after, waiting) => exists|k: int|
                {
                    &&& 0 <= k < buffers.len()
                    &&& (#[trigger] buffers[k]).id == run.encoder_id
                    &&& forall|j: int|
                        0 <= j < k ==> (#[trigger] buffers[j]).id != run.encoder_id
                    &&& buffers[k].status == CommandEncoderStatus::Recording
                    &&& buffers[k].device.valid
                    &&& after.len() == buffers.len()
                    &&& forall|j: int|
                        0 <= j < buffers.len() && j != k ==> #[trigger] after[j] == buffers[j]
                    &&& is_begun(buffers[k], after[k], run, waiting)
                },
            GlobalProgress::Finished(after, Some(e)) => {
                &&& after == buffers
                &&& {
                    ||| {
                        &&& forall|j: int|
                            0 <= j < buffers.len() ==> (#[trigger] buffers[j]).id
                                != run.encoder_id
                        &&& is_pass_error(
                            e,
                            run.encoder_id,
                            ComputePassErrorInner::Encoder(CommandEncoderError::Invalid),
                        )
                    }
                    ||| exists|k: int|
                        {
                            &&& 0 <= k < buffers.len()
                            &&& (#[trigger] buffers[k]).id == run.encoder_id
                            &&& forall|j: int|
                                0 <= j < k ==> (#[trigger] buffers[j]).id != run.encoder_id
                            &&& is_refused(buffers[k], run.encoder_id, e)
                        }
                }
            },
            _ => false,
        },
{
    lemma_buffer_position(buffers, run.encoder_id, buffers.len());
    if let Some(k) = global::find_buffer(buffers, run.encoder_id) {
        assert(buffers[k].id == run.encoder_id);
        if let GlobalProgress::Waiting(after, waiting) = global::start_run(buffers, run) {
            assert(is_begun(buffers[k], after[k], run, waiting));
        }
    }
}

/// The command buffer, and the run, after a run was started on it.
pub open spec fn is_begun(
    before: CommandBufferView,
    after: CommandBufferView,
    run: WaitingView,
    waiting: WaitingView,
) -> bool {
    &&& after.id == before.id
    &&& after.device == before.device
    &&& after.limits == before.limits
    &&& after.list == before.list
    &&& after.recording == before.recording
    &&& after.trace == match before.trace {
        None => None,
        Some(list) => Some(
            list.push(
                CommandView::RunComputePass {
                    base: BaseView {
                        label: run.base.label,
                        commands: command_buffer::unresolved(run.commands),
                        dynamic_offsets: run.base.dynamic_offsets,
                        string_data: run.base.string_data,
                        push_constant_data: run.base.push_constant_data,
                    },
                    timestamp_writes: run.timestamp_writes,
                },
            ),
        ),
    }
    &&& if before.is_open {
        &&& !after.is_open
        &&& after.status == before.status
        &&& waiting.phase == RunPhase::ClosingEarlier
    } else {
        &&& after.is_open
        &&& after.status == CommandEncoderStatus::Error
        &&& waiting.phase == RunPhase::OpeningBody
    }
    &&& waiting.encoder_id == run.encoder_id
    &&& waiting.base == run.base
    &&& waiting.commands == run.commands
    &&& waiting.timestamp_writes == run.timestamp_writes
}

/// The command buffer cannot be recorded into, or its device is not valid, and the error says so.
pub open spec fn is_refused(buffer: CommandBufferView, id: CommandEncoderId, e: ErrorView) -> bool {
    match buffer.status {
        CommandEncoderStatus::Recording => !buffer.device.valid && is_pass_error(
            e,
            id,
            ComputePassErrorInner::InvalidDevice(buffer.device.id),
        ),
        CommandEncoderStatus::Finished => is_pass_error(
            e,
            id,
            ComputePassErrorInner::Encoder(CommandEncoderError::NotRecording),
        ),
        CommandEncoderStatus::Error => is_pass_error(
            e,
            id,
            ComputePassErrorInner::Encoder(CommandEncoderError::Invalid),
        ),
    }
}

/// The commands of a run see the limits and the device of the command buffer, the objects that exist, and the
/// streams of the pass. Labels are discarded exactly where the flags of the instance say so.
pub proof fn surroundings_are_the_right_ones(
    hub: &Hub,
    flags: InstanceFlags,
    buffer: CommandBufferView,
    base: BasePassRef<ComputeCommand>,
)
    ensures
        ({
            let env = global::pass_env(hub, flags, buffer, base);
            &&& env.limits == buffer.limits
            &&& env.features == buffer.device.features
            &&& env.downlevel_flags == buffer.device.downlevel_flags
            &&& env.discard_hal_labels == (flags & 4 != 0)
            &&& *env.bind_groups == hub.bind_groups
            &&& *env.query_sets == hub.query_sets
            &&& env.dynamic_offsets@ == base@.dynamic_offsets
            &&& env.string_data@ == base@.string_data
            &&& env.push_constant_data@ == base@.push_constant_data
        }),
{
    assert((flags & 4u32 == 4u32) == (flags & 4u32 != 0)) by (bit_vector);
}

/// A pass one of whose commands names an object that does not exist is not started: the error is that of the first
/// such command, and no command buffer is touched. Any other is started as it was recorded, with the objects that its
/// commands name.
pub proof fn verdict_on_running(
    hub: Hub,
    buffers: Seq<CommandBufferView>,
    encoder_id: CommandEncoderId,
    base: BaseView,
    writes: Option<ComputePassTimestampWrites>,
)
    ensures
        ({
            let progress = global::start_unresolved(hub, buffers, encoder_id, base, writes);
            ||| exists|i: int, e: ComputePassError|
                {
                    &&& 0 <= i < base.commands.len()
                    &&& #[trigger] is_missing(hub, base.commands[i], e)
                    &&& hub::resolve_all(hub, base.commands, i as nat) is Ok
                    &&& progress == GlobalProgress::Finished(buffers, Some(e@))
                }
            ||| exists|run: WaitingView|
                {
                    &&& progress == #[trigger] global::start_run(buffers, run)
                    &&& run.encoder_id == encoder_id
                    &&& run.base == base
                    &&& run.timestamp_writes == writes
                    &&& run.commands.len() == base.commands.len()
                    &&& forall|i: int|
                        0 <= i < base.commands.len() ==> is_found(
                            hub,
                            base.commands[i],
                            #[trigger] run.commands[i],
                        )
                    &&& run.fixups.len() == 0
                    &&& run.intermediate == TrackerView::empty()
                }
        }),
{
    let n = base.commands.len();
    objects_are_found(hub, base.commands, n);
    match hub::resolve_all(hub, base.commands, n) {
        Ok(commands) => {
            let run = global::new_run(encoder_id, base, commands, writes);
            assert(global::start_unresolved(hub, buffers, encoder_id, base, writes)
                == global::start_run(buffers, run));
        },
        Err(e) => {
            let i = choose|i: int|
                {
                    &&& 0 <= i < n
                    &&& is_missing(hub, #[trigger] base.commands[i], e)
                    &&& hub::resolve_all(hub, base.commands, i as nat) is Ok
                };
            assert(is_missing(hub, base.commands[i], e));
        },
    }
}

} // verus!
