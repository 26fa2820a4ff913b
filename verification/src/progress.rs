//! What a run does to its command buffer, from the first call to the last reply.
use crate::command_buffer;
use crate::command_buffer::{ClosedView, CommandBufferView, CommandEncoderStatus};
use crate::error::{ComputePassErrorInner, DeviceError, ErrorView, Fault, PassErrorScope};
use crate::global;
use crate::global::{
    BufferProgress, ComputePassRun, GlobalProgress, HalReply, RunPhase, WaitingView,
};
use crate::hub::Hub;
use crate::lookup;
use crate::run::{PassEnv, RecordingView, RunView, Step};
use crate::types::InstanceFlags;
use vstd::prelude::*;

verus! {

/// Where a run stands after the first `n` replies of the backend.
pub open spec fn after_replies(
    run: WaitingView,
    env: PassEnv,
    buffer: CommandBufferView,
    replies: Seq<HalReply>,
    n: nat,
) -> BufferProgress
    decreases n,
{
    if n == 0 {
        run.start(buffer)
    } else {
        match after_replies(run, env, buffer, replies, (n - 1) as nat) {
            BufferProgress::Waiting(now, waiting) => waiting.resume(env, now, replies[n - 1]),
            ended => ended,
        }
    }
}

/// The recording that the body of the pass goes into: what was recorded before is closed by then.
pub open spec fn body_start(buffer: CommandBufferView) -> RecordingView {
    if buffer.is_open {
        buffer.without_raw().recording
    } else {
        buffer.recording
    }
}

/// The body of the pass.
pub open spec fn body_of(run: WaitingView, env: PassEnv, buffer: CommandBufferView) -> Step {
    command_buffer::pass_body(
        command_buffer::run_start(body_start(buffer)),
        env,
        run.encoder_id,
        run.base.label,
        run.timestamp_writes,
        run.commands,
    )
}

/// The number of stretches of encoding that come before the pass.
pub open spec fn stretches_before(buffer: CommandBufferView) -> nat {
    if buffer.is_open {
        buffer.list.len() + 1
    } else {
        buffer.list.len()
    }
}

/// All stretches of encoding that there were are there still, in their order. What was recorded
/// before the pass, if anything, is the next one.
pub open spec fn keeps_stretches(buffer: CommandBufferView, list: Seq<ClosedView>) -> bool {
    &&& list.len() >= buffer.list.len()
    &&& forall|i: int| 0 <= i < buffer.list.len() ==> #[trigger] list[i] == buffer.list[i]
    &&& list.len() > buffer.list.len() && buffer.is_open
        ==> list[buffer.list.len() as int].commands == buffer.recording.raw
}

/// The run is noted in the trace, and what a run does not touch is untouched.
pub open spec fn is_noted(run: WaitingView, buffer: CommandBufferView, now: CommandBufferView) -> bool {
    let noted = buffer.traced(
        command_buffer::trace_of(run.base, run.commands, run.timestamp_writes),
    );
    &&& now.id == buffer.id
    &&& now.device == buffer.device
    &&& now.limits == buffer.limits
    &&& now.trace == noted.trace
}

/// What the body leaves behind, once its own calls are closed.
pub open spec fn left_behind(s: RunView) -> RecordingView {
    RecordingView { raw: Seq::empty(), ..s.out }
}

/// What a command buffer is like in the phases of a run.
spec fn in_phase(
    run: WaitingView,
    env: PassEnv,
    buffer: CommandBufferView,
    now: CommandBufferView,
    waiting: WaitingView,
) -> bool {
    let before = stretches_before(buffer);
    let s = body_of(run, env, buffer)->Done_0;
    &&& is_noted(run, buffer, now)
    &&& keeps_stretches(buffer, now.list)
    &&& match waiting.phase {
        RunPhase::ClosingEarlier => {
            &&& buffer.is_open
            &&& now.status == buffer.status
            &&& now.list == buffer.list
            &&& now.recording == buffer.recording
            &&& waiting == run.in_phase(RunPhase::ClosingEarlier)
        },
        RunPhase::OpeningBody => {
            &&& now.status == CommandEncoderStatus::Error
            &&& now.list.len() == before
            &&& now.recording == body_start(buffer)
            &&& waiting == run.in_phase(RunPhase::OpeningBody)
        },
        RunPhase::ClosingBody => {
            &&& body_of(run, env, buffer) is Done
            &&& now.status == CommandEncoderStatus::Recording
            &&& now.list.len() == before
            &&& now.recording == s.out
            &&& waiting.encoder_id == run.encoder_id
            &&& waiting.intermediate == s.intermediate
            &&& waiting.fixups == s.fixups
        },
        RunPhase::OpeningTransit => {
            &&& body_of(run, env, buffer) is Done
            &&& now.status == CommandEncoderStatus::Recording
            &&& now.list.len() == before + 1
            &&& now.list[before as int].commands == s.out.raw
            &&& now.recording == left_behind(s)
            &&& waiting.encoder_id == run.encoder_id
            &&& waiting.intermediate == s.intermediate
            &&& waiting.fixups == s.fixups
        },
        RunPhase::ClosingTransit => {
            &&& body_of(run, env, buffer) is Done
            &&& now.status == CommandEncoderStatus::Recording
            &&& !now.is_open
            &&& now.list.len() == before + 1
            &&& now.list[before as int].commands == s.out.raw
            &&& now.recording == left_behind(s).transit(s.intermediate, s.fixups)
            &&& waiting.encoder_id == run.encoder_id
        },
    }
}

/// The pass is part of the command buffer: its body is the last stretch of encoding, and the clears
/// and transitions that the body relies on are the stretch before it. The command buffer can be
/// recorded into again.
pub open spec fn is_recorded(
    run: WaitingView,
    env: PassEnv,
    buffer: CommandBufferView,
    now: CommandBufferView,
) -> bool {
    let before = stretches_before(buffer);
    let s = body_of(run, env, buffer)->Done_0;
    let transit = left_behind(s).transit(s.intermediate, s.fixups);
    &&& body_of(run, env, buffer) is Done
    &&& now.status == CommandEncoderStatus::Recording
    &&& !now.is_open
    &&& now.list.len() == before + 2
    &&& now.list[before as int].commands == transit.raw
    &&& now.list[before as int + 1].commands == s.out.raw
    &&& now.recording == (RecordingView { raw: Seq::empty(), ..transit })
}

/// The run failed. Where a command of the pass was the reason, the command buffer is of no use any
/// more, and holds nothing of the pass; everywhere else the backend was the reason.
pub open spec fn is_abandoned(
    run: WaitingView,
    env: PassEnv,
    buffer: CommandBufferView,
    now: CommandBufferView,
    error: ErrorView,
) -> bool {
    match body_of(run, env, buffer) {
        Step::Failed(s, e) => {
            ||| error == e && now.status == CommandEncoderStatus::Error && now.list.len()
                == stretches_before(buffer) && now.recording == s.out
            ||| exists|reason| error == #[trigger] global::device_error(
                run.encoder_id,
                reason,
            )
        },
        _ => exists|reason|
            error == #[trigger] global::device_error(run.encoder_id, reason),
    }
}

proof fn lemma_in_phase_resumes(
    run: WaitingView,
    env: PassEnv,
    buffer: CommandBufferView,
    now: CommandBufferView,
    waiting: WaitingView,
    reply: HalReply,
)
    requires
        in_phase(run, env, buffer, now, waiting),
    ensures
        is_accounted_for(run, env, buffer, waiting.resume(env, now, reply)),
{
    match (waiting.phase, reply) {
        (RunPhase::ClosingEarlier, HalReply::Ended(Ok(handle))) => {
            assert(now.close(handle).recording == body_start(buffer));
        },
        (RunPhase::OpeningBody, HalReply::Begun(Ok(_))) => {},
        (RunPhase::ClosingBody, HalReply::Ended(Ok(handle))) => {
            assert(now.close(handle).recording =~= left_behind(
                body_of(run, env, buffer)->Done_0,
            ));
        },
        (RunPhase::ClosingTransit, HalReply::Ended(Ok(handle))) => {
            let after = now.close_and_swap(handle);
            let before = stretches_before(buffer);
            assert(after.list[before as int].commands == now.recording.raw);
            assert(after.list[before as int + 1] == now.list[before as int]);
        },
        (_, HalReply::Ended(Err(e))) => {
            assert(global::device_error(run.encoder_id, e) == global::device_error(
                waiting.encoder_id,
                e,
            ));
        },
        (_, HalReply::Begun(Err(e))) => {
            assert(global::device_error(run.encoder_id, e) == global::device_error(
                waiting.encoder_id,
                e,
            ));
        },
        _ => {},
    }
}

/// What is said of a run wherever it stands.
spec fn is_accounted_for(
    run: WaitingView,
    env: PassEnv,
    buffer: CommandBufferView,
    progress: BufferProgress,
) -> bool {
    match progress {
        BufferProgress::Waiting(now, waiting) => in_phase(run, env, buffer, now, waiting),
        BufferProgress::Finished(now, None) => {
            &&& is_noted(run, buffer, now)
            &&& keeps_stretches(buffer, now.list)
            &&& is_recorded(run, env, buffer, now)
        },
        BufferProgress::Finished(now, Some(error)) => {
            &&& is_noted(run, buffer, now)
            &&& keeps_stretches(buffer, now.list)
            &&& is_abandoned(run, env, buffer, now, error)
        },
        BufferProgress::Stuck => true,
    }
}

proof fn lemma_accounted_for(
    run: WaitingView,
    env: PassEnv,
    buffer: CommandBufferView,
    replies: Seq<HalReply>,
    n: nat,
)
    ensures
        is_accounted_for(run, env, buffer, after_replies(run, env, buffer, replies, n)),
    decreases n,
{
    if n > 0 {
        lemma_accounted_for(run, env, buffer, replies, (n - 1) as nat);
        if let BufferProgress::Waiting(now, waiting) = after_replies(
            run,
            env,
            buffer,
            replies,
            (n - 1) as nat,
        ) {
            lemma_in_phase_resumes(run, env, buffer, now, waiting, replies[n - 1]);
        }
    }
}

/// A run that finishes without an error has put the pass into the command buffer, behind everything
/// that was there, and leaves the command buffer ready for more. The pass consists of two stretches
/// of encoding: first what has to happen before the pass, then its body.
pub proof fn finished_pass_is_recorded(
    run: WaitingView,
    env: PassEnv,
    buffer: CommandBufferView,
    replies: Seq<HalReply>,
    n: nat,
)
    ensures
        after_replies(run, env, buffer, replies, n) matches BufferProgress::Finished(now, None)
            ==> {
            &&& is_noted(run, buffer, now)
            &&& keeps_stretches(buffer, now.list)
            &&& is_recorded(run, env, buffer, now)
        },
{
    lemma_accounted_for(run, env, buffer, replies, n);
}

/// A run that finishes with an error leaves everything that was in the command buffer where it was.
/// The error is that of the body of the pass, and then the command buffer is of no use any more, or
/// one of the backend.
pub proof fn failed_pass_is_abandoned(
    run: WaitingView,
    env: PassEnv,
    buffer: CommandBufferView,
    replies: Seq<HalReply>,
    n: nat,
)
    ensures
        after_replies(run, env, buffer, replies, n) matches BufferProgress::Finished(
            now,
            Some(error),
        ) ==> {
            &&& is_noted(run, buffer, now)
            &&& keeps_stretches(buffer, now.list)
            &&& is_abandoned(run, env, buffer, now, error)
        },
{
    lemma_accounted_for(run, env, buffer, replies, n);
}

/// Resuming a run with the next reply of the backend takes it one step further, and touches no command
/// buffer but its own. All its steps see the same objects and limits.
pub proof fn resuming_continues_the_run(
    hub: &Hub,
    flags: InstanceFlags,
    buffers: Seq<CommandBufferView>,
    k: int,
    now: ComputePassRun,
    run: WaitingView,
    buffer: CommandBufferView,
    replies: Seq<HalReply>,
    n: nat,
)
    requires
        global::find_buffer(buffers, now.encoder_id) == Some(k),
        after_replies(
            run,
            global::pass_env(hub, flags, buffer, now.base),
            buffer,
            replies,
            n,
        ) == BufferProgress::Waiting(buffers[k], now@),
    ensures
        global::resume_run(hub, flags, buffers, now, replies[n as int]) == global::at_buffer(
            buffers,
            k,
            after_replies(
                run,
                global::pass_env(hub, flags, buffer, now.base),
                buffer,
                replies,
                n + 1,
            ),
        ),
{
    let env = global::pass_env(hub, flags, buffer, now.base);
    lemma_accounted_for(run, env, buffer, replies, n);
    assert(global::pass_env(hub, flags, buffers[k], now.base) == env);
}

/// The replies that a run asks for, where the backend never fails.
pub open spec fn all_goes_well(buffer: CommandBufferView, replies: Seq<HalReply>) -> bool {
    let skipped: int = if buffer.is_open {
        1
    } else {
        0
    };
    &&& replies.len() == skipped + 4
    &&& forall|i: int|
        0 <= i < replies.len() ==> match #[trigger] replies[i] {
            HalReply::Ended(reply) => reply is Ok && (i - skipped == -1 || i - skipped == 1 || i
                - skipped == 3),
            HalReply::Begun(reply) => reply is Ok && (i - skipped == 0 || i - skipped == 2),
        }
}

/// Where the backend never fails, it depends on the body of the pass alone whether the run succeeds:
/// a body without errors ends up in the command buffer, and the error of any other is the error of
/// the run.
pub proof fn body_decides(
    run: WaitingView,
    env: PassEnv,
    buffer: CommandBufferView,
    replies: Seq<HalReply>,
)
    requires
        all_goes_well(buffer, replies),
    ensures
        match body_of(run, env, buffer) {
            Step::Done(_) => after_replies(run, env, buffer, replies, replies.len()) matches
                BufferProgress::Finished(_, None),
            Step::Failed(_, e) => after_replies(run, env, buffer, replies, replies.len()) matches
                BufferProgress::Finished(_, Some(error)) && error == e,
            Step::Stuck => after_replies(run, env, buffer, replies, replies.len()) is Stuck,
        },
{
    reveal_with_fuel(after_replies, 6);
    if buffer.is_open {
        assert(replies[0] is Ended && replies[1] is Begun && replies[2] is Ended && replies[3]
            is Begun && replies[4] is Ended);
    } else {
        assert(replies[0] is Begun && replies[1] is Ended && replies[2] is Begun && replies[3]
            is Ended);
    }
    lemma_accounted_for(run, env, buffer, replies, 1);
    lemma_accounted_for(run, env, buffer, replies, 2);
    lemma_accounted_for(run, env, buffer, replies, 3);
    lemma_accounted_for(run, env, buffer, replies, 4);
}

/// Where the backend never fails, the stretches of encoding carry the handles that the backend gave them: the body
/// of the pass the one that it was closed with, and what comes before it the one of the last reply.
pub proof fn stretches_carry_their_handles(
    run: WaitingView,
    env: PassEnv,
    buffer: CommandBufferView,
    replies: Seq<HalReply>,
)
    requires
        all_goes_well(buffer, replies),
    ensures
        after_replies(run, env, buffer, replies, replies.len()) matches BufferProgress::Finished(
            now,
            None,
        ) ==> ({
            let n = now.list.len();
            let m = replies.len();
            &&& n >= 2
            &&& HalReply::Ended(Ok(now.list[n - 1].handle)) == replies[m - 3]
            &&& HalReply::Ended(Ok(now.list[n - 2].handle)) == replies[m - 1]
            &&& buffer.is_open ==> n >= 3 && HalReply::Ended(Ok(now.list[n - 3].handle))
                == replies[0]
        }),
{
    reveal_with_fuel(after_replies, 6);
    if buffer.is_open {
        assert(replies[0] is Ended && replies[1] is Begun && replies[2] is Ended && replies[3]
            is Begun && replies[4] is Ended);
    } else {
        assert(replies[0] is Begun && replies[1] is Ended && replies[2] is Begun && replies[3]
            is Ended);
    }
    finished_pass_is_recorded(run, env, buffer, replies, replies.len());
}

/// What a command buffer keeps whatever the backend replies.
pub open spec fn is_same_buffer(before: CommandBufferView, after: CommandBufferView) -> bool {
    &&& after.id == before.id
    &&& after.device == before.device
    &&& after.limits == before.limits
    &&& after.trace == before.trace
}

/// The error of the backend becomes that of the pass, as it is.
pub open spec fn is_error_of_backend(error: Option<ErrorView>, run: WaitingView, reason: DeviceError) -> bool {
    error == Some(
        ErrorView {
            scope: PassErrorScope::Pass(run.encoder_id),
            fault: Fault::Other(ComputePassErrorInner::Device(reason)),
        },
    )
}

/// An error of the backend ends a run: it becomes the error of the pass, and nothing but the calls of a stretch of
/// encoding that could not be ended is lost. Where the backend does what it was asked to, what was encoded becomes
/// the last stretch, or for the clears and transitions of the pass the one before, under the handle that the
/// backend gave it, and the run goes on with the next phase.
pub proof fn verdict_on_replies(
    run: WaitingView,
    env: PassEnv,
    buffer: CommandBufferView,
    reply: HalReply,
)
    ensures
        match (reply, run.resume(env, buffer, reply)) {
            (HalReply::Ended(Err(reason)), BufferProgress::Finished(after, error)) => {
                &&& is_error_of_backend(error, run, reason)
                &&& is_same_buffer(buffer, after)
                &&& after.status == buffer.status
                &&& after.list == buffer.list
                &&& after.recording.raw.len() == 0
                &&& after.recording.trackers == buffer.recording.trackers
            },
            (HalReply::Begun(Err(reason)), BufferProgress::Finished(after, error)) => {
                &&& is_error_of_backend(error, run, reason)
                &&& after == buffer
            },
            (HalReply::Ended(Ok(handle)), BufferProgress::Waiting(after, next)) => {
                &&& is_same_buffer(buffer, after)
                &&& after.list.len() == buffer.list.len() + 1
                &&& forall|i: int|
                    0 <= i < buffer.list.len() ==> #[trigger] after.list[i] == buffer.list[i]
                &&& after.list.last().handle == handle
                &&& after.list.last().commands == buffer.recording.raw
                &&& after.recording.raw.len() == 0
                &&& after.is_open
                &&& {
                    ||| run.phase == RunPhase::ClosingEarlier && next.phase
                        == RunPhase::OpeningBody && after.status == CommandEncoderStatus::Error
                    ||| run.phase == RunPhase::ClosingBody && next.phase
                        == RunPhase::OpeningTransit && after.status == buffer.status
                }
                &&& next.intermediate == run.intermediate
                &&& next.fixups == run.fixups
            },
            (HalReply::Ended(Ok(handle)), BufferProgress::Finished(after, error)) => {
                let n = buffer.list.len();
                &&& run.phase == RunPhase::ClosingTransit
                &&& error is None
                &&& n > 0
                &&& is_same_buffer(buffer, after)
                &&& after.status == buffer.status
                &&& after.list.len() == n + 1
                &&& forall|i: int|
                    0 <= i < n - 1 ==> #[trigger] after.list[i] == buffer.list[i]
                &&& after.list[n as int] == buffer.list[n - 1]
                &&& after.list[n - 1].handle == handle
                &&& after.list[n - 1].commands == buffer.recording.raw
                &&& after.recording.raw.len() == 0
            },
            (HalReply::Begun(Ok(_)), BufferProgress::Waiting(after, next)) => {
                &&& is_same_buffer(buffer, after)
                &&& after.list == buffer.list
                &&& !after.is_open
                &&& {
                    ||| run.phase == RunPhase::OpeningBody && next.phase == RunPhase::ClosingBody
                        && after.status == CommandEncoderStatus::Recording
                    ||| run.phase == RunPhase::OpeningTransit && next.phase
                        == RunPhase::ClosingTransit && after.status == buffer.status
                }
            },
            (HalReply::Begun(Ok(_)), BufferProgress::Finished(after, error)) => {
                &&& run.phase == RunPhase::OpeningBody
                &&& error is Some
                &&& is_same_buffer(buffer, after)
                &&& after.status == buffer.status
                &&& after.list == buffer.list
            },
            (HalReply::Ended(Err(_)), BufferProgress::Waiting(_, _)) => false,
            (HalReply::Begun(Err(_)), BufferProgress::Waiting(_, _)) => false,
            (_, BufferProgress::Stuck) => true,
        },
        // A reply to the call that was made is not passed over.
        reply is Ended && run.phase != RunPhase::OpeningBody && run.phase
            != RunPhase::OpeningTransit && (reply == HalReply::Ended(reply->Ended_0)
            && reply->Ended_0 is Err || run.phase != RunPhase::ClosingTransit || buffer.list.len()
            > 0) ==> !(run.resume(env, buffer, reply) is Stuck),
        reply matches HalReply::Begun(Err(_)) ==> (run.phase == RunPhase::OpeningBody || run.phase
            == RunPhase::OpeningTransit ==> !(run.resume(env, buffer, reply) is Stuck)),
{
}

/// Resuming a run leaves all command buffers but its own as they are, and all of them where they are. Its own is
/// the first one of its encoder, and sees the reply that the backend gave.
pub proof fn other_buffers_are_left_alone(
    hub: &Hub,
    flags: InstanceFlags,
    buffers: Seq<CommandBufferView>,
    run: ComputePassRun,
    reply: HalReply,
    k: int,
)
    requires
        0 <= k < buffers.len(),
        buffers[k].id == run.encoder_id,
        forall|i: int| 0 <= i < k ==> (#[trigger] buffers[i]).id != run.encoder_id,
    ensures
        ({
            let own = run@.resume(
                global::pass_env(hub, flags, buffers[k], run.base),
                buffers[k],
                reply,
            );
            match global::resume_run(hub, flags, buffers, run, reply) {
                GlobalProgress::Waiting(after, next) => {
                    &&& after.len() == buffers.len()
                    &&& forall|i: int|
                        0 <= i < buffers.len() && i != k ==> #[trigger] after[i] == buffers[i]
                    &&& own == BufferProgress::Waiting(after[k], next)
                },
                GlobalProgress::Finished(after, error) => {
                    &&& after.len() == buffers.len()
                    &&& forall|i: int|
                        0 <= i < buffers.len() && i != k ==> #[trigger] after[i] == buffers[i]
                    &&& own == BufferProgress::Finished(after[k], error)
                },
                GlobalProgress::Stuck => own is Stuck,
            }
        }),
{
    lookup::lemma_buffer_position(buffers, run.encoder_id, buffers.len());
}

/// Nothing is bound, no pipeline is set, no resource is in use, no debug group is open, no query is active, and
/// nothing was taken from the streams.
pub open spec fn is_fresh(start: RunView) -> bool {
    &&& start.binder.layout is None
    &&& forall|i: int|
        0 <= i < start.binder.payloads.len() ==> (#[trigger] start.binder.payloads[i]).group is None
            && start.binder.payloads[i].late.len() == 0
    &&& start.pipeline is None
    &&& start.scope.buffers.len() == 0
    &&& start.scope.textures.len() == 0
    &&& start.debug_scope_depth == 0
    &&& start.dynamic_offset_count == 0
    &&& start.string_offset == 0
    &&& start.active_query is None
    &&& start.intermediate.buffers.uses.len() == 0
    &&& start.intermediate.buffers.pending.len() == 0
    &&& start.intermediate.textures.uses.len() == 0
    &&& start.intermediate.textures.pending.len() == 0
    &&& start.fixups.len() == 0
}

/// A pass begins afresh, whatever came before it in the command buffer. It keeps alive, and takes care of, all that
/// the command buffer did.
pub proof fn passes_begin_afresh(run: WaitingView, env: PassEnv, buffer: CommandBufferView)
    ensures
        exists|start: RunView|
            {
                &&& #[trigger] is_fresh(start)
                &&& start.out.trackers == buffer.recording.trackers
                &&& start.out.buffer_inits == buffer.recording.buffer_inits
                &&& start.out.texture_memory == buffer.recording.texture_memory
                &&& body_of(run, env, buffer) == command_buffer::pass_body(
                    start,
                    env,
                    run.encoder_id,
                    run.base.label,
                    run.timestamp_writes,
                    run.commands,
                )
            },
{
    assert(is_fresh(command_buffer::run_start(body_start(buffer))));
}

} // verus!
