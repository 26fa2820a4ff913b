//! Whether labels are discarded makes no difference to the result of a run.
use crate::command::{ArcComputeCommand, BaseView};
use crate::command_buffer;
use crate::command_buffer::CommandBufferView;
use crate::global::{BufferProgress, HalReply, RunPhase, WaitingView};
use crate::history;
use crate::history::PassCall;
use crate::id::CommandEncoderId;
use crate::pass;
use crate::pass::{ComputePassTimestampWrites, PassView};
use crate::progress;
use crate::rehearsal;
use crate::replay;
use crate::run::{PassEnv, RunView, Step};
use crate::transcript;
use crate::transcript::Topic;
use crate::warrant;
use vstd::prelude::*;

verus! {

/// The same surroundings, with labels discarded or not.
pub open spec fn with_discard<'a>(env: PassEnv<'a>, discard: bool) -> PassEnv<'a> {
    PassEnv { discard_hal_labels: discard, ..env }
}

proof fn lemma_label_is_there(env: PassEnv, base: BaseView, i: int)
    requires
        base.streams_fit(),
        0 <= i < base.commands.len(),
        env.string_data@ == base.string_data,
    ensures
        pass::bytes_before(base.commands, i as nat) + pass::bytes_taken(base.commands[i])
            <= env.string_data@.len(),
        vstd::utf8::valid_utf8(base.string_of(i)),
        base.string_data.len() <= usize::MAX,
{
    pass::lemma_taken_grows(base.commands, (i + 1) as nat, base.commands.len());
    assert(env.string_data@.len() == env.string_data.len());
}

/// A command ends alike whether labels are discarded or not, as long as its label is text.
proof fn lemma_step_alike(
    a: RunView,
    b: RunView,
    env: PassEnv,
    command: ArcComputeCommand,
    base: BaseView,
    i: int,
)
    requires
        rehearsal::are_alike(a, b),
        base.streams_fit(),
        0 <= i < base.commands.len(),
        command.unresolved() == base.commands[i],
        env.string_data@ == base.string_data,
        a.string_offset == pass::bytes_before(base.commands, i as nat),
    ensures
        rehearsal::end_alike(
            a.step(with_discard(env, true), command),
            b.step(with_discard(env, false), command),
        ),
{
    lemma_label_is_there(env, base, i);
    match command {
        ArcComputeCommand::PushDebugGroup { .. } => {},
        ArcComputeCommand::PopDebugGroup => {},
        ArcComputeCommand::InsertDebugMarker { .. } => {},
        _ => {
            assert(a.step(with_discard(env, true), command) == a.step(
                with_discard(env, false),
                command,
            ));
            rehearsal::steps_of_alike_runs_end_alike(a, b, with_discard(env, false), command);
        },
    }
}

proof fn lemma_steps_alike(
    a: RunView,
    b: RunView,
    env: PassEnv,
    commands: Seq<ArcComputeCommand>,
    base: BaseView,
    n: nat,
)
    requires
        n <= commands.len(),
        rehearsal::are_alike(a, b),
        replay::at_the_beginning(a),
        base.streams_fit(),
        replay::is_run_of(env, commands, base),
    ensures
        rehearsal::end_alike(
            a.steps(with_discard(env, true), commands, n),
            b.steps(with_discard(env, false), commands, n),
        ),
    decreases n,
{
    if n > 0 {
        lemma_steps_alike(a, b, env, commands, base, (n - 1) as nat);
        let left = a.steps(with_discard(env, true), commands, (n - 1) as nat);
        let right = b.steps(with_discard(env, false), commands, (n - 1) as nat);
        if let (Step::Done(s), Step::Done(t)) = (left, right) {
            replay::streams_are_taken_in_order(
                a,
                with_discard(env, true),
                commands,
                (n - 1) as nat,
            );
            assert(command_buffer::unresolved(commands)[n - 1] == commands[n - 1].unresolved());
            lemma_step_alike(s, t, env, commands[n - 1], base, n - 1);
        }
    }
}

/// The body of a recorded pass ends alike whether labels are discarded or not: with the same error, or
/// without one. In particular a debug group that is not open cannot be closed either way.
pub proof fn labels_do_not_matter_to_the_body(
    start: RunView,
    env: PassEnv,
    encoder_id: CommandEncoderId,
    label: Option<Seq<char>>,
    writes: Option<ComputePassTimestampWrites>,
    commands: Seq<ArcComputeCommand>,
    base: BaseView,
)
    requires
        replay::at_the_beginning(start),
        base.streams_fit(),
        replay::is_run_of(env, commands, base),
    ensures
        rehearsal::end_alike(
            command_buffer::pass_body(
                start,
                with_discard(env, true),
                encoder_id,
                label,
                writes,
                commands,
            ),
            command_buffer::pass_body(
                start,
                with_discard(env, false),
                encoder_id,
                label,
                writes,
                commands,
            ),
        ),
{
    let left = command_buffer::begin_pass(
        start,
        with_discard(env, true),
        encoder_id,
        label,
        writes,
    );
    let right = command_buffer::begin_pass(
        start,
        with_discard(env, false),
        encoder_id,
        label,
        writes,
    );
    if let (Step::Done(a), Step::Done(b)) = (left, right) {
        lemma_steps_alike(a, b, env, commands, base, commands.len());
    }
}

/// Where labels are discarded, no command of the pass makes the backend begin, end or insert a marker, also
/// not in a pass that fails.
pub proof fn discarded_labels_are_not_seen(
    start: RunView,
    env: PassEnv,
    encoder_id: CommandEncoderId,
    label: Option<Seq<char>>,
    writes: Option<ComputePassTimestampWrites>,
    commands: Seq<ArcComputeCommand>,
)
    requires
        env.discard_hal_labels,
    ensures
        warrant::reached(
            command_buffer::pass_body(start, env, encoder_id, label, writes, commands),
        ) matches Some(t) ==> forall|p: int|
            start.out.raw.len() <= p < t.out.raw.len() ==> !transcript::is_about(
                Topic::Markers,
                #[trigger] t.out.raw[p],
            ),
{
    if let Step::Done(begun) = command_buffer::begin_pass(start, env, encoder_id, label, writes) {
        warrant::every_call_is_warranted(begun, env, commands, commands.len());
        if let Some(t) = warrant::reached(begun.steps(env, commands, commands.len())) {
            assert forall|p: int| start.out.raw.len() <= p < t.out.raw.len() implies
                !transcript::is_about(Topic::Markers, #[trigger] t.out.raw[p]) by {
                if p < begun.out.raw.len() {
                    assert(t.out.raw[p] == begun.out.raw[p]);
                } else {
                    let i = choose|i: int|
                        0 <= i < commands.len() && warrant::warrants(
                            env,
                            #[trigger] commands[i],
                            t.out.raw[p],
                        );
                    assert(warrant::warrants(env, commands[i], t.out.raw[p]));
                }
            }
        }
    }
}

/// Two runs stand at the same point: they wait for the same call, or are finished with the same result.
pub open spec fn stand_alike(a: BufferProgress, b: BufferProgress) -> bool {
    match (a, b) {
        (BufferProgress::Waiting(_, s), BufferProgress::Waiting(_, t)) => s.phase == t.phase,
        (BufferProgress::Finished(_, e), BufferProgress::Finished(_, f)) => e == f,
        (BufferProgress::Stuck, BufferProgress::Stuck) => true,
        _ => false,
    }
}

/// What two runs of one pass have in common: everything up to the body, and after that as much as
/// decides how they go on.
spec fn go_alike(a: BufferProgress, b: BufferProgress, run: WaitingView) -> bool {
    match (a, b) {
        (BufferProgress::Waiting(x, s), BufferProgress::Waiting(y, t)) => {
            &&& s.phase == t.phase
            &&& s.encoder_id == t.encoder_id
            &&& x.list.len() == y.list.len()
            &&& s.phase == RunPhase::ClosingEarlier || s.phase == RunPhase::OpeningBody ==> {
                &&& x == y
                &&& s == t
                &&& s == run.in_phase(s.phase)
            }
        },
        _ => stand_alike(a, b),
    }
}

proof fn lemma_resume_alike(
    a: BufferProgress,
    b: BufferProgress,
    run: WaitingView,
    env: PassEnv,
    reply: HalReply,
)
    requires
        run.base.streams_fit(),
        replay::is_run_of(env, run.commands, run.base),
        go_alike(a, b, run),
        a is Waiting,
    ensures
        go_alike(
            a->Waiting_1.resume(with_discard(env, true), a->Waiting_0, reply),
            b->Waiting_1.resume(with_discard(env, false), b->Waiting_0, reply),
            run,
        ),
{
    let waiting = a->Waiting_1;
    if waiting.phase == RunPhase::OpeningBody {
        labels_do_not_matter_to_the_body(
            command_buffer::run_start(a->Waiting_0.recording),
            env,
            waiting.encoder_id,
            waiting.base.label,
            waiting.timestamp_writes,
            waiting.commands,
            run.base,
        );
    }
}

proof fn lemma_runs_go_alike(
    run: WaitingView,
    env: PassEnv,
    buffer: CommandBufferView,
    replies: Seq<HalReply>,
    n: nat,
)
    requires
        run.base.streams_fit(),
        replay::is_run_of(env, run.commands, run.base),
    ensures
        go_alike(
            progress::after_replies(run, with_discard(env, true), buffer, replies, n),
            progress::after_replies(run, with_discard(env, false), buffer, replies, n),
            run,
        ),
    decreases n,
{
    if n > 0 {
        lemma_runs_go_alike(run, env, buffer, replies, (n - 1) as nat);
        let a = progress::after_replies(
            run,
            with_discard(env, true),
            buffer,
            replies,
            (n - 1) as nat,
        );
        let b = progress::after_replies(
            run,
            with_discard(env, false),
            buffer,
            replies,
            (n - 1) as nat,
        );
        if a is Waiting {
            lemma_resume_alike(a, b, run, env, replies[n - 1]);
        }
    }
}

/// A run of a recorded pass has the same result whether labels are discarded or not, whatever the backend
/// replies, and waits for the same calls on the way.
pub proof fn labels_do_not_matter(
    run: WaitingView,
    env: PassEnv,
    buffer: CommandBufferView,
    replies: Seq<HalReply>,
    n: nat,
    start: PassView,
    calls: Seq<PassCall>,
)
    requires
        start.is_new(),
        start.allows_all(calls),
        run.base == start.after_all(calls, calls.len()).base,
        replay::is_run_of(env, run.commands, run.base),
    ensures
        stand_alike(
            progress::after_replies(run, with_discard(env, true), buffer, replies, n),
            progress::after_replies(run, with_discard(env, false), buffer, replies, n),
        ),
{
    history::recording_is_faithful(start, calls, calls.len());
    lemma_runs_go_alike(run, env, buffer, replies, n);
}

} // verus!
