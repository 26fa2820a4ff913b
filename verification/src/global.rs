//! Running a compute pass on a command encoder.
//!
//! A run alternates between looking at the pass and waiting for the graphics backend, which begins
//! and ends stretches of encoding and may fail to. It is started by
//! [`Global::command_encoder_run_compute_pass`] and continued with the reply of the backend by
//! [`Global::resume_compute_pass`] until it is finished. Before the backend ends a stretch of
//! encoding, the calls in the recording of the command buffer are made on it.
use crate::command::{ArcComputeCommand, BasePassRef, BaseView, ComputeCommand};
use crate::command_buffer;
use crate::command_buffer::{
    run_pass_body, CommandBuffer, CommandBufferView, CommandEncoderStatus, Device,
};
use crate::error::{
    CommandEncoderError, ComputePassError, ComputePassErrorInner, DeviceError, ErrorView, Fault,
    PassErrorScope,
};
use crate::hub;
use crate::hub::Hub;
use crate::id::{CommandEncoderId, RawHandle};
use crate::memory_init::TextureSurfaceDiscard;
use crate::outcome;
use crate::outcome::check_writes;
use crate::pass;
use crate::pass::{ComputePass, ComputePassTimestampWrites};
use crate::rehearsal::has_outcome;
use crate::run::{PassEnv, PassRecorder, Step};
use crate::track::{Tracker, TrackerView};
use crate::types;
use crate::types::{contains_flags, InstanceFlags, Limits, DISCARD_HAL_LABELS};
use vstd::prelude::*;

verus! {

/// What a run waits for.
#[derive(Clone, Copy, Debug, PartialEq, Eq, Structural)]
pub enum RunPhase {
    /// What was recorded before the pass is being closed.
    ClosingEarlier,
    /// The stretch of encoding for the commands of the pass is being opened.
    OpeningBody,
    /// The stretch of encoding for the commands of the pass is being closed.
    ClosingBody,
    /// The stretch of encoding that comes before the pass is being opened.
    OpeningTransit,
    /// The stretch of encoding that comes before the pass is being closed.
    ClosingTransit,
}

/// What the backend is asked to do.
#[derive(Clone, Copy, Debug, PartialEq, Eq, Structural)]
pub enum HalCall {
    /// Make the recorded calls, then end the stretch of encoding.
    EndEncoding,
    /// Begin a stretch of encoding.
    BeginEncoding,
}

/// What the backend replies.
#[derive(Clone, Copy, Debug, PartialEq, Eq)]
pub enum HalReply {
    Ended(Result<RawHandle, DeviceError>),
    Begun(Result<(), DeviceError>),
}

/// The call that a run in some phase waits for.
pub open spec fn call_of(phase: RunPhase) -> HalCall {
    match phase {
        RunPhase::ClosingEarlier => HalCall::EndEncoding,
        RunPhase::OpeningBody => HalCall::BeginEncoding,
        RunPhase::ClosingBody => HalCall::EndEncoding,
        RunPhase::OpeningTransit => HalCall::BeginEncoding,
        RunPhase::ClosingTransit => HalCall::EndEncoding,
    }
}

/// The reply is one to the call.
pub open spec fn replies_to(reply: HalReply, call: HalCall) -> bool {
    match call {
        HalCall::EndEncoding => reply is Ended,
        HalCall::BeginEncoding => reply is Begun,
    }
}

/// A run of a compute pass that waits for the backend.
#[derive(Debug)]
pub struct ComputePassRun<'a> {
    pub encoder_id: CommandEncoderId,
    pub base: BasePassRef<'a, ComputeCommand>,
    pub commands: Vec<ArcComputeCommand>,
    pub timestamp_writes: Option<ComputePassTimestampWrites>,
    pub phase: RunPhase,
    /// The uses of the resources by the dispatches of the pass, once they are known.
    pub intermediate_trackers: Tracker,
    /// The surfaces that have to be cleared before the pass, once they are known.
    pub pending_discard_init_fixups: Vec<TextureSurfaceDiscard>,
}

/// The contents of a [`ComputePassRun`].
#[verifier::ext_equal]
pub struct WaitingView {
    pub encoder_id: CommandEncoderId,
    pub base: BaseView,
    pub commands: Seq<ArcComputeCommand>,
    pub timestamp_writes: Option<ComputePassTimestampWrites>,
    pub phase: RunPhase,
    pub intermediate: TrackerView,
    pub fixups: Seq<TextureSurfaceDiscard>,
}

impl<'a> View for ComputePassRun<'a> {
    type V = WaitingView;

    open spec fn view(&self) -> WaitingView {
        WaitingView {
            encoder_id: self.encoder_id,
            base: self.base@,
            commands: self.commands@,
            timestamp_writes: self.timestamp_writes,
            phase: self.phase,
            intermediate: self.intermediate_trackers@,
            fixups: self.pending_discard_init_fixups@,
        }
    }
}

/// Where a run stands.
#[derive(Debug)]
pub enum Progress<'a> {
    /// The backend has to make a call, and the run is to be resumed with its reply.
    Waiting(ComputePassRun<'a>, HalCall),
    Finished(Result<(), ComputePassError>),
}

/// Where a run stands with a command buffer.
pub enum BufferProgress {
    Waiting(CommandBufferView, WaitingView),
    Finished(CommandBufferView, Option<ErrorView>),
    /// The run has no outcome.
    Stuck,
}

/// An error that concerns the pass as a whole.
pub open spec fn pass_error(encoder_id: CommandEncoderId, inner: ComputePassErrorInner) -> ErrorView {
    ErrorView { scope: PassErrorScope::Pass(encoder_id), fault: Fault::Other(inner) }
}

/// The backend failed.
pub open spec fn device_error(encoder_id: CommandEncoderId, error: DeviceError) -> ErrorView {
    pass_error(encoder_id, ComputePassErrorInner::Device(error))
}

/// What the commands of a pass can look at.
pub open spec fn pass_env<'a>(
    hub: &'a Hub,
    flags: InstanceFlags,
    buffer: CommandBufferView,
    base: BasePassRef<'a, ComputeCommand>,
) -> PassEnv<'a> {
    PassEnv {
        limits: buffer.limits,
        features: buffer.device.features,
        downlevel_flags: buffer.device.downlevel_flags,
        discard_hal_labels: types::has_flags(flags, DISCARD_HAL_LABELS),
        bind_groups: &hub.bind_groups,
        query_sets: &hub.query_sets,
        dynamic_offsets: base.dynamic_offsets,
        string_data: base.string_data,
        push_constant_data: base.push_constant_data,
    }
}

impl WaitingView {
    /// The run in another phase.
    pub open spec fn in_phase(self, phase: RunPhase) -> Self {
        WaitingView { phase, ..self }
    }

    /// Opens the stretch of encoding for the commands of the pass. From here on the command buffer
    /// is of no use unless the commands turn out to be in order.
    pub open spec fn open_body(self, buffer: CommandBufferView) -> BufferProgress {
        BufferProgress::Waiting(
            CommandBufferView { status: CommandEncoderStatus::Error, is_open: true, ..buffer },
            self.in_phase(RunPhase::OpeningBody),
        )
    }

    /// Starts a run: it is noted in the trace, and what was recorded before is closed.
    pub open spec fn start(self, buffer: CommandBufferView) -> BufferProgress {
        let noted = buffer.traced(
            command_buffer::trace_of(self.base, self.commands, self.timestamp_writes),
        );
        if buffer.is_open {
            BufferProgress::Waiting(
                CommandBufferView { is_open: false, ..noted },
                self.in_phase(RunPhase::ClosingEarlier),
            )
        } else {
            self.open_body(noted)
        }
    }

    /// The backend failed to do what it was asked to.
    pub open spec fn give_up(self, buffer: CommandBufferView, error: DeviceError) -> BufferProgress {
        BufferProgress::Finished(buffer, Some(device_error(self.encoder_id, error)))
    }

    /// Continues a run with the reply of the backend.
    pub open spec fn resume(self, env: PassEnv, buffer: CommandBufferView, reply: HalReply) -> BufferProgress {
        match (self.phase, reply) {
            (RunPhase::ClosingEarlier, HalReply::Ended(Err(e))) => self.give_up(
                buffer.without_raw(),
                e,
            ),
            (RunPhase::ClosingEarlier, HalReply::Ended(Ok(handle))) => self.open_body(
                buffer.close(handle),
            ),
            (RunPhase::OpeningBody, HalReply::Begun(Err(e))) => self.give_up(buffer, e),
            (RunPhase::OpeningBody, HalReply::Begun(Ok(_))) => self.run_body(env, buffer),
            (RunPhase::ClosingBody, HalReply::Ended(Err(e))) => self.give_up(
                buffer.without_raw(),
                e,
            ),
            (RunPhase::ClosingBody, HalReply::Ended(Ok(handle))) => BufferProgress::Waiting(
                CommandBufferView { is_open: true, ..buffer.close(handle) },
                self.in_phase(RunPhase::OpeningTransit),
            ),
            (RunPhase::OpeningTransit, HalReply::Begun(Err(e))) => self.give_up(buffer, e),
            (RunPhase::OpeningTransit, HalReply::Begun(Ok(_))) => BufferProgress::Waiting(
                CommandBufferView {
                    is_open: false,
                    recording: buffer.recording.transit(self.intermediate, self.fixups),
                    ..buffer
                },
                self.in_phase(RunPhase::ClosingTransit),
            ),
            (RunPhase::ClosingTransit, HalReply::Ended(Err(e))) => self.give_up(
                buffer.without_raw(),
                e,
            ),
            (RunPhase::ClosingTransit, HalReply::Ended(Ok(handle))) => if buffer.list.len() == 0 {
                BufferProgress::Stuck
            } else {
                BufferProgress::Finished(buffer.close_and_swap(handle), None)
            },
            _ => BufferProgress::Stuck,
        }
    }

    /// Runs the commands of the pass. Where they are in order, the command buffer can be recorded
    /// into again.
    pub open spec fn run_body(self, env: PassEnv, buffer: CommandBufferView) -> BufferProgress {
        match command_buffer::pass_body(
            command_buffer::run_start(buffer.recording),
            env,
            self.encoder_id,
            self.base.label,
            self.timestamp_writes,
            self.commands,
        ) {
            Step::Stuck => BufferProgress::Stuck,
            Step::Failed(s, e) => BufferProgress::Finished(
                CommandBufferView { recording: s.out, ..buffer },
                Some(e),
            ),
            Step::Done(s) => BufferProgress::Waiting(
                CommandBufferView {
                    status: CommandEncoderStatus::Recording,
                    is_open: false,
                    recording: s.out,
                    ..buffer
                },
                WaitingView {
                    phase: RunPhase::ClosingBody,
                    intermediate: s.intermediate,
                    fixups: s.fixups,
                    ..self
                },
            ),
        }
    }
}

/// All that exists.
#[derive(Debug)]
pub struct Global {
    pub flags: InstanceFlags,
    pub hub: Hub,
    pub command_buffers: Vec<CommandBuffer>,
}

/// The contents of a list of command buffers.
pub open spec fn buffer_views(buffers: Seq<CommandBuffer>) -> Seq<CommandBufferView> {
    Seq::new(buffers.len(), |i: int| buffers[i]@)
}

/// The first command buffer, among the first `n`, that belongs to an encoder.
pub open spec fn buffer_position(
    buffers: Seq<CommandBufferView>,
    encoder_id: CommandEncoderId,
    n: nat,
) -> Option<int>
    decreases n,
{
    if n == 0 {
        None
    } else {
        match buffer_position(buffers, encoder_id, (n - 1) as nat) {
            Some(k) => Some(k),
            None => if buffers[n - 1].id == encoder_id {
                Some(n - 1)
            } else {
                None
            },
        }
    }
}

/// The command buffer of an encoder.
pub open spec fn find_buffer(buffers: Seq<CommandBufferView>, encoder_id: CommandEncoderId) -> Option<int> {
    buffer_position(buffers, encoder_id, buffers.len())
}

proof fn lemma_buffer_position_stays(
    buffers: Seq<CommandBufferView>,
    encoder_id: CommandEncoderId,
    n: nat,
    m: nat,
)
    requires
        n <= m,
        buffer_position(buffers, encoder_id, n) is Some,
    ensures
        buffer_position(buffers, encoder_id, m) == buffer_position(buffers, encoder_id, n),
    decreases m,
{
    if n < m {
        lemma_buffer_position_stays(buffers, encoder_id, n, (m - 1) as nat);
    }
}

/// Why an encoder cannot record: it does not exist, it was finished, or an error made it useless.
pub open spec fn encoder_error(buffers: Seq<CommandBufferView>, encoder_id: CommandEncoderId) -> Option<
    CommandEncoderError,
> {
    match find_buffer(buffers, encoder_id) {
        None => Some(CommandEncoderError::Invalid),
        Some(k) => match buffers[k].status {
            CommandEncoderStatus::Recording => None,
            CommandEncoderStatus::Finished => Some(CommandEncoderError::NotRecording),
            CommandEncoderStatus::Error => Some(CommandEncoderError::Invalid),
        },
    }
}

/// Where a run stands with all command buffers.
pub enum GlobalProgress {
    Waiting(Seq<CommandBufferView>, WaitingView),
    Finished(Seq<CommandBufferView>, Option<ErrorView>),
    /// The run has no outcome.
    Stuck,
}

/// The progress of a run that uses command buffer `k`.
pub open spec fn at_buffer(
    buffers: Seq<CommandBufferView>,
    k: int,
    progress: BufferProgress,
) -> GlobalProgress {
    match progress {
        BufferProgress::Waiting(buffer, run) => GlobalProgress::Waiting(
            buffers.update(k, buffer),
            run,
        ),
        BufferProgress::Finished(buffer, error) => GlobalProgress::Finished(
            buffers.update(k, buffer),
            error,
        ),
        BufferProgress::Stuck => GlobalProgress::Stuck,
    }
}

/// Starts a run of a pass whose commands hold their objects: the encoder has to be recording, and
/// its device has to be valid.
pub open spec fn start_run(buffers: Seq<CommandBufferView>, run: WaitingView) -> GlobalProgress {
    match encoder_error(buffers, run.encoder_id) {
        Some(e) => GlobalProgress::Finished(
            buffers,
            Some(pass_error(run.encoder_id, ComputePassErrorInner::Encoder(e))),
        ),
        None => {
            let k = find_buffer(buffers, run.encoder_id)->0;
            if !buffers[k].device.valid {
                GlobalProgress::Finished(
                    buffers,
                    Some(
                        pass_error(
                            run.encoder_id,
                            ComputePassErrorInner::InvalidDevice(buffers[k].device.id),
                        ),
                    ),
                )
            } else {
                at_buffer(buffers, k, run.start(buffers[k]))
            }
        },
    }
}

/// A run that has not been started.
pub open spec fn new_run(
    encoder_id: CommandEncoderId,
    base: BaseView,
    commands: Seq<ArcComputeCommand>,
    writes: Option<ComputePassTimestampWrites>,
) -> WaitingView {
    WaitingView {
        encoder_id,
        base,
        commands,
        timestamp_writes: writes,
        phase: RunPhase::OpeningBody,
        intermediate: TrackerView::empty(),
        fixups: Seq::empty(),
    }
}

/// Starts a run of a pass: the objects of its commands have to exist.
pub open spec fn start_unresolved(
    hub: Hub,
    buffers: Seq<CommandBufferView>,
    encoder_id: CommandEncoderId,
    base: BaseView,
    writes: Option<ComputePassTimestampWrites>,
) -> GlobalProgress {
    match hub::resolve_all(hub, base.commands, base.commands.len()) {
        Err(e) => GlobalProgress::Finished(buffers, Some(e@)),
        Ok(commands) => start_run(buffers, new_run(encoder_id, base, commands, writes)),
    }
}

/// Continues a run with the reply of the backend.
pub open spec fn resume_run(
    hub: &Hub,
    flags: InstanceFlags,
    buffers: Seq<CommandBufferView>,
    run: ComputePassRun,
    reply: HalReply,
) -> GlobalProgress {
    match find_buffer(buffers, run.encoder_id) {
        None => GlobalProgress::Stuck,
        Some(k) => at_buffer(
            buffers,
            k,
            run@.resume(pass_env(hub, flags, buffers[k], run.base), buffers[k], reply),
        ),
    }
}

/// The command buffers and the result are those that were foretold.
pub open spec fn progress_agrees(
    foretold: GlobalProgress,
    buffers: Seq<CommandBufferView>,
    progress: Progress,
) -> bool {
    match foretold {
        GlobalProgress::Waiting(after, waiting) => {
            &&& progress matches Progress::Waiting(run, call) && run@ == waiting && call == call_of(
                waiting.phase,
            )
            &&& buffers == after
        },
        GlobalProgress::Finished(after, None) => progress == Progress::Finished(Ok(())) && buffers
            == after,
        GlobalProgress::Finished(after, Some(error)) => {
            &&& progress matches Progress::Finished(Err(e)) && e@ == error
            &&& buffers == after
        },
        GlobalProgress::Stuck => true,
    }
}

/// It is plain beforehand that the run can be resumed with the reply: the command buffer is there, the
/// reply is one to the call that was made, and the commands are admitted where they are about to be
/// run.
pub open spec fn is_admitted(
    hub: &Hub,
    flags: InstanceFlags,
    buffers: Seq<CommandBufferView>,
    run: ComputePassRun,
    reply: HalReply,
) -> bool {
    &&& replies_to(reply, call_of(run.phase))
    &&& match find_buffer(buffers, run.encoder_id) {
        None => false,
        Some(k) => match run.phase {
            RunPhase::OpeningBody => {
                ||| reply matches HalReply::Begun(Err(_))
                ||| {
                    &&& outcome::admits(
                        pass_env(hub, flags, buffers[k], run.base),
                        run.commands@,
                    )
                    &&& outcome::writes_fit(run.timestamp_writes)
                }
            },
            RunPhase::ClosingTransit => {
                ||| reply matches HalReply::Ended(Err(_))
                ||| buffers[k].list.len() > 0
            },
            _ => true,
        },
    }
}

/// A run that is admitted with the reply has an outcome.
pub proof fn admitted_resumption_has_an_outcome(
    hub: &Hub,
    flags: InstanceFlags,
    buffers: Seq<CommandBufferView>,
    run: ComputePassRun,
    reply: HalReply,
)
    requires
        is_admitted(hub, flags, buffers, run, reply),
    ensures
        !(resume_run(hub, flags, buffers, run, reply) is Stuck),
{
    let k = find_buffer(buffers, run.encoder_id)->0;
    if run.phase == RunPhase::OpeningBody && reply->Begun_0 is Ok {
        outcome::admitted_body_has_an_outcome(
            buffers[k].recording,
            pass_env(hub, flags, buffers[k], run.base),
            run.encoder_id,
            run@.base.label,
            run.timestamp_writes,
            run.commands@,
        );
    }
}

fn make_env<'a>(
    hub: &'a Hub,
    flags: InstanceFlags,
    limits: Limits,
    device: Device,
    base: &BasePassRef<'a, ComputeCommand>,
) -> (r: PassEnv<'a>)
    ensures
        forall|buffer: CommandBufferView|
            buffer.limits == limits && buffer.device == device ==> r == #[trigger] pass_env(
                hub,
                flags,
                buffer,
                *base,
            ),
{
    PassEnv {
        limits,
        features: device.features,
        downlevel_flags: device.downlevel_flags,
        discard_hal_labels: contains_flags(flags, DISCARD_HAL_LABELS),
        bind_groups: &hub.bind_groups,
        query_sets: &hub.query_sets,
        dynamic_offsets: base.dynamic_offsets,
        string_data: base.string_data,
        push_constant_data: base.push_constant_data,
    }
}

fn hal_call(phase: RunPhase) -> (r: HalCall)
    ensures
        r == call_of(phase),
{
    match phase {
        RunPhase::ClosingEarlier => HalCall::EndEncoding,
        RunPhase::OpeningBody => HalCall::BeginEncoding,
        RunPhase::ClosingBody => HalCall::EndEncoding,
        RunPhase::OpeningTransit => HalCall::BeginEncoding,
        RunPhase::ClosingTransit => HalCall::EndEncoding,
    }
}

fn waiting<'a>(run: ComputePassRun<'a>, phase: RunPhase) -> (r: Progress<'a>)
    ensures
        r matches Progress::Waiting(after, call) && after@ == run@.in_phase(phase) && after.base
            == run.base && call == call_of(phase),
{
    let mut next = run;
    next.phase = phase;
    Progress::Waiting(next, hal_call(phase))
}

fn failed<'a>(encoder_id: CommandEncoderId, inner: ComputePassErrorInner) -> (r: Progress<'a>)
    requires
        !(inner is Dispatch),
    ensures
        r matches Progress::Finished(Err(e)) && e@ == pass_error(encoder_id, inner),
{
    Progress::Finished(
        Err(ComputePassError { scope: PassErrorScope::Pass(encoder_id), inner }),
    )
}

impl Global {
    /// Nothing exists.
    pub fn new(flags: InstanceFlags) -> (r: Self)
        ensures
            r.flags == flags,
            r.hub.keys_match(),
            r.hub.bind_groups.entries@.len() == 0,
            r.hub.compute_pipelines.entries@.len() == 0,
            r.hub.buffers.entries@.len() == 0,
            r.hub.query_sets.entries@.len() == 0,
            r.command_buffers@.len() == 0,
    {
        Global { flags, hub: Hub::new(), command_buffers: Vec::new() }
    }

    /// The command buffers.
    pub open spec fn buffers(self) -> Seq<CommandBufferView> {
        buffer_views(self.command_buffers@)
    }

    fn find_buffer(&self, encoder_id: CommandEncoderId) -> (r: Option<usize>)
        ensures
            r is Some == find_buffer(self.buffers(), encoder_id) is Some,
            r matches Some(k) ==> find_buffer(self.buffers(), encoder_id) == Some(k as int) && k
                < self.command_buffers.len(),
    {
        let mut i: usize = 0;
        while i < self.command_buffers.len()
            invariant
                i <= self.command_buffers.len(),
                buffer_position(self.buffers(), encoder_id, i as nat) is None,
            decreases self.command_buffers.len() - i,
        {
            assert(self.buffers()[i as int] == self.command_buffers@[i as int]@);
            if self.command_buffers[i].id == encoder_id {
                proof {
                    lemma_buffer_position_stays(
                        self.buffers(),
                        encoder_id,
                        (i + 1) as nat,
                        self.buffers().len(),
                    );
                }
                return Some(i);
            }
            i = i + 1;
        }
        None
    }

    /// Finds the command buffer of an encoder that can record.
    pub fn get_encoder(&self, encoder_id: CommandEncoderId) -> (r: Result<
        usize,
        CommandEncoderError,
    >)
        ensures
            match encoder_error(self.buffers(), encoder_id) {
                Some(e) => r == Err::<usize, CommandEncoderError>(e),
                None => r matches Ok(k) && find_buffer(self.buffers(), encoder_id) == Some(k as int)
                    && k < self.command_buffers.len(),
            },
    {
        match self.find_buffer(encoder_id) {
            None => Err(CommandEncoderError::Invalid),
            Some(k) => {
                assert(self.buffers()[k as int] == self.command_buffers@[k as int]@);
                match self.command_buffers[k].status {
                    CommandEncoderStatus::Recording => Ok(k),
                    CommandEncoderStatus::Finished => Err(CommandEncoderError::NotRecording),
                    CommandEncoderStatus::Error => Err(CommandEncoderError::Invalid),
                }
            },
        }
    }

    /// Starts to run a pass on an encoder.
    pub fn command_encoder_run_compute_pass<'a>(
        &mut self,
        encoder_id: CommandEncoderId,
        pass: &'a ComputePass,
    ) -> (r: Progress<'a>)
        ensures
            final(self).flags == old(self).flags,
            final(self).hub == old(self).hub,
            progress_agrees(
                start_unresolved(
                    old(self).hub,
                    old(self).buffers(),
                    encoder_id,
                    pass@.base,
                    pass@.timestamp_writes,
                ),
                final(self).buffers(),
                r,
            ),
    {
        self.command_encoder_run_compute_pass_with_unresolved_commands(
            encoder_id,
            pass.base(),
            pass.timestamp_writes(),
        )
    }

    /// Starts to run a pass on an encoder, given the parts of the pass.
    pub fn command_encoder_run_compute_pass_with_unresolved_commands<'a>(
        &mut self,
        encoder_id: CommandEncoderId,
        base: BasePassRef<'a, ComputeCommand>,
        timestamp_writes: Option<&ComputePassTimestampWrites>,
    ) -> (r: Progress<'a>)
        ensures
            final(self).flags == old(self).flags,
            final(self).hub == old(self).hub,
            progress_agrees(
                start_unresolved(
                    old(self).hub,
                    old(self).buffers(),
                    encoder_id,
                    base@,
                    pass::described_writes(timestamp_writes),
                ),
                final(self).buffers(),
                r,
            ),
            r matches Progress::Waiting(run, _) ==> run.base == base,
    {
        let commands: Vec<ArcComputeCommand> = match self.hub.resolve_compute_command_ids(
            base.commands,
        ) {
            Ok(commands) => commands,
            Err(e) => {
                return Progress::Finished(Err(e));
            },
        };
        self.command_encoder_run_compute_pass_impl(encoder_id, base, commands, timestamp_writes)
    }

    fn command_encoder_run_compute_pass_impl<'a>(
        &mut self,
        encoder_id: CommandEncoderId,
        base: BasePassRef<'a, ComputeCommand>,
        commands: Vec<ArcComputeCommand>,
        timestamp_writes: Option<&ComputePassTimestampWrites>,
    ) -> (r: Progress<'a>)
        ensures
            final(self).flags == old(self).flags,
            final(self).hub == old(self).hub,
            progress_agrees(
                start_run(
                    old(self).buffers(),
                    new_run(
                        encoder_id,
                        base@,
                        commands@,
                        pass::described_writes(timestamp_writes),
                    ),
                ),
                final(self).buffers(),
                r,
            ),
            r matches Progress::Waiting(run, _) ==> run.base == base,
    {
        let writes: Option<ComputePassTimestampWrites> = match timestamp_writes {
            Some(writes) => Some(*writes),
            None => None,
        };
        let k: usize = match self.get_encoder(encoder_id) {
            Ok(k) => k,
            Err(e) => {
                return failed(encoder_id, ComputePassErrorInner::from(e));
            },
        };
        let ghost before = self.buffers();
        assert(before[k as int] == self.command_buffers@[k as int]@);
        if !self.command_buffers[k].device.valid {
            return failed(
                encoder_id,
                ComputePassErrorInner::InvalidDevice(self.command_buffers[k].device.id),
            );
        }
        let run: ComputePassRun<'a> = ComputePassRun {
            encoder_id,
            base,
            commands,
            timestamp_writes: writes,
            phase: RunPhase::OpeningBody,
            intermediate_trackers: Tracker::new(),
            pending_discard_init_fixups: Vec::new(),
        };
        self.command_buffers[k].trace_run(&run.base, &run.commands, writes);
        if self.command_buffers[k].is_open {
            self.command_buffers[k].is_open = false;
            proof {
                let after = CommandBufferView {
                    is_open: false,
                    ..before[k as int].traced(
                        command_buffer::trace_of(run@.base, run@.commands, writes),
                    )
                };
                assert(self.buffers() =~= before.update(k as int, after));
            }
            waiting(run, RunPhase::ClosingEarlier)
        } else {
            self.command_buffers[k].status = CommandEncoderStatus::Error;
            self.command_buffers[k].is_open = true;
            proof {
                let after = CommandBufferView {
                    status: CommandEncoderStatus::Error,
                    is_open: true,
                    ..before[k as int].traced(
                        command_buffer::trace_of(run@.base, run@.commands, writes),
                    )
                };
                assert(self.buffers() =~= before.update(k as int, after));
            }
            waiting(run, RunPhase::OpeningBody)
        }
    }

    /// Whether a run can be resumed with a reply, which is where it has an outcome. That a command has
    /// none does not matter where a command before it fails.
    pub fn can_resume(&self, run: &ComputePassRun<'_>, reply: &HalReply) -> (r: bool)
        ensures
            r == !(resume_run(&self.hub, self.flags, self.buffers(), *run, *reply) is Stuck),
    {
        let k: usize = match self.find_buffer(run.encoder_id) {
            Some(k) => k,
            None => {
                return false;
            },
        };
        let ghost buffer = self.buffers()[k as int];
        assert(buffer == self.command_buffers@[k as int]@);
        match (run.phase, reply) {
            (RunPhase::ClosingEarlier, HalReply::Ended(_)) => true,
            (RunPhase::OpeningBody, HalReply::Begun(Err(_))) => true,
            (RunPhase::OpeningBody, HalReply::Begun(Ok(_))) => {
                let env: PassEnv<'_> = make_env(
                    &self.hub,
                    self.flags,
                    self.command_buffers[k].limits,
                    self.command_buffers[k].device,
                    &run.base,
                );
                assert(env == pass_env(&self.hub, self.flags, buffer, run.base));
                let admitted: bool = env.admits_commands(run.commands.as_slice()) && check_writes(
                    run.timestamp_writes,
                );
                proof {
                    if admitted {
                        admitted_resumption_has_an_outcome(
                            &self.hub,
                            self.flags,
                            self.buffers(),
                            *run,
                            *reply,
                        );
                    }
                }
                admitted || has_outcome(&env, run.timestamp_writes, &run.commands)
            },
            (RunPhase::ClosingBody, HalReply::Ended(_)) => true,
            (RunPhase::OpeningTransit, HalReply::Begun(_)) => true,
            (RunPhase::ClosingTransit, HalReply::Ended(Err(_))) => true,
            (RunPhase::ClosingTransit, HalReply::Ended(Ok(_))) => self.command_buffers[k].list.len()
                > 0,
            _ => false,
        }
    }

    /// Continues a run with the reply of the backend to the call that the run waits for.
    pub fn resume_compute_pass<'a>(&mut self, run: ComputePassRun<'a>, reply: HalReply) -> (r:
        Progress<'a>)
        requires
            !(resume_run(&old(self).hub, old(self).flags, old(self).buffers(), run, reply)
                is Stuck),
        ensures
            final(self).flags == old(self).flags,
            final(self).hub == old(self).hub,
            progress_agrees(
                resume_run(&old(self).hub, old(self).flags, old(self).buffers(), run, reply),
                final(self).buffers(),
                r,
            ),
            r matches Progress::Waiting(next, _) ==> next.base == run.base,
    {
        let ghost before = self.buffers();
        let encoder_id: CommandEncoderId = run.encoder_id;
        let k: usize = match self.find_buffer(encoder_id) {
            Some(k) => k,
            None => {
                assert(false);
                return failed(
                    encoder_id,
                    ComputePassErrorInner::Encoder(CommandEncoderError::Invalid),
                );
            },
        };
        let ghost buffer = before[k as int];
        assert(buffer == self.command_buffers@[k as int]@);
        match reply {
            HalReply::Ended(Err(e)) => {
                self.command_buffers[k].discard_raw();
                assert(self.buffers() =~= before.update(k as int, buffer.without_raw()));
                failed(encoder_id, ComputePassErrorInner::from(e))
            },
            HalReply::Begun(Err(e)) => {
                assert(self.buffers() =~= before.update(k as int, buffer));
                failed(encoder_id, ComputePassErrorInner::from(e))
            },
            HalReply::Ended(Ok(handle)) => match run.phase {
                RunPhase::ClosingEarlier => {
                    self.command_buffers[k].close(handle);
                    self.command_buffers[k].status = CommandEncoderStatus::Error;
                    self.command_buffers[k].is_open = true;
                    proof {
                        let after = CommandBufferView {
                            status: CommandEncoderStatus::Error,
                            is_open: true,
                            ..buffer.close(handle)
                        };
                        assert(self.buffers() =~= before.update(k as int, after));
                    }
                    waiting(run, RunPhase::OpeningBody)
                },
                RunPhase::ClosingBody => {
                    self.command_buffers[k].close(handle);
                    self.command_buffers[k].is_open = true;
                    proof {
                        let after = CommandBufferView { is_open: true, ..buffer.close(handle) };
                        assert(self.buffers() =~= before.update(k as int, after));
                    }
                    waiting(run, RunPhase::OpeningTransit)
                },
                _ => {
                    self.command_buffers[k].close_and_swap(handle);
                    assert(self.buffers() =~= before.update(
                        k as int,
                        buffer.close_and_swap(handle),
                    ));
                    Progress::Finished(Ok(()))
                },
            },
            HalReply::Begun(Ok(())) => match run.phase {
                RunPhase::OpeningBody => self.run_body(k, run),
                _ => {
                    self.command_buffers[k].recording.fixup_discarded_surfaces(
                        &run.pending_discard_init_fixups,
                    );
                    self.command_buffers[k].recording.insert_barriers_from_tracker(
                        &run.intermediate_trackers,
                    );
                    self.command_buffers[k].is_open = false;
                    proof {
                        let after = CommandBufferView {
                            is_open: false,
                            recording: buffer.recording.transit(run@.intermediate, run@.fixups),
                            ..buffer
                        };
                        assert(self.buffers() =~= before.update(k as int, after));
                    }
                    waiting(run, RunPhase::ClosingTransit)
                },
            },
        }
    }

    fn run_body<'a>(&mut self, k: usize, run: ComputePassRun<'a>) -> (r: Progress<'a>)
        requires
            k < old(self).command_buffers@.len(),
            !(run@.run_body(
                pass_env(
                    &old(self).hub,
                    old(self).flags,
                    old(self).buffers()[k as int],
                    run.base,
                ),
                old(self).buffers()[k as int],
            ) is Stuck),
        ensures
            final(self).flags == old(self).flags,
            final(self).hub == old(self).hub,
            progress_agrees(
                at_buffer(
                    old(self).buffers(),
                    k as int,
                    run@.run_body(
                        pass_env(
                            &old(self).hub,
                            old(self).flags,
                            old(self).buffers()[k as int],
                            run.base,
                        ),
                        old(self).buffers()[k as int],
                    ),
                ),
                final(self).buffers(),
                r,
            ),
            r matches Progress::Waiting(next, _) ==> next.base == run.base,
    {
        let ghost before = self.buffers();
        let ghost buffer = before[k as int];
        assert(buffer == self.command_buffers@[k as int]@);
        let env: PassEnv<'_> = make_env(
            &self.hub,
            self.flags,
            self.command_buffers[k].limits,
            self.command_buffers[k].device,
            &run.base,
        );
        assert(env == pass_env(&old(self).hub, old(self).flags, buffer, run.base));
        let body: (PassRecorder, Result<(), ComputePassError>) = run_pass_body(
            &mut self.command_buffers[k].recording,
            &env,
            run.encoder_id,
            run.base.label,
            run.timestamp_writes,
            &run.commands,
        );
        match body.1 {
            Err(e) => {
                proof {
                    let after = CommandBufferView {
                        recording: self.command_buffers@[k as int].recording@,
                        ..buffer
                    };
                    assert(self.buffers() =~= before.update(k as int, after));
                }
                Progress::Finished(Err(e))
            },
            Ok(()) => {
                self.command_buffers[k].status = CommandEncoderStatus::Recording;
                self.command_buffers[k].is_open = false;
                let mut next = run;
                next.intermediate_trackers = body.0.intermediate_trackers;
                next.pending_discard_init_fixups = body.0.pending_discard_init_fixups;
                proof {
                    let after = CommandBufferView {
                        status: CommandEncoderStatus::Recording,
                        is_open: false,
                        recording: self.command_buffers@[k as int].recording@,
                        ..buffer
                    };
                    assert(self.buffers() =~= before.update(k as int, after));
                }
                waiting(next, RunPhase::ClosingBody)
            },
        }
    }
}

} // verus!
