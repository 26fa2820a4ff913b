//! Command buffers, and how a compute pass becomes part of one.
//!
//! A command buffer is a list of stretches of encoding. A compute pass takes two of them: one for
//! its commands, and one, which comes before it, for the transitions and clears that its commands
//! rely on and that are only known once the commands have been looked at.
use crate::command::{
    own_label, ArcComputeCommand, BasePass, BasePassRef, BaseView, ComputeCommand,
};
use crate::error::{ComputePassError, ComputePassErrorInner, PassErrorScope};
use crate::id::{CommandEncoderId, DeviceId, RawHandle};
use crate::memory_init::{CommandBufferTextureMemoryActions, TextureSurfaceDiscard};
use crate::pass::ComputePassTimestampWrites;
use crate::raw;
use crate::raw::{RawCommand, RawEncoder, RawTimestampWrites, RawView};
use crate::resource::QuerySet;
use crate::run;
use crate::run::{PassEnv, PassRecorder, Recording, RecordingView, RunView, Step};
use crate::state::{drain_barriers, FlushView};
use crate::trace;
use crate::trace::{Command, CommandView};
use crate::track::{ResourceKind, ScopeView, Tracker, TrackerView, Transition, UsageTrackerView};
use crate::types::{DownlevelFlags, Features, Limits};
use std::sync::Arc;
use vstd::prelude::*;

verus! {

/// Whether a command buffer can be recorded into.
#[derive(Clone, Copy, Debug, PartialEq, Eq, Structural)]
pub enum CommandEncoderStatus {
    Recording,
    Finished,
    Error,
}

/// The device that a command buffer is for.
#[derive(Clone, Copy, Debug, PartialEq, Eq, Structural)]
pub struct Device {
    pub id: DeviceId,
    pub valid: bool,
    pub features: Features,
    pub downlevel_flags: DownlevelFlags,
}

/// A stretch of encoding that is over: what the backend calls it, and the calls that it consists of.
#[derive(Debug)]
pub struct ClosedEncoding {
    pub handle: RawHandle,
    pub commands: RawEncoder,
}

/// The contents of a [`ClosedEncoding`].
#[verifier::ext_equal]
pub struct ClosedView {
    pub handle: RawHandle,
    pub commands: Seq<RawView>,
}

impl View for ClosedEncoding {
    type V = ClosedView;

    open spec fn view(&self) -> ClosedView {
        ClosedView { handle: self.handle, commands: self.commands@ }
    }
}

/// The contents of a list of stretches of encoding.
pub open spec fn closed_views(list: Seq<ClosedEncoding>) -> Seq<ClosedView> {
    Seq::new(list.len(), |i: int| list[i]@)
}

/// A command buffer.
#[derive(Debug)]
pub struct CommandBuffer {
    pub id: CommandEncoderId,
    pub device: Device,
    pub limits: Limits,
    pub status: CommandEncoderStatus,
    /// The stretches of encoding that are over, in the order in which the device will see them.
    pub list: Vec<ClosedEncoding>,
    /// A stretch of encoding has begun and is not over yet.
    pub is_open: bool,
    /// The calls of the stretch of encoding that is not over yet, and what the commands of all
    /// stretches rely on.
    pub recording: Recording,
    /// The trace of the calls on the encoder, if one is kept.
    pub commands: Option<Vec<Command>>,
}

/// The contents of a [`CommandBuffer`].
#[verifier::ext_equal]
pub struct CommandBufferView {
    pub id: CommandEncoderId,
    pub device: Device,
    pub limits: Limits,
    pub status: CommandEncoderStatus,
    pub list: Seq<ClosedView>,
    pub is_open: bool,
    pub recording: RecordingView,
    pub trace: Option<Seq<CommandView>>,
}

impl View for CommandBuffer {
    type V = CommandBufferView;

    open spec fn view(&self) -> CommandBufferView {
        CommandBufferView {
            id: self.id,
            device: self.device,
            limits: self.limits,
            status: self.status,
            list: closed_views(self.list@),
            is_open: self.is_open,
            recording: self.recording@,
            trace: match self.commands {
                Some(commands) => Some(trace::command_views(commands@)),
                None => None,
            },
        }
    }
}

impl CommandBufferView {
    /// The command buffer without the calls of the current stretch of encoding.
    pub open spec fn without_raw(self) -> Self {
        CommandBufferView {
            recording: RecordingView { raw: Seq::empty(), ..self.recording },
            ..self
        }
    }

    /// The current stretch of encoding is over, and becomes the last one.
    pub open spec fn close(self, handle: RawHandle) -> Self {
        CommandBufferView {
            list: self.list.push(ClosedView { handle, commands: self.recording.raw }),
            ..self.without_raw()
        }
    }

    /// The current stretch of encoding is over, and comes before the last one.
    pub open spec fn close_and_swap(self, handle: RawHandle) -> Self {
        CommandBufferView {
            list: self.list.insert(
                self.list.len() - 1,
                ClosedView { handle, commands: self.recording.raw },
            ),
            ..self.without_raw()
        }
    }

    /// The call is added to the trace, if one is kept.
    pub open spec fn traced(self, command: CommandView) -> Self {
        CommandBufferView {
            trace: match self.trace {
                Some(list) => Some(list.push(command)),
                None => None,
            },
            ..self
        }
    }
}

/// The query range that timestamp writes use: from the smaller index to the larger one, or the one
/// index that there is.
pub open spec fn timestamp_range(writes: ComputePassTimestampWrites) -> Option<(int, int)> {
    match (writes.beginning_of_pass_write_index, writes.end_of_pass_write_index) {
        (Some(a), Some(b)) => if a < b {
            Some((a as int, b + 1))
        } else {
            Some((b as int, a + 1))
        },
        (Some(a), None) => Some((a as int, a + 1)),
        (None, Some(b)) => Some((b as int, b + 1)),
        (None, None) => None,
    }
}

/// The timestamp writes of a pass as the backend sees them.
pub open spec fn raw_writes(query_set: RawHandle, writes: ComputePassTimestampWrites) -> RawTimestampWrites {
    RawTimestampWrites {
        query_set,
        beginning_of_pass_write_index: writes.beginning_of_pass_write_index,
        end_of_pass_write_index: writes.end_of_pass_write_index,
    }
}

/// A run at its beginning.
pub open spec fn run_start(out: RecordingView) -> RunView {
    RunView {
        binder: crate::bind::BinderView::empty(),
        pipeline: None,
        scope: ScopeView { buffers: Seq::empty(), textures: Seq::empty() },
        debug_scope_depth: 0,
        dynamic_offset_count: 0,
        string_offset: 0,
        active_query: None,
        intermediate: TrackerView::empty(),
        fixups: Seq::empty(),
        out,
    }
}

/// Begins a pass. The queries that the pass writes timestamps to are reset first.
pub open spec fn begin_pass(
    start: RunView,
    env: PassEnv,
    encoder_id: CommandEncoderId,
    label: Option<Seq<char>>,
    writes: Option<ComputePassTimestampWrites>,
) -> Step {
    let seen_label = if env.discard_hal_labels {
        None
    } else {
        label
    };
    match writes {
        None => Step::Done(
            start.emit(RawView::BeginComputePass { label: seen_label, timestamp_writes: None }),
        ),
        Some(writes) => match env.query_sets.object(writes.query_set.0) {
            None => start.fail_with(
                PassErrorScope::Pass(encoder_id),
                ComputePassErrorInner::InvalidQuerySet(writes.query_set),
            ),
            Some(query_set) => {
                let held = start.track_query_set(writes.query_set);
                let begin = RawView::BeginComputePass {
                    label: seen_label,
                    timestamp_writes: Some(raw_writes(query_set.raw, writes)),
                };
                match timestamp_range(writes) {
                    None => Step::Done(held.emit(begin)),
                    Some((first, end)) => if end > u32::MAX {
                        Step::Stuck
                    } else {
                        Step::Done(
                            held.emit(
                                RawView::ResetQueries {
                                    query_set: query_set.raw,
                                    start: first as u32,
                                    end: end as u32,
                                },
                            ).emit(begin),
                        )
                    },
                }
            },
        },
    }
}

/// Runs a pass from its beginning to its end.
pub open spec fn pass_body(
    start: RunView,
    env: PassEnv,
    encoder_id: CommandEncoderId,
    label: Option<Seq<char>>,
    writes: Option<ComputePassTimestampWrites>,
    commands: Seq<ArcComputeCommand>,
) -> Step {
    match begin_pass(start, env, encoder_id, label, writes) {
        Step::Done(begun) => match begun.steps(env, commands, commands.len()) {
            Step::Done(ended) => Step::Done(ended.emit(RawView::EndComputePass)),
            other => other,
        },
        other => other,
    }
}

impl RecordingView {
    /// Clears the first `n` of some surfaces.
    pub open spec fn clear_surfaces(self, surfaces: Seq<TextureSurfaceDiscard>, n: nat) -> Self
        decreases n,
    {
        if n == 0 {
            self
        } else {
            let before = self.clear_surfaces(surfaces, (n - 1) as nat);
            let surface = surfaces[n - 1];
            let textures = before.trackers.textures.set(
                ResourceKind::Texture,
                surface.slot,
                surface.clear_uses,
                surface.clear_uses,
            );
            RecordingView {
                raw: before.raw.push(RawView::TransitionTextures(textures.pending)).push(
                    RawView::ClearSurface {
                        texture: surface.texture.id,
                        mip_level: surface.mip_level,
                        layer: surface.layer,
                    },
                ),
                trackers: TrackerView {
                    textures: UsageTrackerView { pending: Seq::empty(), ..textures },
                    ..before.trackers
                },
                ..before
            }
        }
    }

    /// Moves from the uses before a pass to those that the pass begins with, and takes over those
    /// that it ends with.
    pub open spec fn insert_barriers(self, pass: TrackerView) -> Self {
        let joined = TrackerView {
            buffers: self.trackers.buffers.set_from_tracker(
                ResourceKind::Buffer,
                pass.buffers.uses,
                pass.buffers.uses.len(),
            ),
            textures: self.trackers.textures.set_from_tracker(
                ResourceKind::Texture,
                pass.textures.uses,
                pass.textures.uses.len(),
            ),
            ..self.trackers
        };
        let drained = FlushView {
            scope: ScopeView { buffers: Seq::empty(), textures: Seq::empty() },
            trackers: joined,
            raw: self.raw,
        }.drain_barriers();
        RecordingView { raw: drained.raw, trackers: drained.trackers, ..self }
    }

    /// What has to happen before a pass.
    pub open spec fn transit(self, pass: TrackerView, surfaces: Seq<TextureSurfaceDiscard>) -> Self {
        self.clear_surfaces(surfaces, surfaces.len()).insert_barriers(pass)
    }
}

impl Recording {
    /// Nothing was recorded.
    pub fn new() -> (r: Self)
        ensures
            r@.raw == Seq::<RawView>::empty(),
            r@.trackers == TrackerView::empty(),
            r@.buffer_inits.len() == 0,
            r@.texture_memory.init_actions.len() == 0,
            r@.texture_memory.discards.len() == 0,
    {
        Recording {
            raw: RawEncoder::new(),
            trackers: Tracker::new(),
            buffer_memory_init_actions: Vec::new(),
            texture_memory_actions: CommandBufferTextureMemoryActions::new(),
        }
    }

    /// Clears some surfaces.
    pub fn fixup_discarded_surfaces(&mut self, surfaces: &Vec<TextureSurfaceDiscard>)
        ensures
            final(self)@ == old(self)@.clear_surfaces(surfaces@, surfaces@.len()),
    {
        let ghost start = self@;
        let mut i: usize = 0;
        while i < surfaces.len()
            invariant
                i <= surfaces.len(),
                self@ == start.clear_surfaces(surfaces@, i as nat),
            decreases surfaces.len() - i,
        {
            let surface: &TextureSurfaceDiscard = &surfaces[i];
            self.trackers.textures.set(
                ResourceKind::Texture,
                surface.slot,
                surface.clear_uses,
                surface.clear_uses,
            );
            let transitions: Vec<Transition> = self.trackers.textures.drain_transitions();
            self.raw.record(RawCommand::TransitionTextures(transitions));
            self.raw.record(
                RawCommand::ClearSurface {
                    texture: surface.texture.id,
                    mip_level: surface.mip_level,
                    layer: surface.layer,
                },
            );
            i = i + 1;
        }
    }

    /// Moves from the uses before a pass to those that the pass begins with, and takes over those
    /// that it ends with.
    pub fn insert_barriers_from_tracker(&mut self, pass: &Tracker)
        ensures
            final(self)@ == old(self)@.insert_barriers(pass@),
    {
        self.trackers.buffers.set_from_tracker(ResourceKind::Buffer, &pass.buffers);
        self.trackers.textures.set_from_tracker(ResourceKind::Texture, &pass.textures);
        let ghost scope = ScopeView { buffers: Seq::empty(), textures: Seq::empty() };
        let ghost joined = FlushView { scope, trackers: self.trackers@, raw: self.raw@ };
        drain_barriers(&mut self.raw, &mut self.trackers);
        assert(joined.drain_barriers() == (FlushView {
            scope,
            trackers: self.trackers@,
            raw: self.raw@,
        }));
    }
}

/// Copies a slice.
pub(crate) fn copy_slice<T: Copy>(items: &[T]) -> (r: Vec<T>)
    ensures
        r@ == items@,
{
    let mut copy: Vec<T> = Vec::new();
    let mut i: usize = 0;
    while i < items.len()
        invariant
            i <= items.len(),
            copy@ == items@.take(i as int),
        decreases items.len() - i,
    {
        copy.push(items[i]);
        i = i + 1;
        assert(copy@ =~= items@.take(i as int));
    }
    assert(items@.take(items@.len() as int) =~= items@);
    copy
}

/// The commands with the identifiers of their objects in place of the objects.
pub open spec fn unresolved(commands: Seq<ArcComputeCommand>) -> Seq<ComputeCommand> {
    Seq::new(commands.len(), |i: int| commands[i].unresolved())
}

/// What the trace says of a run of a pass.
pub open spec fn trace_of(
    base: BaseView,
    commands: Seq<ArcComputeCommand>,
    writes: Option<ComputePassTimestampWrites>,
) -> CommandView {
    CommandView::RunComputePass {
        base: BaseView { commands: unresolved(commands), ..base },
        timestamp_writes: writes,
    }
}

fn trace_pass(
    base: &BasePassRef<'_, ComputeCommand>,
    commands: &Vec<ArcComputeCommand>,
    writes: Option<ComputePassTimestampWrites>,
) -> (r: Command)
    ensures
        r@ == trace_of(base@, commands@, writes),
{
    let mut list: Vec<ComputeCommand> = Vec::new();
    let mut i: usize = 0;
    while i < commands.len()
        invariant
            i <= commands.len(),
            list@ == unresolved(commands@).take(i as int),
        decreases commands.len() - i,
    {
        list.push(commands[i].to_unresolved());
        i = i + 1;
        assert(list@ =~= unresolved(commands@).take(i as int));
    }
    assert(list@ =~= unresolved(commands@));
    Command::RunComputePass {
        base: BasePass {
            label: own_label(base.label),
            commands: list,
            dynamic_offsets: copy_slice(base.dynamic_offsets),
            string_data: copy_slice(base.string_data),
            push_constant_data: copy_slice(base.push_constant_data),
        },
        timestamp_writes: writes,
    }
}

/// Begins a pass.
fn begin_pass_exec(
    recorder: &mut PassRecorder,
    out: &mut Recording,
    env: &PassEnv<'_>,
    encoder_id: CommandEncoderId,
    label: Option<&str>,
    writes: Option<ComputePassTimestampWrites>,
) -> (r: Result<(), ComputePassError>)
    requires
        old(recorder).wf(),
        !(begin_pass(
            run::run_view(*old(recorder), *old(out)),
            *env,
            encoder_id,
            crate::command::str_view(label),
            writes,
        ) is Stuck),
    ensures
        final(recorder).wf(),
        run::step_agrees(
            begin_pass(
                run::run_view(*old(recorder), *old(out)),
                *env,
                encoder_id,
                crate::command::str_view(label),
                writes,
            ),
            run::run_view(*final(recorder), *final(out)),
            r,
        ),
{
    let seen_label: Option<String> = if env.discard_hal_labels {
        None
    } else {
        own_label(label)
    };
    match writes {
        None => {
            out.raw.record(
                RawCommand::BeginComputePass { label: seen_label, timestamp_writes: None },
            );
            Ok(())
        },
        Some(tw) => {
            let query_set: &Arc<QuerySet> = match env.query_sets.get(tw.query_set.0) {
                Some(query_set) => query_set,
                None => {
                    return Err(
                        ComputePassError {
                            scope: PassErrorScope::Pass(encoder_id),
                            inner: ComputePassErrorInner::InvalidQuerySet(tw.query_set),
                        },
                    );
                },
            };
            out.trackers.query_sets.insert_single(tw.query_set.0);
            let range: Option<(u32, u32)> = match (
                tw.beginning_of_pass_write_index,
                tw.end_of_pass_write_index,
            ) {
                (Some(a), Some(b)) => if a < b {
                    Some((a, b + 1))
                } else {
                    Some((b, a + 1))
                },
                (Some(a), None) => Some((a, a + 1)),
                (None, Some(b)) => Some((b, b + 1)),
                (None, None) => None,
            };
            if let Some((start, end)) = range {
                out.raw.record(
                    RawCommand::ResetQueries { query_set: query_set.raw, start, end },
                );
            }
            out.raw.record(
                RawCommand::BeginComputePass {
                    label: seen_label,
                    timestamp_writes: Some(
                        RawTimestampWrites {
                            query_set: query_set.raw,
                            beginning_of_pass_write_index: tw.beginning_of_pass_write_index,
                            end_of_pass_write_index: tw.end_of_pass_write_index,
                        },
                    ),
                },
            );
            Ok(())
        },
    }
}

/// Runs a pass from its beginning to its end.
pub fn run_pass_body(
    out: &mut Recording,
    env: &PassEnv<'_>,
    encoder_id: CommandEncoderId,
    label: Option<&str>,
    writes: Option<ComputePassTimestampWrites>,
    commands: &Vec<ArcComputeCommand>,
) -> (r: (PassRecorder, Result<(), ComputePassError>))
    requires
        !(pass_body(
            run_start(old(out)@),
            *env,
            encoder_id,
            crate::command::str_view(label),
            writes,
            commands@,
        ) is Stuck),
    ensures
        run::step_agrees(
            pass_body(
                run_start(old(out)@),
                *env,
                encoder_id,
                crate::command::str_view(label),
                writes,
                commands@,
            ),
            run::run_view(r.0, *final(out)),
            r.1,
        ),
{
    let mut recorder: PassRecorder = PassRecorder::new();
    assert(run::run_view(recorder, *out) == run_start(out@));
    match begin_pass_exec(&mut recorder, out, env, encoder_id, label, writes) {
        Ok(()) => {},
        Err(e) => {
            return (recorder, Err(e));
        },
    }
    match recorder.steps(out, env, commands.as_slice()) {
        Ok(()) => {},
        Err(e) => {
            return (recorder, Err(e));
        },
    }
    out.raw.record(RawCommand::EndComputePass);
    (recorder, Ok(()))
}

impl CommandBuffer {
    /// A command buffer that nothing was recorded into.
    pub fn new(id: CommandEncoderId, device: Device, limits: Limits, keep_trace: bool) -> (r: Self)
        ensures
            r@.id == id,
            r@.device == device,
            r@.limits == limits,
            r@.status == CommandEncoderStatus::Recording,
            r@.list == Seq::<ClosedView>::empty(),
            !r@.is_open,
            r@.recording.raw == Seq::<RawView>::empty(),
            r@.recording.trackers == TrackerView::empty(),
            r@.recording.buffer_inits.len() == 0,
            r@.recording.texture_memory.init_actions.len() == 0,
            r@.recording.texture_memory.discards.len() == 0,
            keep_trace ==> r@.trace == Some(Seq::<CommandView>::empty()),
            !keep_trace ==> r@.trace is None,
    {
        let list: Vec<Command> = Vec::new();
        let buffer = CommandBuffer {
            id,
            device,
            limits,
            status: CommandEncoderStatus::Recording,
            list: Vec::new(),
            is_open: false,
            recording: Recording::new(),
            commands: if keep_trace {
                Some(list)
            } else {
                None
            },
        };
        assert(buffer@.list =~= Seq::empty());
        assert(trace::command_views(list@) =~= Seq::empty());
        buffer
    }

    /// Drops the calls of the current stretch of encoding.
    pub(crate) fn discard_raw(&mut self)
        ensures
            final(self)@ == old(self)@.without_raw(),
    {
        self.recording.raw = RawEncoder::new();
    }

    fn take_raw(&mut self) -> (r: RawEncoder)
        ensures
            r@ == old(self)@.recording.raw,
            final(self)@ == old(self)@.without_raw(),
    {
        let mut commands: Vec<RawCommand> = Vec::new();
        commands.append(&mut self.recording.raw.commands);
        let taken = RawEncoder { commands };
        assert(taken.commands@ =~= old(self).recording.raw.commands@);
        assert(self.recording.raw@ =~= Seq::empty());
        taken
    }

    /// Notes that the current stretch of encoding is over; it becomes the last one.
    pub(crate) fn close(&mut self, handle: RawHandle)
        ensures
            final(self)@ == old(self)@.close(handle),
    {
        let commands: RawEncoder = self.take_raw();
        self.list.push(ClosedEncoding { handle, commands });
        assert(self@.list =~= old(self)@.close(handle).list);
    }

    /// Notes that the current stretch of encoding is over; it comes before the last one.
    pub(crate) fn close_and_swap(&mut self, handle: RawHandle)
        requires
            old(self)@.list.len() > 0,
        ensures
            final(self)@ == old(self)@.close_and_swap(handle),
    {
        let commands: RawEncoder = self.take_raw();
        let position: usize = self.list.len() - 1;
        self.list.insert(position, ClosedEncoding { handle, commands });
        assert(self@.list =~= old(self)@.close_and_swap(handle).list);
    }

    /// Adds a run of a pass to the trace, if one is kept.
    pub(crate) fn trace_run(
        &mut self,
        base: &BasePassRef<'_, ComputeCommand>,
        commands: &Vec<ArcComputeCommand>,
        writes: Option<ComputePassTimestampWrites>,
    )
        ensures
            final(self)@ == old(self)@.traced(trace_of(base@, commands@, writes)),
    {
        if self.commands.is_some() {
            let command: Command = trace_pass(base, commands, writes);
            let mut list: Vec<Command> = match self.commands.take() {
                Some(list) => list,
                None => Vec::new(),
            };
            let ghost before = list@;
            list.push(command);
            assert(trace::command_views(list@) =~= trace::command_views(before).push(command@));
            self.commands = Some(list);
        }
    }
}

} // verus!
