//! What was recorded is what is run.
use crate::bind::BinderView;
use crate::command::{ArcComputeCommand, BaseView, ComputeCommand};
use crate::command_buffer;
use crate::error::ComputePassError;
use crate::hub;
use crate::hub::Hub;
use crate::id::BindGroupId;
use crate::pass;
use crate::pass::ComputePassTimestampWrites;
use crate::raw::RawView;
use crate::resource::{BindGroup, ComputePipeline};
use crate::run::{PassEnv, RunView, Step};
use crate::state_change;
use crate::trace::CommandView;
use crate::track;
use crate::types::{DynamicOffset, COMPUTE_STAGE, MAX_BIND_GROUPS, PUSH_CONSTANT_ALIGNMENT};
use std::sync::Arc;
use vstd::prelude::*;

verus! {

/// The commands, and the streams that they draw from, are those of a recorded pass.
pub open spec fn is_run_of(env: PassEnv, commands: Seq<ArcComputeCommand>, base: BaseView) -> bool {
    &&& command_buffer::unresolved(commands) == base.commands
    &&& env.dynamic_offsets@ == base.dynamic_offsets
    &&& env.string_data@ == base.string_data
    &&& env.push_constant_data@ == base.push_constant_data
}

/// Nothing has been taken from the streams yet.
pub open spec fn at_the_beginning(s: RunView) -> bool {
    s.dynamic_offset_count == 0 && s.string_offset == 0
}

proof fn lemma_step_takes(s: RunView, env: PassEnv, command: ArcComputeCommand)
    ensures
        s.step(env, command) matches Step::Done(t) ==> {
            &&& t.dynamic_offset_count == s.dynamic_offset_count + pass::offsets_taken(
                command.unresolved(),
            )
            &&& t.string_offset == s.string_offset + pass::bytes_taken(command.unresolved())
        },
{
}

/// The commands take what belongs to them from the streams, one after the other.
pub proof fn streams_are_taken_in_order(
    start: RunView,
    env: PassEnv,
    commands: Seq<ArcComputeCommand>,
    n: nat,
)
    requires
        n <= commands.len(),
        at_the_beginning(start),
    ensures
        start.steps(env, commands, n) matches Step::Done(t) ==> {
            &&& t.dynamic_offset_count == pass::offsets_before(
                command_buffer::unresolved(commands),
                n,
            )
            &&& t.string_offset == pass::bytes_before(command_buffer::unresolved(commands), n)
        },
    decreases n,
{
    if n > 0 {
        streams_are_taken_in_order(start, env, commands, (n - 1) as nat);
        if let Step::Done(s) = start.steps(env, commands, (n - 1) as nat) {
            assert(command_buffer::unresolved(commands)[n - 1] == commands[n - 1].unresolved());
            lemma_step_takes(s, env, commands[n - 1]);
        }
    }
}

/// The backend sees the label of a debug group or marker as it stands in the recorded pass, unless
/// labels are discarded.
pub proof fn labels_are_replayed(
    start: RunView,
    env: PassEnv,
    commands: Seq<ArcComputeCommand>,
    base: BaseView,
    n: nat,
)
    requires
        n < commands.len(),
        at_the_beginning(start),
        is_run_of(env, commands, base),
        !env.discard_hal_labels,
    ensures
        start.steps(env, commands, n + 1) matches Step::Done(t) ==> {
            &&& commands[n as int] is PushDebugGroup ==> t.out.raw.last()
                == RawView::BeginDebugMarker(base.label_of(n as int))
            &&& commands[n as int] is InsertDebugMarker ==> t.out.raw.last()
                == RawView::InsertDebugMarker(base.label_of(n as int))
        },
{
    streams_are_taken_in_order(start, env, commands, n);
    assert(command_buffer::unresolved(commands)[n as int] == commands[n as int].unresolved());
}

/// The group of a slot gets the dynamic offsets that were recorded with it.
pub proof fn offsets_are_replayed(
    start: RunView,
    env: PassEnv,
    commands: Seq<ArcComputeCommand>,
    base: BaseView,
    n: nat,
)
    requires
        n < commands.len(),
        at_the_beginning(start),
        start.binder.payloads.len() == MAX_BIND_GROUPS,
        is_run_of(env, commands, base),
    ensures
        start.steps(env, commands, n + 1) matches Step::Done(t) ==> (commands[n as int] matches
            ArcComputeCommand::SetBindGroup { index, bind_group, .. } ==> {
            &&& t.binder.payloads[index as int].group == Some(bind_group)
            &&& t.binder.payloads[index as int].dynamic_offsets == base.offsets_of(n as int)
        }),
{
    streams_are_taken_in_order(start, env, commands, n);
    lemma_slot_count(start, env, commands, n);
    assert(command_buffer::unresolved(commands)[n as int] == commands[n as int].unresolved());
}

proof fn lemma_slot_count(
    start: RunView,
    env: PassEnv,
    commands: Seq<ArcComputeCommand>,
    n: nat,
)
    requires
        n <= commands.len(),
        start.binder.payloads.len() == MAX_BIND_GROUPS,
    ensures
        start.steps(env, commands, n) matches Step::Done(t) ==> t.binder.payloads.len()
            == MAX_BIND_GROUPS,
    decreases n,
{
    if n > 0 {
        lemma_slot_count(start, env, commands, (n - 1) as nat);
    }
}

/// The backend gets the push constants that were recorded.
pub proof fn push_constants_are_replayed(
    start: RunView,
    env: PassEnv,
    commands: Seq<ArcComputeCommand>,
    base: BaseView,
    n: nat,
)
    requires
        n < commands.len(),
        is_run_of(env, commands, base),
    ensures
        start.steps(env, commands, n + 1) matches Step::Done(t) ==> (commands[n as int] matches
            ArcComputeCommand::SetPushConstant { offset, .. } ==> {
            t.out.raw.last() matches RawView::SetPushConstants { stages, offset: at, data, .. }
                && stages == COMPUTE_STAGE && at == offset && data == base.words_of(n as int)
        }),
{
    assert(command_buffer::unresolved(commands)[n as int] == commands[n as int].unresolved());
}

/// A label that was recorded is the label that is read back.
pub proof fn recorded_label_is_read_back(base: BaseView, command: ComputeCommand, label: Seq<char>)
    requires
        base.streams_fit(),
        command is PushDebugGroup || command is InsertDebugMarker,
        pass::bytes_taken(command) == vstd::utf8::encode_utf8(label).len(),
    ensures
        base.record(
            command,
            Seq::empty(),
            vstd::utf8::encode_utf8(label),
            Seq::empty(),
        ).label_of(base.commands.len() as int) == label,
{
    vstd::utf8::encode_utf8_valid_utf8(label);
    vstd::utf8::encode_utf8_decode_utf8(label);
    pass::recording_keeps_streams(
        base,
        command,
        Seq::empty(),
        vstd::utf8::encode_utf8(label),
        Seq::empty(),
    );
}

/// The push constants that were recorded are those that are read back.
pub proof fn recorded_push_constants_are_read_back(base: BaseView, offset: u32, data: Seq<u8>)
    requires
        base.streams_fit(),
        data.len() <= u32::MAX,
        data.len() % PUSH_CONSTANT_ALIGNMENT as nat == 0,
        base.push_constant_data.len() <= u32::MAX,
    ensures
        base.record(
            ComputeCommand::SetPushConstant {
                offset,
                size_bytes: data.len() as u32,
                values_offset: base.push_constant_data.len() as u32,
            },
            Seq::empty(),
            Seq::empty(),
            pass::native_words(data),
        ).words_of(base.commands.len() as int) == pass::native_words(data),
{
    let words = pass::native_words(data);
    pass::recording_keeps_streams(
        base,
        ComputeCommand::SetPushConstant {
            offset,
            size_bytes: data.len() as u32,
            values_offset: base.push_constant_data.len() as u32,
        },
        Seq::empty(),
        Seq::empty(),
        words,
    );
    assert(words.take(words.len() as int) =~= words);
}

/// The trace of a run says what the pass itself says as a traced call.
pub proof fn trace_is_the_pass(
    hub: Hub,
    base: BaseView,
    commands: Seq<ArcComputeCommand>,
    writes: Option<ComputePassTimestampWrites>,
)
    requires
        hub.keys_match(),
        hub::resolve_all(hub, base.commands, base.commands.len()) == Ok::<
            Seq<ArcComputeCommand>,
            ComputePassError,
        >(commands),
    ensures
        command_buffer::trace_of(base, commands, writes) == (CommandView::RunComputePass {
            base,
            timestamp_writes: writes,
        }),
{
    hub::resolving_keeps_commands(hub, base.commands, base.commands.len());
    assert(command_buffer::unresolved(commands) =~= base.commands);
}

/// Binding a group without dynamic offsets to a slot that it was bound to last, without dynamic
/// offsets too, is redundant. A group with dynamic offsets, or in a slot that does not exist, never is.
pub proof fn only_repetition_is_redundant(
    last: Seq<Option<BindGroupId>>,
    group: BindGroupId,
    index: u32,
    earlier: Seq<DynamicOffset>,
    offsets: Seq<DynamicOffset>,
)
    requires
        last.len() == MAX_BIND_GROUPS,
    ensures
        state_change::is_redundant_group(
            state_change::remembered_groups(last, group, index, earlier),
            group,
            index,
            offsets,
        ) == (index < MAX_BIND_GROUPS && earlier.len() == 0 && offsets.len() == 0),
        state_change::is_redundant_group(last, group, index, offsets)
            ==> state_change::remembered_groups(last, group, index, offsets) == last,
{
    if state_change::is_redundant_group(last, group, index, offsets) {
        assert(state_change::remembered_groups(last, group, index, offsets) =~= last);
    }
}

/// Leaving out a command that binds a group to the slot that it is bound to already loses nothing: to
/// bind it again would leave all slots as they are.
pub proof fn binding_again_changes_no_slot(
    binder: BinderView,
    index: int,
    group: Arc<BindGroup>,
    offsets: Seq<DynamicOffset>,
)
    requires
        binder.wf(),
        0 <= index < MAX_BIND_GROUPS,
    ensures
        binder.assign_group(index, group, offsets).assign_group(index, group, offsets)
            == binder.assign_group(index, group, offsets),
{
    let once = binder.assign_group(index, group, offsets);
    let twice = once.assign_group(index, group, offsets);
    assert(twice.payloads[index].late =~= once.payloads[index].late);
    assert(twice.payloads =~= once.payloads);
    assert(twice.slots =~= once.slots);
}

/// Leaving out a command that sets the pipeline that is set already loses nothing: to set it again
/// would only tell the backend what it knows.
pub proof fn setting_pipeline_again_only_repeats(s: RunView, pipeline: Arc<ComputePipeline>)
    ensures
        s.set_pipeline(pipeline) matches Step::Done(t) ==> t.set_pipeline(pipeline) == Step::Done(
            t.emit(RawView::SetComputePipeline(pipeline.raw)),
        ),
{
    if let Step::Done(t) = s.set_pipeline(pipeline) {
        let before = s.out.trackers.compute_pipelines;
        let once = track::insert_once(before, pipeline.id.0);
        assert(t.out.trackers.compute_pipelines == once);
        if !before.contains(pipeline.id.0) {
            assert(once[once.len() - 1] == pipeline.id.0);
        }
        assert(once.contains(pipeline.id.0));
        if let Step::Done(again) = t.set_pipeline(pipeline) {
            assert(again =~= t.emit(RawView::SetComputePipeline(pipeline.raw)));
        }
    }
}

} // verus!
