//! What a recorded pass holds, told by the calls that recorded it.
//!
//! A call that would set what is set already is not recorded. All the same nothing that was asked for is
//! lost: the commands say of each slot, and of the pipeline, what was asked for last, and they hold all
//! the rest call by call.
use crate::command::{BaseView, ComputeCommand};
use crate::id::{BindGroupId, BufferId, ComputePipelineId, QuerySetId};
use crate::pass;
use crate::pass::PassView;
use crate::state_change;
use crate::types::{BufferAddress, DynamicOffset, MAX_BIND_GROUPS, PUSH_CONSTANT_ALIGNMENT};
use vstd::prelude::*;

verus! {

/// A call that records something in a pass.
pub enum PassCall {
    SetBindGroup { index: u32, bind_group_id: BindGroupId, offsets: Seq<DynamicOffset> },
    SetPipeline(ComputePipelineId),
    SetPushConstant { offset: u32, data: Seq<u8> },
    Dispatch([u32; 3]),
    DispatchIndirect { buffer_id: BufferId, offset: BufferAddress },
    PushDebugGroup { label: Seq<char>, color: u32 },
    PopDebugGroup,
    InsertDebugMarker { label: Seq<char>, color: u32 },
    WriteTimestamp { query_set_id: QuerySetId, query_index: u32 },
    BeginPipelineStatisticsQuery { query_set_id: QuerySetId, query_index: u32 },
    EndPipelineStatisticsQuery,
}

impl PassCall {
    /// The command that the call records, behind so many words of push constants.
    pub open spec fn command(self, words: nat) -> ComputeCommand {
        match self {
            PassCall::SetBindGroup { index, bind_group_id, offsets } => {
                ComputeCommand::SetBindGroup {
                    index,
                    num_dynamic_offsets: offsets.len() as usize,
                    bind_group_id,
                }
            },
            PassCall::SetPipeline(id) => ComputeCommand::SetPipeline(id),
            PassCall::SetPushConstant { offset, data } => ComputeCommand::SetPushConstant {
                offset,
                size_bytes: data.len() as u32,
                values_offset: words as u32,
            },
            PassCall::Dispatch(groups) => ComputeCommand::Dispatch(groups),
            PassCall::DispatchIndirect { buffer_id, offset } => {
                ComputeCommand::DispatchIndirect { buffer_id, offset }
            },
            PassCall::PushDebugGroup { label, color } => ComputeCommand::PushDebugGroup {
                color,
                len: vstd::utf8::encode_utf8(label).len() as usize,
            },
            PassCall::PopDebugGroup => ComputeCommand::PopDebugGroup,
            PassCall::InsertDebugMarker { label, color } => ComputeCommand::InsertDebugMarker {
                color,
                len: vstd::utf8::encode_utf8(label).len() as usize,
            },
            PassCall::WriteTimestamp { query_set_id, query_index } => {
                ComputeCommand::WriteTimestamp { query_set_id, query_index }
            },
            PassCall::BeginPipelineStatisticsQuery { query_set_id, query_index } => {
                ComputeCommand::BeginPipelineStatisticsQuery { query_set_id, query_index }
            },
            PassCall::EndPipelineStatisticsQuery => ComputeCommand::EndPipelineStatisticsQuery,
        }
    }

    /// The dynamic offsets that are recorded with the command.
    pub open spec fn offsets(self) -> Seq<DynamicOffset> {
        match self {
            PassCall::SetBindGroup { offsets, .. } => offsets,
            _ => Seq::empty(),
        }
    }

    /// The string data that is recorded with the command.
    pub open spec fn string(self) -> Seq<u8> {
        match self {
            PassCall::PushDebugGroup { label, .. } => vstd::utf8::encode_utf8(label),
            PassCall::InsertDebugMarker { label, .. } => vstd::utf8::encode_utf8(label),
            _ => Seq::empty(),
        }
    }

    /// The push constants that are recorded with the command.
    pub open spec fn words(self) -> Seq<u32> {
        match self {
            PassCall::SetPushConstant { data, .. } => pass::native_words(data),
            _ => Seq::empty(),
        }
    }
}

impl BaseView {
    /// The pass with what the call records.
    pub open spec fn with_call(self, call: PassCall) -> Self {
        self.record(
            call.command(self.push_constant_data.len()),
            call.offsets(),
            call.string(),
            call.words(),
        )
    }
}

impl PassView {
    /// The call would set what is set already.
    pub open spec fn is_redundant(self, call: PassCall) -> bool {
        match call {
            PassCall::SetBindGroup { index, bind_group_id, offsets } => {
                state_change::is_redundant_group(
                    self.current_bind_groups,
                    bind_group_id,
                    index,
                    offsets,
                )
            },
            PassCall::SetPipeline(id) => self.current_pipeline == Some(id),
            _ => false,
        }
    }

    /// The pass after a call.
    pub open spec fn after(self, call: PassCall) -> Self {
        PassView {
            base: if self.is_redundant(call) {
                self.base
            } else {
                self.base.with_call(call)
            },
            current_bind_groups: match call {
                PassCall::SetBindGroup { index, bind_group_id, offsets } => {
                    state_change::remembered_groups(
                        self.current_bind_groups,
                        bind_group_id,
                        index,
                        offsets,
                    )
                },
                _ => self.current_bind_groups,
            },
            current_pipeline: match call {
                PassCall::SetPipeline(id) => Some(id),
                _ => self.current_pipeline,
            },
            ..self
        }
    }

    /// The pass after the first `n` of some calls.
    pub open spec fn after_all(self, calls: Seq<PassCall>, n: nat) -> Self
        decreases n,
    {
        if n == 0 {
            self
        } else {
            self.after_all(calls, (n - 1) as nat).after(calls[n - 1])
        }
    }

    /// The call can be made: its data can be counted, and push constants come in whole words and still
    /// have room in the pass.
    pub open spec fn allows(self, call: PassCall) -> bool {
        match call {
            PassCall::SetBindGroup { offsets, .. } => offsets.len() <= usize::MAX,
            PassCall::SetPushConstant { offset, data } => {
                &&& offset % PUSH_CONSTANT_ALIGNMENT == 0
                &&& data.len() % PUSH_CONSTANT_ALIGNMENT as nat == 0
                &&& data.len() <= u32::MAX
                &&& self.base.push_constant_data.len() <= u32::MAX
            },
            PassCall::PushDebugGroup { label, .. } => vstd::utf8::encode_utf8(label).len()
                <= usize::MAX,
            PassCall::InsertDebugMarker { label, .. } => vstd::utf8::encode_utf8(label).len()
                <= usize::MAX,
            _ => true,
        }
    }

    /// Each of some calls can be made, one after the other.
    pub open spec fn allows_all(self, calls: Seq<PassCall>) -> bool {
        forall|n: int|
            0 <= n < calls.len() ==> self.after_all(calls, n as nat).allows(#[trigger] calls[n])
    }

    /// Nothing has been recorded yet.
    pub open spec fn is_new(self) -> bool {
        &&& self.base == BaseView::empty(self.base.label)
        &&& self.current_bind_groups == Seq::new(
            MAX_BIND_GROUPS as nat,
            |i: int| None::<BindGroupId>,
        )
        &&& self.current_pipeline is None
    }
}

/// The last of the first `n` commands that binds a group to a slot.
pub open spec fn last_binding(commands: Seq<ComputeCommand>, slot: u32, n: nat) -> Option<int>
    decreases n,
{
    if n == 0 {
        None
    } else {
        match commands[n - 1] {
            ComputeCommand::SetBindGroup { index, .. } if index == slot => Some(n - 1),
            _ => last_binding(commands, slot, (n - 1) as nat),
        }
    }
}

/// The pipeline that the last of the first `n` commands that sets one sets.
pub open spec fn last_pipeline(commands: Seq<ComputeCommand>, n: nat) -> Option<ComputePipelineId>
    decreases n,
{
    if n == 0 {
        None
    } else {
        match commands[n - 1] {
            ComputeCommand::SetPipeline(id) => Some(id),
            _ => last_pipeline(commands, (n - 1) as nat),
        }
    }
}

/// The group that is bound to a slot by the last command for it, if that is without dynamic offsets.
pub open spec fn plain_group(commands: Seq<ComputeCommand>, slot: u32) -> Option<BindGroupId> {
    match last_binding(commands, slot, commands.len()) {
        Some(i) => match commands[i] {
            ComputeCommand::SetBindGroup { num_dynamic_offsets, bind_group_id, .. } => {
                if num_dynamic_offsets == 0 {
                    Some(bind_group_id)
                } else {
                    None
                }
            },
            _ => None,
        },
        None => None,
    }
}

/// The number of words of push constants that belong to a command.
pub open spec fn words_taken(command: ComputeCommand) -> nat {
    match command {
        ComputeCommand::SetPushConstant { size_bytes, .. } => (size_bytes
            / PUSH_CONSTANT_ALIGNMENT) as nat,
        _ => 0,
    }
}

/// The number of words of push constants that belong to the first `n` commands.
pub open spec fn words_before(commands: Seq<ComputeCommand>, n: nat) -> nat
    decreases n,
{
    if n == 0 {
        0
    } else {
        words_before(commands, (n - 1) as nat) + words_taken(commands[n - 1])
    }
}

/// The push constants of the commands tile the data: those of each command begin where those of the
/// commands before it end, and all of them together are the data.
pub open spec fn constants_tile(base: BaseView) -> bool {
    let n = base.commands.len();
    &&& words_before(base.commands, n) == base.push_constant_data.len()
    &&& forall|i: int|
        0 <= i < n ==> match #[trigger] base.commands[i] {
            ComputeCommand::SetPushConstant { values_offset, .. } => values_offset == words_before(
                base.commands,
                i as nat,
            ),
            _ => true,
        }
}

/// The streams fit the commands, the push constants tile their data, and what is remembered of slots
/// and pipeline is what the commands say.
pub open spec fn is_faithful(pass: PassView) -> bool {
    let commands = pass.base.commands;
    &&& pass.base.streams_fit()
    &&& constants_tile(pass.base)
    &&& pass.current_pipeline == last_pipeline(commands, commands.len())
    &&& pass.current_bind_groups == Seq::new(
        MAX_BIND_GROUPS as nat,
        |slot: int| plain_group(commands, slot as u32),
    )
}

proof fn lemma_record_prefix(
    commands: Seq<ComputeCommand>,
    command: ComputeCommand,
    slot: u32,
    n: nat,
)
    requires
        n <= commands.len(),
    ensures
        last_binding(commands.push(command), slot, n) == last_binding(commands, slot, n),
        last_pipeline(commands.push(command), n) == last_pipeline(commands, n),
        words_before(commands.push(command), n) == words_before(commands, n),
    decreases n,
{
    if n > 0 {
        lemma_record_prefix(commands, command, slot, (n - 1) as nat);
    }
}

proof fn lemma_last_binding(commands: Seq<ComputeCommand>, slot: u32, n: nat)
    ensures
        last_binding(commands, slot, n) matches Some(i) ==> 0 <= i < n && (commands[i] matches
            ComputeCommand::SetBindGroup { index, .. } && index == slot),
    decreases n,
{
    if n > 0 {
        lemma_last_binding(commands, slot, (n - 1) as nat);
    }
}

pub(crate) proof fn lemma_record(pass: PassView, call: PassCall)
    requires
        is_faithful(pass),
        pass.allows(call),
    ensures
        pass.base.with_call(call).streams_fit(),
        constants_tile(pass.base.with_call(call)),
        pass.base.with_call(call).offsets_of(pass.base.commands.len() as int) == call.offsets(),
        pass.base.with_call(call).string_of(pass.base.commands.len() as int) == call.string(),
        call is SetPushConstant ==> pass.base.with_call(call).words_of(
            pass.base.commands.len() as int,
        ) == call.words(),
        forall|i: int|
            0 <= i < pass.base.commands.len() ==> pass.base.with_call(call).offsets_of(i)
                == #[trigger] pass.base.offsets_of(i),
        forall|i: int|
            0 <= i < pass.base.commands.len() ==> pass.base.with_call(call).string_of(i)
                == #[trigger] pass.base.string_of(i),
        forall|i: int|
            0 <= i < pass.base.commands.len() ==> pass.base.with_call(call).words_of(i)
                == #[trigger] pass.base.words_of(i),
{
    let base = pass.base;
    let n = base.commands.len();
    let command = call.command(base.push_constant_data.len());
    let after = base.with_call(call);
    match call {
        PassCall::PushDebugGroup { label, .. } => {
            vstd::utf8::encode_utf8_valid_utf8(label);
        },
        PassCall::InsertDebugMarker { label, .. } => {
            vstd::utf8::encode_utf8_valid_utf8(label);
        },
        _ => {
            assert(vstd::utf8::valid_utf8(Seq::<u8>::empty()));
        },
    }
    pass::recording_keeps_streams(
        base,
        command,
        call.offsets(),
        call.string(),
        call.words(),
    );
    if call is SetPushConstant {
        assert(call.words().take(call.words().len() as int) =~= call.words());
    }
    lemma_record_prefix(base.commands, command, 0, n);
    assert(after.commands[n as int] == command);
    assert(call.words().len() == words_taken(command));
    assert(words_before(after.commands, n + 1) == after.push_constant_data.len());
    assert forall|i: int| 0 <= i < n + 1 implies match #[trigger] after.commands[i] {
        ComputeCommand::SetPushConstant { values_offset, .. } => values_offset == words_before(
            after.commands,
            i as nat,
        ),
        _ => true,
    } by {
        lemma_record_prefix(base.commands, command, 0, i as nat);
        if i < n {
            assert(after.commands[i] == base.commands[i]);
        }
    }
    assert(constants_tile(after));
}

/// Each call keeps a pass faithful, and a new pass is.
pub proof fn recording_is_faithful(start: PassView, calls: Seq<PassCall>, n: nat)
    requires
        start.is_new(),
        start.allows_all(calls),
        n <= calls.len(),
    ensures
        is_faithful(start.after_all(calls, n)),
    decreases n,
{
    if n == 0 {
        assert(start.current_bind_groups =~= Seq::new(
            MAX_BIND_GROUPS as nat,
            |slot: int| plain_group(start.base.commands, slot as u32),
        ));
    } else {
        recording_is_faithful(start, calls, (n - 1) as nat);
        let before = start.after_all(calls, (n - 1) as nat);
        assert(before.allows(calls[n - 1]));
        lemma_call_is_faithful(before, calls[n - 1]);
    }
}

proof fn lemma_call_is_faithful(before: PassView, call: PassCall)
    requires
        is_faithful(before),
        before.allows(call),
    ensures
        is_faithful(before.after(call)),
{
    let after = before.after(call);
    let commands = before.base.commands;
    let n = commands.len();
    lemma_record(before, call);
    assert forall|slot: int| 0 <= slot < MAX_BIND_GROUPS implies after.current_bind_groups[slot]
        == plain_group(after.base.commands, slot as u32) by {
        assert(before.current_bind_groups[slot] == plain_group(commands, slot as u32));
        lemma_last_binding(commands, slot as u32, n);
        if !before.is_redundant(call) {
            lemma_record_prefix(
                commands,
                call.command(before.base.push_constant_data.len()),
                slot as u32,
                n,
            );
        }
    }
    assert(after.current_bind_groups =~= Seq::new(
        MAX_BIND_GROUPS as nat,
        |slot: int| plain_group(after.base.commands, slot as u32),
    ));
    if !before.is_redundant(call) {
        lemma_record_prefix(commands, call.command(before.base.push_constant_data.len()), 0, n);
    }
}

/// The push constants that the first `n` calls ask for, and where they begin.
pub open spec fn asked_constants(calls: Seq<PassCall>, n: nat) -> Seq<(u32, Seq<u32>)>
    decreases n,
{
    if n == 0 {
        Seq::empty()
    } else {
        let before = asked_constants(calls, (n - 1) as nat);
        match calls[n - 1] {
            PassCall::SetPushConstant { offset, data } => before.push(
                (offset, pass::native_words(data)),
            ),
            _ => before,
        }
    }
}

/// The push constants that the first `n` commands set, and where they begin.
pub open spec fn recorded_constants(base: BaseView, n: nat) -> Seq<(u32, Seq<u32>)>
    decreases n,
{
    if n == 0 {
        Seq::empty()
    } else {
        let before = recorded_constants(base, (n - 1) as nat);
        match base.commands[n - 1] {
            ComputeCommand::SetPushConstant { offset, .. } => before.push(
                (offset, base.words_of(n - 1)),
            ),
            _ => before,
        }
    }
}

proof fn lemma_recorded_constants_kept(pass: PassView, call: PassCall, n: nat)
    requires
        is_faithful(pass),
        pass.allows(call),
        n <= pass.base.commands.len(),
    ensures
        recorded_constants(pass.base.with_call(call), n) == recorded_constants(pass.base, n),
    decreases n,
{
    if n > 0 {
        lemma_recorded_constants_kept(pass, call, (n - 1) as nat);
        lemma_record(pass, call);
        assert(pass.base.with_call(call).words_of(n - 1) == pass.base.words_of(n - 1));
    }
}

/// There is one command for each call that sets push constants, in the order of the calls, with the
/// words that were asked for. Their words tile the data of the pass, without a gap and without an
/// overlap.
pub proof fn push_constants_are_recorded(start: PassView, calls: Seq<PassCall>, n: nat)
    requires
        start.is_new(),
        start.allows_all(calls),
        n <= calls.len(),
    ensures
        constants_tile(start.after_all(calls, n).base),
        recorded_constants(
            start.after_all(calls, n).base,
            start.after_all(calls, n).base.commands.len(),
        ) == asked_constants(calls, n),
    decreases n,
{
    recording_is_faithful(start, calls, n);
    if n > 0 {
        push_constants_are_recorded(start, calls, (n - 1) as nat);
        recording_is_faithful(start, calls, (n - 1) as nat);
        let before = start.after_all(calls, (n - 1) as nat);
        let call = calls[n - 1];
        assert(before.allows(call));
        lemma_record(before, call);
        lemma_recorded_constants_kept(before, call, before.base.commands.len());
    }
}

/// The group, with its dynamic offsets, that the last of the first `n` calls for a slot asks for.
pub open spec fn last_asked(calls: Seq<PassCall>, slot: u32, n: nat) -> Option<
    (BindGroupId, Seq<DynamicOffset>),
>
    decreases n,
{
    if n == 0 {
        None
    } else {
        match calls[n - 1] {
            PassCall::SetBindGroup { index, bind_group_id, offsets } if index == slot => Some(
                (bind_group_id, offsets),
            ),
            _ => last_asked(calls, slot, (n - 1) as nat),
        }
    }
}

/// The last command for a slot says what was asked for.
pub open spec fn is_bound_as_asked(
    base: BaseView,
    slot: u32,
    asked: Option<(BindGroupId, Seq<DynamicOffset>)>,
) -> bool {
    match (last_binding(base.commands, slot, base.commands.len()), asked) {
        (Some(i), Some((bind_group_id, offsets))) => {
            &&& base.commands[i] == (ComputeCommand::SetBindGroup {
                index: slot,
                num_dynamic_offsets: offsets.len() as usize,
                bind_group_id,
            })
            &&& base.offsets_of(i) == offsets
        },
        (None, None) => true,
        _ => false,
    }
}

proof fn lemma_redundant_binding(before: PassView, call: PassCall, slot: u32)
    requires
        is_faithful(before),
        before.is_redundant(call),
        call matches PassCall::SetBindGroup { index, .. } && index == slot,
    ensures
        is_bound_as_asked(before.base, slot, Some((call->bind_group_id, call->offsets))),
{
    let commands = before.base.commands;
    lemma_last_binding(commands, slot, commands.len());
    assert(before.current_bind_groups[slot as int] == plain_group(commands, slot));
    let i = last_binding(commands, slot, commands.len())->0;
    pass::lemma_taken_grows(commands, (i + 1) as nat, commands.len());
    assert(before.base.offsets_of(i) =~= call->offsets);
}

proof fn lemma_recorded_binding(
    before: PassView,
    call: PassCall,
    slot: u32,
    asked: Option<(BindGroupId, Seq<DynamicOffset>)>,
)
    requires
        is_faithful(before),
        before.allows(call),
        is_bound_as_asked(before.base, slot, asked),
    ensures
        is_bound_as_asked(
            before.base.with_call(call),
            slot,
            match call {
                PassCall::SetBindGroup { index, bind_group_id, offsets } if index == slot => Some(
                    (bind_group_id, offsets),
                ),
                _ => asked,
            },
        ),
{
    let base = before.base;
    let after = base.with_call(call);
    let n = base.commands.len();
    let command = call.command(base.push_constant_data.len());
    lemma_record(before, call);
    lemma_record_prefix(base.commands, command, slot, n);
    lemma_last_binding(base.commands, slot, n);
    assert(after.commands[n as int] == command);
    if let Some(i) = last_binding(base.commands, slot, n) {
        assert(after.offsets_of(i) == base.offsets_of(i));
        assert(after.commands[i] == base.commands[i]);
    }
}

/// Leaving out repetitions loses nothing: the last command for a slot binds the group that was asked for
/// last, with its dynamic offsets. All dynamic offsets of the pass belong to a command.
pub proof fn groups_are_recorded(start: PassView, calls: Seq<PassCall>, slot: u32, n: nat)
    requires
        start.is_new(),
        start.allows_all(calls),
        n <= calls.len(),
    ensures
        is_bound_as_asked(start.after_all(calls, n).base, slot, last_asked(calls, slot, n)),
        pass::offsets_before(
            start.after_all(calls, n).base.commands,
            start.after_all(calls, n).base.commands.len(),
        ) == start.after_all(calls, n).base.dynamic_offsets.len(),
    decreases n,
{
    recording_is_faithful(start, calls, n);
    if n > 0 {
        groups_are_recorded(start, calls, slot, (n - 1) as nat);
        recording_is_faithful(start, calls, (n - 1) as nat);
        let before = start.after_all(calls, (n - 1) as nat);
        let call = calls[n - 1];
        assert(before.allows(call));
        if !before.is_redundant(call) {
            lemma_recorded_binding(before, call, slot, last_asked(calls, slot, (n - 1) as nat));
        } else if call matches PassCall::SetBindGroup { index, .. } && index == slot {
            lemma_redundant_binding(before, call, slot);
        }
    }
}

/// No command sets the pipeline that is set already.
pub open spec fn pipelines_change(commands: Seq<ComputeCommand>) -> bool {
    forall|j: int|
        0 <= j < commands.len() ==> match #[trigger] commands[j] {
            ComputeCommand::SetPipeline(id) => last_pipeline(commands, j as nat) != Some(id),
            _ => true,
        }
}

proof fn lemma_pipelines_change(start: PassView, calls: Seq<PassCall>, n: nat)
    requires
        start.is_new(),
        start.allows_all(calls),
        n <= calls.len(),
    ensures
        pipelines_change(start.after_all(calls, n).base.commands),
    decreases n,
{
    if n > 0 {
        lemma_pipelines_change(start, calls, (n - 1) as nat);
        recording_is_faithful(start, calls, (n - 1) as nat);
        let before = start.after_all(calls, (n - 1) as nat);
        let call = calls[n - 1];
        let commands = before.base.commands;
        if !before.is_redundant(call) {
            let command = call.command(before.base.push_constant_data.len());
            let after = commands.push(command);
            assert forall|j: int| 0 <= j < after.len() implies match #[trigger] after[j] {
                ComputeCommand::SetPipeline(id) => last_pipeline(after, j as nat) != Some(id),
                _ => true,
            } by {
                lemma_record_prefix(commands, command, 0, j as nat);
                if j < commands.len() {
                    assert(after[j] == commands[j]);
                }
            }
        }
    }
}

/// Setting a pipeline records a command unless the last command that sets one sets the same. Either way
/// the last command that sets one sets the pipeline that was asked for, and of two such commands that
/// follow each other, whatever stands between them, the second one sets another pipeline.
pub proof fn pipelines_are_recorded(
    start: PassView,
    calls: Seq<PassCall>,
    pipeline_id: ComputePipelineId,
)
    requires
        start.is_new(),
        start.allows_all(calls),
    ensures
        ({
            let before = start.after_all(calls, calls.len());
            let after = before.after(PassCall::SetPipeline(pipeline_id));
            let last = last_pipeline(before.base.commands, before.base.commands.len());
            &&& before.current_pipeline == last
            &&& after.base == if last == Some(pipeline_id) {
                before.base
            } else {
                before.base.record_plain(ComputeCommand::SetPipeline(pipeline_id))
            }
            &&& last_pipeline(after.base.commands, after.base.commands.len()) == Some(pipeline_id)
            &&& pipelines_change(before.base.commands)
        }),
{
    let before = start.after_all(calls, calls.len());
    recording_is_faithful(start, calls, calls.len());
    lemma_pipelines_change(start, calls, calls.len());
    let call = PassCall::SetPipeline(pipeline_id);
    assert(before.base.with_call(call) =~= before.base.record_plain(
        ComputeCommand::SetPipeline(pipeline_id),
    ));
}

proof fn lemma_slot_remembered(
    start: PassView,
    calls: Seq<PassCall>,
    k: int,
    slot: u32,
    bind_group_id: BindGroupId,
    n: nat,
)
    requires
        start.current_bind_groups.len() == MAX_BIND_GROUPS,
        slot < MAX_BIND_GROUPS,
        0 <= k < calls.len(),
        calls[k] == (PassCall::SetBindGroup { index: slot, bind_group_id, offsets: Seq::empty() }),
        forall|j: int|
            k < j < calls.len() ==> !((#[trigger] calls[j]) matches PassCall::SetBindGroup {
                index,
                ..
            } && index == slot),
        n <= calls.len(),
    ensures
        start.after_all(calls, n).current_bind_groups.len() == MAX_BIND_GROUPS,
        k < n ==> start.after_all(calls, n).current_bind_groups[slot as int] == Some(bind_group_id),
    decreases n,
{
    if n > 0 {
        lemma_slot_remembered(start, calls, k, slot, bind_group_id, (n - 1) as nat);
        if k < n - 1 {
            assert(!(calls[n - 1] matches PassCall::SetBindGroup { index, .. } && index == slot));
        }
    }
}

/// Binding a group without dynamic offsets to a slot is redundant where the last call for that slot bound
/// the same group without dynamic offsets, whatever was recorded since: it changes nothing at all.
pub proof fn binding_again_records_nothing(
    start: PassView,
    calls: Seq<PassCall>,
    k: int,
    slot: u32,
    bind_group_id: BindGroupId,
)
    requires
        start.current_bind_groups.len() == MAX_BIND_GROUPS,
        slot < MAX_BIND_GROUPS,
        0 <= k < calls.len(),
        calls[k] == (PassCall::SetBindGroup { index: slot, bind_group_id, offsets: Seq::empty() }),
        forall|j: int|
            k < j < calls.len() ==> !((#[trigger] calls[j]) matches PassCall::SetBindGroup {
                index,
                ..
            } && index == slot),
    ensures
        start.after_all(calls, calls.len()).after(calls[k]) == start.after_all(calls, calls.len()),
{
    lemma_slot_remembered(start, calls, k, slot, bind_group_id, calls.len());
    let now = start.after_all(calls, calls.len());
    assert(now.after(calls[k]).current_bind_groups =~= now.current_bind_groups);
}

/// The words of some data hold its bytes four by four, in the order of the data: the first byte is the lowest one of
/// a word on a little-endian machine, and the highest one on a big-endian machine.
pub proof fn words_hold_their_bytes(data: Seq<u8>, i: int)
    requires
        data.len() % 4 == 0,
        0 <= i < data.len() / 4,
    ensures
        pass::native_words(data).len() == data.len() / 4,
        ({
            let word = pass::native_words(data)[i] as int;
            let first = data[4 * i] as int;
            let second = data[4 * i + 1] as int;
            let third = data[4 * i + 2] as int;
            let fourth = data[4 * i + 3] as int;
            match vstd::endian::endianness() {
                vstd::endian::Endian::Little => {
                    &&& word % 0x100 == first
                    &&& word / 0x100 % 0x100 == second
                    &&& word / 0x1_0000 % 0x100 == third
                    &&& word / 0x100_0000 == fourth
                },
                vstd::endian::Endian::Big => {
                    &&& word % 0x100 == fourth
                    &&& word / 0x100 % 0x100 == third
                    &&& word / 0x1_0000 % 0x100 == second
                    &&& word / 0x100_0000 == first
                },
            }
        }),
{
    let first = data[4 * i] as int;
    let second = data[4 * i + 1] as int;
    let third = data[4 * i + 2] as int;
    let fourth = data[4 * i + 3] as int;
    lemma_bytes_of_word(first, second, third, fourth);
    lemma_bytes_of_word(fourth, third, second, first);
}

proof fn lemma_bytes_of_word(a: int, b: int, c: int, d: int)
    requires
        0 <= a < 0x100,
        0 <= b < 0x100,
        0 <= c < 0x100,
        0 <= d < 0x100,
    ensures
        ({
            let word = a + 0x100 * b + 0x1_0000 * c + 0x100_0000 * d;
            &&& 0 <= word <= u32::MAX
            &&& word % 0x100 == a
            &&& word / 0x100 % 0x100 == b
            &&& word / 0x1_0000 % 0x100 == c
            &&& word / 0x100_0000 == d
        }),
{
    let word = a + 0x100 * b + 0x1_0000 * c + 0x100_0000 * d;
    assert(word / 0x100 == b + 0x100 * c + 0x1_0000 * d);
    assert(word / 0x1_0000 == c + 0x100 * d);
}

/// The command says what the call asked for.
pub open spec fn says(call: PassCall, command: ComputeCommand) -> bool {
    match (call, command) {
        (
            PassCall::SetBindGroup { index, bind_group_id, offsets },
            ComputeCommand::SetBindGroup { index: at, num_dynamic_offsets, bind_group_id: id },
        ) => at == index && id == bind_group_id && num_dynamic_offsets == offsets.len(),
        (PassCall::SetPipeline(id), ComputeCommand::SetPipeline(same)) => id == same,
        (
            PassCall::SetPushConstant { offset, data },
            ComputeCommand::SetPushConstant { offset: at, size_bytes, .. },
        ) => at == offset && size_bytes == data.len(),
        (PassCall::Dispatch(groups), ComputeCommand::Dispatch(same)) => groups == same,
        (
            PassCall::DispatchIndirect { buffer_id, offset },
            ComputeCommand::DispatchIndirect { buffer_id: id, offset: at },
        ) => id == buffer_id && at == offset,
        (
            PassCall::PushDebugGroup { label, color },
            ComputeCommand::PushDebugGroup { color: same, len },
        ) => color == same && len == vstd::utf8::encode_utf8(label).len(),
        (PassCall::PopDebugGroup, ComputeCommand::PopDebugGroup) => true,
        (
            PassCall::InsertDebugMarker { label, color },
            ComputeCommand::InsertDebugMarker { color: same, len },
        ) => color == same && len == vstd::utf8::encode_utf8(label).len(),
        (
            PassCall::WriteTimestamp { query_set_id, query_index },
            ComputeCommand::WriteTimestamp { query_set_id: id, query_index: index },
        ) => id == query_set_id && index == query_index,
        (
            PassCall::BeginPipelineStatisticsQuery { query_set_id, query_index },
            ComputeCommand::BeginPipelineStatisticsQuery { query_set_id: id, query_index: index },
        ) => id == query_set_id && index == query_index,
        (PassCall::EndPipelineStatisticsQuery, ComputeCommand::EndPipelineStatisticsQuery) => true,
        _ => false,
    }
}

/// A call adds one command, which says what was asked for, at the end of the pass, unless it would bind the group
/// that is bound, without dynamic offsets, or set the pipeline that is set: then it adds nothing. It changes nothing
/// that was recorded before, nor the label, the encoder and the timestamp writes of the pass.
pub proof fn calls_are_written_down(pass: PassView, call: PassCall)
    requires
        is_faithful(pass),
        pass.allows(call),
    ensures
        ({
            let before = pass.base;
            let after = pass.after(call).base;
            let n = before.commands.len();
            let again = match call {
                PassCall::SetBindGroup { index, bind_group_id, offsets } => offsets.len() == 0 && index
                    < 8 && plain_group(before.commands, index) == Some(bind_group_id),
                PassCall::SetPipeline(id) => last_pipeline(before.commands, n) == Some(id),
                _ => false,
            };
            &&& pass.after(call).parent_id == pass.parent_id
            &&& pass.after(call).timestamp_writes == pass.timestamp_writes
            &&& after.label == before.label
            &&& if again {
                after == before
            } else {
                &&& after.commands.len() == n + 1
                &&& forall|i: int|
                    0 <= i < n ==> #[trigger] after.commands[i] == before.commands[i]
                &&& says(call, after.commands[n as int])
            }
        }),
{
    if let PassCall::SetBindGroup { index, .. } = call {
        if index < 8 {
            assert(pass.current_bind_groups[index as int] == plain_group(
                pass.base.commands,
                index,
            ));
        }
    }
}

} // verus!
