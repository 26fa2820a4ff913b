//! Recording a compute pass.
//!
//! A pass is recorded without looking at any object: recording a command only writes it down. What
//! is wrong with a command shows when the pass is run.
use crate::command::{BasePass, BasePassRef, BaseView, ComputeCommand};
use crate::history::PassCall;
use crate::id::{BindGroupId, BufferId, CommandEncoderId, ComputePipelineId, QuerySetId};
use crate::state_change;
use crate::state_change::{BindGroupStateChange, StateChange};
use crate::trace::Command;
use crate::types::{BufferAddress, DynamicOffset, MAX_BIND_GROUPS, PUSH_CONSTANT_ALIGNMENT};
use vstd::prelude::*;

verus! {

/// Describes the writing of timestamp values in a compute pass.
#[derive(Clone, Copy, Debug, PartialEq, Eq, Structural)]
pub struct ComputePassTimestampWrites {
    /// The query set to write the timestamps to.
    pub query_set: QuerySetId,
    /// The index of the query set at which a start timestamp of this pass is written, if any.
    pub beginning_of_pass_write_index: Option<u32>,
    /// The index of the query set at which an end timestamp of this pass is written, if any.
    pub end_of_pass_write_index: Option<u32>,
}

/// Describes a compute pass.
#[derive(Clone, Copy, Debug)]
pub struct ComputePassDescriptor<'a> {
    pub label: Option<&'a str>,
    /// Defines where and when timestamp values will be written for this pass.
    pub timestamp_writes: Option<&'a ComputePassTimestampWrites>,
}

impl<'a> Default for ComputePassDescriptor<'a> {
    /// No label, and no timestamps.
    fn default() -> (r: Self)
        ensures
            r.label is None,
            r.timestamp_writes is None,
    {
        ComputePassDescriptor { label: None, timestamp_writes: None }
    }
}

/// A compute pass that is being recorded.
pub struct ComputePass {
    base: BasePass<ComputeCommand>,
    parent_id: CommandEncoderId,
    timestamp_writes: Option<ComputePassTimestampWrites>,
    current_bind_groups: BindGroupStateChange,
    current_pipeline: StateChange<ComputePipelineId>,
}

/// The contents of a [`ComputePass`].
#[verifier::ext_equal]
pub struct PassView {
    pub base: BaseView,
    pub parent_id: CommandEncoderId,
    pub timestamp_writes: Option<ComputePassTimestampWrites>,
    /// For each slot, the group that was bound to it last, if that was without dynamic offsets.
    pub current_bind_groups: Seq<Option<BindGroupId>>,
    /// The pipeline that was set last.
    pub current_pipeline: Option<ComputePipelineId>,
}

impl View for ComputePass {
    type V = PassView;

    closed spec fn view(&self) -> PassView {
        PassView {
            base: self.base@,
            parent_id: self.parent_id,
            timestamp_writes: self.timestamp_writes,
            current_bind_groups: self.current_bind_groups@,
            current_pipeline: self.current_pipeline.last_state,
        }
    }
}

/// Every pass remembers all slots.
pub proof fn all_slots_are_remembered(pass: ComputePass)
    ensures
        pass@.current_bind_groups.len() == MAX_BIND_GROUPS,
{
}

/// The timestamp writes that a descriptor asks for.
pub open spec fn described_writes(writes: Option<&ComputePassTimestampWrites>) -> Option<
    ComputePassTimestampWrites,
> {
    match writes {
        Some(writes) => Some(*writes),
        None => None,
    }
}

/// The number of dynamic offsets that belong to a command.
pub open spec fn offsets_taken(command: ComputeCommand) -> nat {
    match command {
        ComputeCommand::SetBindGroup { num_dynamic_offsets, .. } => num_dynamic_offsets as nat,
        _ => 0,
    }
}

/// The number of bytes of string data that belong to a command.
pub open spec fn bytes_taken(command: ComputeCommand) -> nat {
    match command {
        ComputeCommand::PushDebugGroup { len, .. } => len as nat,
        ComputeCommand::InsertDebugMarker { len, .. } => len as nat,
        _ => 0,
    }
}

/// The number of dynamic offsets that belong to the first `n` commands.
pub open spec fn offsets_before(commands: Seq<ComputeCommand>, n: nat) -> nat
    decreases n,
{
    if n == 0 {
        0
    } else {
        offsets_before(commands, (n - 1) as nat) + offsets_taken(commands[n - 1])
    }
}

/// The number of bytes of string data that belong to the first `n` commands.
pub open spec fn bytes_before(commands: Seq<ComputeCommand>, n: nat) -> nat
    decreases n,
{
    if n == 0 {
        0
    } else {
        bytes_before(commands, (n - 1) as nat) + bytes_taken(commands[n - 1])
    }
}

impl BaseView {
    /// The string data that belongs to command `i`.
    pub open spec fn string_of(self, i: int) -> Seq<u8> {
        let start = bytes_before(self.commands, i as nat) as int;
        self.string_data.subrange(start, start + bytes_taken(self.commands[i]))
    }

    /// The label of the debug command `i`.
    pub open spec fn label_of(self, i: int) -> Seq<char> {
        vstd::utf8::decode_utf8(self.string_of(i))
    }

    /// The dynamic offsets that belong to command `i`.
    pub open spec fn offsets_of(self, i: int) -> Seq<DynamicOffset> {
        let start = offsets_before(self.commands, i as nat) as int;
        self.dynamic_offsets.subrange(start, start + offsets_taken(self.commands[i]))
    }

    /// The push constants that belong to command `i`.
    pub open spec fn words_of(self, i: int) -> Seq<u32> {
        match self.commands[i] {
            ComputeCommand::SetPushConstant { size_bytes, values_offset, .. } => {
                self.push_constant_data.subrange(
                    values_offset as int,
                    values_offset + size_bytes / PUSH_CONSTANT_ALIGNMENT,
                )
            },
            _ => Seq::empty(),
        }
    }

    /// The streams fit the commands: together, the commands take all dynamic offsets and all string
    /// data; each label is text; the push constants of each command are there.
    pub open spec fn streams_fit(self) -> bool {
        let n = self.commands.len();
        &&& offsets_before(self.commands, n) == self.dynamic_offsets.len()
        &&& bytes_before(self.commands, n) == self.string_data.len()
        &&& forall|i: int|
            0 <= i < n ==> #[trigger] vstd::utf8::valid_utf8(self.string_of(i))
        &&& forall|i: int|
            0 <= i < n ==> match #[trigger] self.commands[i] {
                ComputeCommand::SetPushConstant { size_bytes, values_offset, .. } => values_offset
                    + size_bytes / PUSH_CONSTANT_ALIGNMENT <= self.push_constant_data.len(),
                _ => true,
            }
    }

    /// The pass with one more command at its end, and more data at the end of its streams.
    pub open spec fn record(
        self,
        command: ComputeCommand,
        offsets: Seq<DynamicOffset>,
        string: Seq<u8>,
        words: Seq<u32>,
    ) -> Self {
        BaseView {
            label: self.label,
            commands: self.commands.push(command),
            dynamic_offsets: self.dynamic_offsets + offsets,
            string_data: self.string_data + string,
            push_constant_data: self.push_constant_data + words,
        }
    }

    /// The pass with one more command at its end that needs no data.
    pub open spec fn record_plain(self, command: ComputeCommand) -> Self {
        BaseView { commands: self.commands.push(command), ..self }
    }
}

/// What the first commands take from the streams does not depend on the commands behind them, and
/// never shrinks.
pub(crate) proof fn lemma_taken_before(
    commands: Seq<ComputeCommand>,
    command: ComputeCommand,
    n: nat,
)
    requires
        n <= commands.len(),
    ensures
        offsets_before(commands.push(command), n) == offsets_before(commands, n),
        bytes_before(commands.push(command), n) == bytes_before(commands, n),
    decreases n,
{
    if n > 0 {
        lemma_taken_before(commands, command, (n - 1) as nat);
    }
}

pub(crate) proof fn lemma_taken_grows(commands: Seq<ComputeCommand>, n: nat, m: nat)
    requires
        n <= m,
    ensures
        offsets_before(commands, n) <= offsets_before(commands, m),
        bytes_before(commands, n) <= bytes_before(commands, m),
    decreases m,
{
    if n < m {
        lemma_taken_grows(commands, n, (m - 1) as nat);
    }
}

proof fn lemma_record_keeps(
    base: BaseView,
    command: ComputeCommand,
    offsets: Seq<DynamicOffset>,
    string: Seq<u8>,
    words: Seq<u32>,
    i: int,
)
    requires
        base.streams_fit(),
        0 <= i < base.commands.len(),
    ensures
        base.record(command, offsets, string, words).offsets_of(i) == base.offsets_of(i),
        base.record(command, offsets, string, words).string_of(i) == base.string_of(i),
        base.record(command, offsets, string, words).words_of(i) == base.words_of(i),
{
    let after = base.record(command, offsets, string, words);
    lemma_taken_before(base.commands, command, i as nat);
    lemma_taken_grows(base.commands, (i + 1) as nat, base.commands.len());
    assert(after.commands[i] == base.commands[i]);
    assert(after.offsets_of(i) =~= base.offsets_of(i));
    assert(after.string_of(i) =~= base.string_of(i));
    assert(after.words_of(i) =~= base.words_of(i));
}

/// Recording a command keeps what belongs to the commands before it, gives the new command exactly
/// the data that was recorded with it, and leaves the streams fitting if they did.
pub proof fn recording_keeps_streams(
    base: BaseView,
    command: ComputeCommand,
    offsets: Seq<DynamicOffset>,
    string: Seq<u8>,
    words: Seq<u32>,
)
    requires
        base.streams_fit(),
        offsets.len() == offsets_taken(command),
        string.len() == bytes_taken(command),
        vstd::utf8::valid_utf8(string),
        match command {
            ComputeCommand::SetPushConstant { size_bytes, values_offset, .. } => values_offset
                == base.push_constant_data.len() && size_bytes / PUSH_CONSTANT_ALIGNMENT
                <= words.len(),
            _ => true,
        },
    ensures
        base.record(command, offsets, string, words).streams_fit(),
        base.record(command, offsets, string, words).offsets_of(base.commands.len() as int)
            == offsets,
        base.record(command, offsets, string, words).string_of(base.commands.len() as int)
            == string,
        command matches ComputeCommand::SetPushConstant { size_bytes, .. } ==> base.record(
            command,
            offsets,
            string,
            words,
        ).words_of(base.commands.len() as int) == words.take(
            (size_bytes / PUSH_CONSTANT_ALIGNMENT) as int,
        ),
        forall|i: int|
            0 <= i < base.commands.len() ==> base.record(
                command,
                offsets,
                string,
                words,
            ).offsets_of(i) == #[trigger] base.offsets_of(i),
        forall|i: int|
            0 <= i < base.commands.len() ==> base.record(
                command,
                offsets,
                string,
                words,
            ).string_of(i) == #[trigger] base.string_of(i),
        forall|i: int|
            0 <= i < base.commands.len() ==> base.record(
                command,
                offsets,
                string,
                words,
            ).words_of(i) == #[trigger] base.words_of(i),
{
    let after = base.record(command, offsets, string, words);
    let n = base.commands.len();
    lemma_taken_before(base.commands, command, n);
    assert(after.offsets_of(n as int) =~= offsets);
    assert(after.string_of(n as int) =~= string);
    if let ComputeCommand::SetPushConstant { size_bytes, .. } = command {
        assert(after.words_of(n as int) =~= words.take(
            (size_bytes / PUSH_CONSTANT_ALIGNMENT) as int,
        ));
    }
    assert forall|i: int| 0 <= i < n implies after.offsets_of(i) == #[trigger] base.offsets_of(
        i,
    ) by {
        lemma_record_keeps(base, command, offsets, string, words, i);
    }
    assert forall|i: int| 0 <= i < n implies after.string_of(i) == #[trigger] base.string_of(
        i,
    ) by {
        lemma_record_keeps(base, command, offsets, string, words, i);
    }
    assert forall|i: int| 0 <= i < n implies after.words_of(i) == #[trigger] base.words_of(i) by {
        lemma_record_keeps(base, command, offsets, string, words, i);
    }
    assert forall|i: int| 0 <= i < n + 1 implies #[trigger] vstd::utf8::valid_utf8(
        after.string_of(i),
    ) by {
        if i < n {
            assert(vstd::utf8::valid_utf8(base.string_of(i)));
        }
    }
    assert forall|i: int| 0 <= i < n + 1 implies match #[trigger] after.commands[i] {
        ComputeCommand::SetPushConstant { size_bytes, values_offset, .. } => values_offset
            + size_bytes / PUSH_CONSTANT_ALIGNMENT <= after.push_constant_data.len(),
        _ => true,
    } by {
        if i < n {
            assert(base.commands[i] == after.commands[i]);
        }
    }
}

proof fn lemma_record_plain(base: BaseView, command: ComputeCommand)
    requires
        base.streams_fit(),
        offsets_taken(command) == 0,
        bytes_taken(command) == 0,
        !(command is SetPushConstant),
    ensures
        base.record_plain(command).streams_fit(),
{
    recording_keeps_streams(base, command, Seq::empty(), Seq::empty(), Seq::empty());
    assert(base.record_plain(command) =~= base.record(
        command,
        Seq::empty(),
        Seq::empty(),
        Seq::empty(),
    ));
}

impl ComputePass {
    /// A pass without commands.
    pub fn new(parent_id: CommandEncoderId, desc: &ComputePassDescriptor<'_>) -> (r: Self)
        ensures
            r@ == (PassView {
                base: BaseView::empty(crate::command::str_view(desc.label)),
                parent_id,
                timestamp_writes: described_writes(desc.timestamp_writes),
                current_bind_groups: Seq::new(
                    MAX_BIND_GROUPS as nat,
                    |i: int| None::<BindGroupId>,
                ),
                current_pipeline: None,
            }),
            r@.is_new(),
            r@.base.streams_fit(),
    {
        let pass = ComputePass {
            base: BasePass::new(desc.label),
            parent_id,
            timestamp_writes: match desc.timestamp_writes {
                Some(writes) => Some(*writes),
                None => None,
            },
            current_bind_groups: BindGroupStateChange::new(),
            current_pipeline: StateChange::new(),
        };
        pass
    }

    /// A pass that was recorded elsewhere. What it has set and bound is not remembered: the next
    /// command is recorded in any case.
    pub fn from_parts(
        base: BasePass<ComputeCommand>,
        parent_id: CommandEncoderId,
        timestamp_writes: Option<ComputePassTimestampWrites>,
    ) -> (r: Self)
        ensures
            r@ == (PassView {
                base: base@,
                parent_id,
                timestamp_writes,
                current_bind_groups: Seq::new(
                    MAX_BIND_GROUPS as nat,
                    |i: int| None::<BindGroupId>,
                ),
                current_pipeline: None,
            }),
    {
        ComputePass {
            base,
            parent_id,
            timestamp_writes,
            current_bind_groups: BindGroupStateChange::new(),
            current_pipeline: StateChange::new(),
        }
    }

    /// The encoder that the pass belongs to.
    pub fn parent_id(&self) -> (r: CommandEncoderId)
        ensures
            r == self@.parent_id,
    {
        self.parent_id
    }

    /// The pass as a command of a trace.
    pub fn into_command(self) -> (r: Command)
        ensures
            r@ == (crate::trace::CommandView::RunComputePass {
                base: self@.base,
                timestamp_writes: self@.timestamp_writes,
            }),
    {
        Command::RunComputePass { base: self.base, timestamp_writes: self.timestamp_writes }
    }

    /// The commands of the pass and the streams that they draw from.
    pub fn base(&self) -> (r: BasePassRef<'_, ComputeCommand>)
        ensures
            r@ == self@.base,
    {
        self.base.as_ref()
    }

    /// Where the pass writes timestamps.
    pub fn timestamp_writes(&self) -> (r: Option<&ComputePassTimestampWrites>)
        ensures
            described_writes(r) == self@.timestamp_writes,
    {
        match &self.timestamp_writes {
            Some(writes) => Some(writes),
            None => None,
        }
    }

    fn push(&mut self, command: ComputeCommand)
        requires
            offsets_taken(command) == 0,
            bytes_taken(command) == 0,
            !(command is SetPushConstant),
        ensures
            final(self)@ == (PassView {
                base: old(self)@.base.record_plain(command),
                ..old(self)@
            }),
            old(self)@.base.streams_fit() ==> final(self)@.base.streams_fit(),
    {
        self.base.commands.push(command);
        proof {
            if old(self)@.base.streams_fit() {
                lemma_record_plain(old(self)@.base, command);
            }
        }
    }
}

/// Binds a group to a slot, with dynamic offsets. Nothing is recorded where the same group is bound
/// there already, without dynamic offsets then and now.
pub fn wgpu_compute_pass_set_bind_group(
    pass: &mut ComputePass,
    index: u32,
    bind_group_id: BindGroupId,
    offsets: &[DynamicOffset],
)
    ensures
        final(pass)@ == (PassView {
            base: if state_change::is_redundant_group(
                old(pass)@.current_bind_groups,
                bind_group_id,
                index,
                offsets@,
            ) {
                old(pass)@.base
            } else {
                old(pass)@.base.record(
                    ComputeCommand::SetBindGroup {
                        index,
                        num_dynamic_offsets: offsets@.len() as usize,
                        bind_group_id,
                    },
                    offsets@,
                    Seq::empty(),
                    Seq::empty(),
                )
            },
            current_bind_groups: state_change::remembered_groups(
                old(pass)@.current_bind_groups,
                bind_group_id,
                index,
                offsets@,
            ),
            ..old(pass)@
        }),
        final(pass)@ == old(pass)@.after(
            PassCall::SetBindGroup { index, bind_group_id, offsets: offsets@ },
        ),
        old(pass)@.current_bind_groups.len() == MAX_BIND_GROUPS,
        final(pass)@.current_bind_groups.len() == MAX_BIND_GROUPS,
        old(pass)@.base.streams_fit() ==> final(pass)@.base.streams_fit(),
{
    let redundant: bool = pass.current_bind_groups.set_and_check_redundant(
        bind_group_id,
        index,
        &mut pass.base.dynamic_offsets,
        offsets,
    );
    if redundant {
        assert(pass@.base =~= old(pass)@.base);
        return;
    }
    let command: ComputeCommand = ComputeCommand::SetBindGroup {
        index,
        num_dynamic_offsets: offsets.len(),
        bind_group_id,
    };
    pass.base.commands.push(command);
    proof {
        let before = old(pass)@.base;
        assert(pass@.base =~= before.record(command, offsets@, Seq::empty(), Seq::empty()));
        if before.streams_fit() {
            recording_keeps_streams(before, command, offsets@, Seq::empty(), Seq::empty());
        }
    }
}

/// Sets the pipeline. Nothing is recorded where it is set already.
pub fn wgpu_compute_pass_set_pipeline(pass: &mut ComputePass, pipeline_id: ComputePipelineId)
    ensures
        final(pass)@ == (PassView {
            base: if old(pass)@.current_pipeline == Some(pipeline_id) {
                old(pass)@.base
            } else {
                old(pass)@.base.record_plain(ComputeCommand::SetPipeline(pipeline_id))
            },
            current_pipeline: Some(pipeline_id),
            ..old(pass)@
        }),
        final(pass)@ == old(pass)@.after(PassCall::SetPipeline(pipeline_id)),
        old(pass)@.base.streams_fit() ==> final(pass)@.base.streams_fit(),
{
    if pass.current_pipeline.set_and_check_redundant(pipeline_id) {
        return;
    }
    pass.push(ComputeCommand::SetPipeline(pipeline_id));
}

/// The word that four bytes make in the byte order of the machine.
pub open spec fn native_word(b0: u8, b1: u8, b2: u8, b3: u8) -> int {
    match vstd::endian::endianness() {
        vstd::endian::Endian::Little => b0 + 0x100 * b1 + 0x1_0000 * b2 + 0x100_0000 * b3,
        vstd::endian::Endian::Big => b3 + 0x100 * b2 + 0x1_0000 * b1 + 0x100_0000 * b0,
    }
}

/// The words that the bytes of some data make, four by four, in the byte order of the machine.
pub open spec fn native_words(data: Seq<u8>) -> Seq<u32> {
    Seq::new(
        (data.len() / 4) as nat,
        |i: int|
            native_word(data[4 * i], data[4 * i + 1], data[4 * i + 2], data[4 * i + 3]) as u32,
    )
}

/// Calls `u32::from_ne_bytes`, which makes a word of four bytes: the first byte is the lowest one of
/// the word on a little-endian machine, and the highest one on a big-endian machine.
#[verifier::external_body]
fn word_from_ne_bytes(bytes: [u8; 4]) -> (r: u32)
    ensures
        r == native_word(bytes[0], bytes[1], bytes[2], bytes[3]),
{
    u32::from_ne_bytes(bytes)
}

/// Sets the push constants from byte `offset` on.
pub fn wgpu_compute_pass_set_push_constant(pass: &mut ComputePass, offset: u32, data: &[u8])
    requires
        offset % PUSH_CONSTANT_ALIGNMENT == 0,
        data@.len() % PUSH_CONSTANT_ALIGNMENT as nat == 0,
        old(pass)@.base.push_constant_data.len() <= u32::MAX,
    ensures
        final(pass)@ == (PassView {
            base: old(pass)@.base.record(
                ComputeCommand::SetPushConstant {
                    offset,
                    size_bytes: data@.len() as u32,
                    values_offset: old(pass)@.base.push_constant_data.len() as u32,
                },
                Seq::empty(),
                Seq::empty(),
                native_words(data@),
            ),
            ..old(pass)@
        }),
        final(pass)@ == old(pass)@.after(PassCall::SetPushConstant { offset, data: data@ }),
        old(pass)@.base.streams_fit() ==> final(pass)@.base.streams_fit(),
{
    let ghost before = old(pass)@;
    let ghost words = native_words(data@);
    let values_offset: u32 = pass.base.push_constant_data.len() as u32;
    let mut i: usize = 0;
    while i < data.len()
        invariant
            i <= data.len(),
            i % 4 == 0,
            data@.len() % 4 == 0,
            before == old(pass)@,
            words == native_words(data@),
            pass@ == (PassView {
                base: BaseView {
                    push_constant_data: before.base.push_constant_data + words.take(i as int / 4),
                    ..before.base
                },
                ..before
            }),
        decreases data.len() - i,
    {
        let word: u32 = word_from_ne_bytes([data[i], data[i + 1], data[i + 2], data[i + 3]]);
        pass.base.push_constant_data.push(word);
        proof {
            let k = i as int / 4;
            assert(words[k] == word);
            assert(before.base.push_constant_data + words.take(k + 1) =~= (
            before.base.push_constant_data + words.take(k)).push(word));
        }
        i = i + 4;
    }
    assert(words.take(words.len() as int) =~= words);
    let size_bytes: u32 = data.len() as u32;
    let command: ComputeCommand = ComputeCommand::SetPushConstant {
        offset,
        size_bytes,
        values_offset,
    };
    pass.base.commands.push(command);
    proof {
        assert(pass@.base =~= before.base.record(command, Seq::empty(), Seq::empty(), words));
        let len: usize = data.len();
        assert((len as u32) <= len) by (bit_vector);
        if before.base.streams_fit() {
            recording_keeps_streams(before.base, command, Seq::empty(), Seq::empty(), words);
        }
    }
}

/// Runs the pipeline on a grid of groups.
pub fn wgpu_compute_pass_dispatch_workgroups(
    pass: &mut ComputePass,
    groups_x: u32,
    groups_y: u32,
    groups_z: u32,
)
    ensures
        final(pass)@ == (PassView {
            base: old(pass)@.base.record_plain(
                ComputeCommand::Dispatch([groups_x, groups_y, groups_z]),
            ),
            ..old(pass)@
        }),
        final(pass)@ == old(pass)@.after(
            PassCall::Dispatch([groups_x, groups_y, groups_z]),
        ),
        old(pass)@.base.streams_fit() ==> final(pass)@.base.streams_fit(),
{
    pass.push(ComputeCommand::Dispatch([groups_x, groups_y, groups_z]));
}

/// Runs the pipeline on a grid of groups whose size stands in a buffer.
pub fn wgpu_compute_pass_dispatch_workgroups_indirect(
    pass: &mut ComputePass,
    buffer_id: BufferId,
    offset: BufferAddress,
)
    ensures
        final(pass)@ == (PassView {
            base: old(pass)@.base.record_plain(
                ComputeCommand::DispatchIndirect { buffer_id, offset },
            ),
            ..old(pass)@
        }),
        final(pass)@ == old(pass)@.after(PassCall::DispatchIndirect { buffer_id, offset }),
        old(pass)@.base.streams_fit() ==> final(pass)@.base.streams_fit(),
{
    pass.push(ComputeCommand::DispatchIndirect { buffer_id, offset });
}

/// Opens a group of commands with a label.
pub fn wgpu_compute_pass_push_debug_group(pass: &mut ComputePass, label: &str, color: u32)
    ensures
        final(pass)@ == (PassView {
            base: old(pass)@.base.record(
                ComputeCommand::PushDebugGroup {
                    color,
                    len: vstd::utf8::encode_utf8(label@).len() as usize,
                },
                Seq::empty(),
                vstd::utf8::encode_utf8(label@),
                Seq::empty(),
            ),
            ..old(pass)@
        }),
        final(pass)@ == old(pass)@.after(PassCall::PushDebugGroup { label: label@, color }),
        old(pass)@.base.streams_fit() ==> final(pass)@.base.streams_fit(),
{
    let bytes: &[u8] = label.as_bytes();
    pass.base.string_data.extend_from_slice(bytes);
    let command: ComputeCommand = ComputeCommand::PushDebugGroup { color, len: bytes.len() };
    pass.base.commands.push(command);
    proof {
        let before = old(pass)@.base;
        assert(pass@.base =~= before.record(command, Seq::empty(), bytes@, Seq::empty()));
        vstd::utf8::encode_utf8_valid_utf8(label@);
        if before.streams_fit() {
            recording_keeps_streams(before, command, Seq::empty(), bytes@, Seq::empty());
        }
    }
}

/// Closes the group of commands that was opened last.
pub fn wgpu_compute_pass_pop_debug_group(pass: &mut ComputePass)
    ensures
        final(pass)@ == (PassView {
            base: old(pass)@.base.record_plain(ComputeCommand::PopDebugGroup),
            ..old(pass)@
        }),
        final(pass)@ == old(pass)@.after(PassCall::PopDebugGroup),
        old(pass)@.base.streams_fit() ==> final(pass)@.base.streams_fit(),
{
    pass.push(ComputeCommand::PopDebugGroup);
}

/// Leaves a label between two commands.
pub fn wgpu_compute_pass_insert_debug_marker(pass: &mut ComputePass, label: &str, color: u32)
    ensures
        final(pass)@ == (PassView {
            base: old(pass)@.base.record(
                ComputeCommand::InsertDebugMarker {
                    color,
                    len: vstd::utf8::encode_utf8(label@).len() as usize,
                },
                Seq::empty(),
                vstd::utf8::encode_utf8(label@),
                Seq::empty(),
            ),
            ..old(pass)@
        }),
        final(pass)@ == old(pass)@.after(PassCall::InsertDebugMarker { label: label@, color }),
        old(pass)@.base.streams_fit() ==> final(pass)@.base.streams_fit(),
{
    let bytes: &[u8] = label.as_bytes();
    pass.base.string_data.extend_from_slice(bytes);
    let command: ComputeCommand = ComputeCommand::InsertDebugMarker { color, len: bytes.len() };
    pass.base.commands.push(command);
    proof {
        let before = old(pass)@.base;
        assert(pass@.base =~= before.record(command, Seq::empty(), bytes@, Seq::empty()));
        vstd::utf8::encode_utf8_valid_utf8(label@);
        if before.streams_fit() {
            recording_keeps_streams(before, command, Seq::empty(), bytes@, Seq::empty());
        }
    }
}

/// Writes a timestamp.
pub fn wgpu_compute_pass_write_timestamp(
    pass: &mut ComputePass,
    query_set_id: QuerySetId,
    query_index: u32,
)
    ensures
        final(pass)@ == (PassView {
            base: old(pass)@.base.record_plain(
                ComputeCommand::WriteTimestamp { query_set_id, query_index },
            ),
            ..old(pass)@
        }),
        final(pass)@ == old(pass)@.after(PassCall::WriteTimestamp { query_set_id, query_index }),
        old(pass)@.base.streams_fit() ==> final(pass)@.base.streams_fit(),
{
    pass.push(ComputeCommand::WriteTimestamp { query_set_id, query_index });
}

/// Begins to count what pipelines do.
pub fn wgpu_compute_pass_begin_pipeline_statistics_query(
    pass: &mut ComputePass,
    query_set_id: QuerySetId,
    query_index: u32,
)
    ensures
        final(pass)@ == (PassView {
            base: old(pass)@.base.record_plain(
                ComputeCommand::BeginPipelineStatisticsQuery { query_set_id, query_index },
            ),
            ..old(pass)@
        }),
        final(pass)@ == old(pass)@.after(
            PassCall::BeginPipelineStatisticsQuery { query_set_id, query_index },
        ),
        old(pass)@.base.streams_fit() ==> final(pass)@.base.streams_fit(),
{
    pass.push(ComputeCommand::BeginPipelineStatisticsQuery { query_set_id, query_index });
}

/// Ends the count that was begun last.
pub fn wgpu_compute_pass_end_pipeline_statistics_query(pass: &mut ComputePass)
    ensures
        final(pass)@ == (PassView {
            base: old(pass)@.base.record_plain(ComputeCommand::EndPipelineStatisticsQuery),
            ..old(pass)@
        }),
        final(pass)@ == old(pass)@.after(PassCall::EndPipelineStatisticsQuery),
        old(pass)@.base.streams_fit() ==> final(pass)@.base.streams_fit(),
{
    pass.push(ComputeCommand::EndPipelineStatisticsQuery);
}

/// A new pass holds no commands and no data, has the label that it is given, and writes the timestamps that its
/// descriptor asks for.
pub proof fn new_passes_are_empty(
    label: Option<Seq<char>>,
    writes: Option<&ComputePassTimestampWrites>,
)
    ensures
        BaseView::empty(label).label == label,
        BaseView::empty(label).commands.len() == 0,
        BaseView::empty(label).dynamic_offsets.len() == 0,
        BaseView::empty(label).string_data.len() == 0,
        BaseView::empty(label).push_constant_data.len() == 0,
        writes is None <==> described_writes(writes) is None,
        writes matches Some(asked) ==> described_writes(writes) == Some(*asked),
{
}

} // verus!
