//! Which runs have an outcome.
//!
//! A command can rely on data that is not there, on an object that is gone, or on numbers that are too
//! large to be added up; a run that meets such a command has no outcome. Here is a quick test, before
//! the run, that rules all of this out, and the reason why recorded passes stand it. It looks at each
//! command alone, and turns down runs that fail before they meet such a command; [`crate::rehearsal`]
//! tells exactly.
use crate::bind::BinderView;
use crate::binding;
use crate::command::{ArcComputeCommand, BaseView, ComputeCommand};
use crate::command_buffer;
use crate::error::ComputePassError;
use crate::hub;
use crate::hub::Hub;
use crate::id::{CommandEncoderId, TrackerIndex};
use crate::pass;
use crate::pass::ComputePassTimestampWrites;
use crate::resource::BindGroup;
use crate::run::{PassEnv, RecordingView, RunView, Step};
use crate::state;
use crate::state::FlushView;
use crate::storage::Storage;
use crate::track;
use crate::track::{ResourceKind, ResourceUse, ScopeView};
use crate::types::{Limits, DISPATCH_INDIRECT_ARGS_SIZE, MAX_BIND_GROUPS, PUSH_CONSTANT_ALIGNMENT};
use std::sync::Arc;
use vstd::prelude::*;

verus! {

/// A label of `len` bytes stands in the string data from `start` on.
pub open spec fn label_is_there(env: PassEnv, start: nat, len: usize) -> bool {
    &&& start + len <= usize::MAX
    &&& env.discard_hal_labels || {
        &&& start + len <= env.string_data@.len()
        &&& vstd::utf8::valid_utf8(
            env.string_data@.subrange(start as int, (start + len) as int),
        )
    }
}

/// Command `i` finds its data and its objects, and its numbers are not too large.
pub open spec fn is_supplied(env: PassEnv, commands: Seq<ArcComputeCommand>, i: int) -> bool {
    let list = command_buffer::unresolved(commands);
    match commands[i] {
        ArcComputeCommand::SetBindGroup { num_dynamic_offsets, bind_group, .. } => {
            &&& pass::offsets_before(list, i as nat) + num_dynamic_offsets
                <= env.dynamic_offsets@.len()
            &&& env.bind_groups.object(bind_group.id.0) is Some
        },
        ArcComputeCommand::SetPipeline(pipeline) => pipeline.layout.bind_group_layouts@.len()
            <= MAX_BIND_GROUPS,
        ArcComputeCommand::SetPushConstant { offset, size_bytes, values_offset } => {
            &&& offset + size_bytes <= u32::MAX
            &&& values_offset + size_bytes / PUSH_CONSTANT_ALIGNMENT <= u32::MAX
            &&& values_offset + size_bytes / PUSH_CONSTANT_ALIGNMENT
                <= env.push_constant_data@.len()
        },
        ArcComputeCommand::DispatchIndirect { offset, .. } => offset + DISPATCH_INDIRECT_ARGS_SIZE
            <= u64::MAX,
        ArcComputeCommand::PushDebugGroup { len, .. } => label_is_there(
            env,
            pass::bytes_before(list, i as nat),
            len,
        ),
        ArcComputeCommand::InsertDebugMarker { len, .. } => label_is_there(
            env,
            pass::bytes_before(list, i as nat),
            len,
        ),
        ArcComputeCommand::BeginPipelineStatisticsQuery { query_set, .. } => {
            env.query_sets.object(query_set.id.0) is Some
        },
        _ => true,
    }
}

/// Alignments are not zero, and no more slots are allowed than there are.
pub open spec fn limits_fit(limits: Limits) -> bool {
    &&& limits.min_uniform_buffer_offset_alignment > 0
    &&& limits.min_storage_buffer_offset_alignment > 0
    &&& limits.max_bind_groups <= MAX_BIND_GROUPS
}

/// The limits of the device make sense, there are not too many commands to count them, and each of
/// them finds what it needs.
pub open spec fn admits(env: PassEnv, commands: Seq<ArcComputeCommand>) -> bool {
    &&& limits_fit(env.limits)
    &&& commands.len() <= u32::MAX
    &&& forall|i: int| 0 <= i < commands.len() ==> #[trigger] is_supplied(env, commands, i)
}

/// The index behind the last query that timestamps are written to is not too large.
pub open spec fn writes_fit(writes: Option<ComputePassTimestampWrites>) -> bool {
    writes matches Some(writes) ==> {
        command_buffer::timestamp_range(writes) matches Some(range) ==> range.1 <= u32::MAX
    }
}

/// All groups that are bound exist.
spec fn bound_groups_exist(binder: BinderView, storage: Storage<BindGroup>) -> bool {
    forall|i: int|
        0 <= i < MAX_BIND_GROUPS ==> match (#[trigger] binder.payloads[i]).group {
            Some(group) => storage.object(group.id.0) is Some,
            None => true,
        }
}

proof fn lemma_active_groups_exist(binder: BinderView, storage: Storage<BindGroup>, n: nat)
    requires
        n <= MAX_BIND_GROUPS,
        binder.wf(),
        bound_groups_exist(binder, storage),
    ensures
        forall|i: int|
            0 <= i < binder.active_groups(n).len() ==> storage.object(
                (#[trigger] binder.active_groups(n)[i]).id.0,
            ) is Some,
    decreases n,
{
    if n > 0 {
        lemma_active_groups_exist(binder, storage, (n - 1) as nat);
        if binder.slots[n - 1].spec_is_active() {
            assert(binder.payloads[n - 1].group is Some);
        }
    }
}

proof fn lemma_merge_not_gone(
    scope: ScopeView,
    groups: Seq<Arc<BindGroup>>,
    storage: Storage<BindGroup>,
    n: nat,
)
    requires
        n <= groups.len(),
        forall|i: int|
            0 <= i < groups.len() ==> storage.object((#[trigger] groups[i]).id.0) is Some,
    ensures
        !(state::merge_groups(scope, groups, storage, n) is Gone),
    decreases n,
{
    if n > 0 {
        lemma_merge_not_gone(scope, groups, storage, (n - 1) as nat);
        assert(storage.object(groups[n - 1].id.0) is Some);
    }
}

proof fn lemma_flush_not_gone(
    binder: BinderView,
    storage: Storage<BindGroup>,
    indirect_buffer: Option<TrackerIndex>,
    before: FlushView,
)
    requires
        binder.wf(),
        bound_groups_exist(binder, storage),
    ensures
        !(state::flush(binder, storage, indirect_buffer, before) is Gone),
{
    let groups = binder.active_groups(MAX_BIND_GROUPS as nat);
    lemma_active_groups_exist(binder, storage, MAX_BIND_GROUPS as nat);
    lemma_merge_not_gone(before.scope, groups, storage, groups.len());
}

/// What holds between the commands of an admitted pass.
spec fn on_course(s: RunView, env: PassEnv, commands: Seq<ArcComputeCommand>, n: nat) -> bool {
    let list = command_buffer::unresolved(commands);
    &&& s.binder.wf()
    &&& bound_groups_exist(s.binder, *env.bind_groups)
    &&& s.dynamic_offset_count == pass::offsets_before(list, n)
    &&& s.string_offset == pass::bytes_before(list, n)
    &&& s.debug_scope_depth <= n
    &&& s.active_query matches Some(query) ==> env.query_sets.object(query.0.0) is Some
}

proof fn lemma_step_on_course(
    s: RunView,
    env: PassEnv,
    commands: Seq<ArcComputeCommand>,
    n: nat,
)
    requires
        n < commands.len(),
        admits(env, commands),
        on_course(s, env, commands, n),
    ensures
        !(s.step(env, commands[n as int]) is Stuck),
        s.step(env, commands[n as int]) matches Step::Done(t) ==> on_course(
            t,
            env,
            commands,
            n + 1,
        ),
{
    let list = command_buffer::unresolved(commands);
    let command = commands[n as int];
    assert(is_supplied(env, commands, n as int));
    assert(list[n as int] == command.unresolved());
    assert(pass::offsets_before(list, n + 1) == pass::offsets_before(list, n)
        + pass::offsets_taken(list[n as int]));
    assert(pass::bytes_before(list, n + 1) == pass::bytes_before(list, n) + pass::bytes_taken(
        list[n as int],
    ));
    match command {
        ArcComputeCommand::SetBindGroup { index, num_dynamic_offsets, bind_group } => {
            let offsets = env.dynamic_offsets@.subrange(
                s.dynamic_offset_count as int,
                s.dynamic_offset_count + num_dynamic_offsets,
            );
            if index < env.limits.max_bind_groups {
                let binder = s.binder.assign_group(index as int, bind_group, offsets);
                binding::lemma_assign_keeps_wf(
                    s.binder,
                    index as int,
                    bind_group,
                    offsets,
                );
                assert(bound_groups_exist(binder, *env.bind_groups)) by {
                    assert forall|i: int| 0 <= i < MAX_BIND_GROUPS implies match (
                    #[trigger] binder.payloads[i]).group {
                        Some(group) => env.bind_groups.object(group.id.0) is Some,
                        None => true,
                    } by {
                        if i != index {
                            assert(binder.payloads[i] == s.binder.payloads[i]);
                        }
                    }
                }
            }
        },
        ArcComputeCommand::SetPipeline(pipeline) => {
            let late = pipeline.late_sized_buffer_groups@;
            let layout = pipeline.layout;
            let binder = s.binder.change_pipeline_layout(layout, late);
            binding::lemma_change_keeps_wf(s.binder, layout, late);
            assert(bound_groups_exist(binder, *env.bind_groups)) by {
                assert forall|i: int| 0 <= i < MAX_BIND_GROUPS implies match (
                #[trigger] binder.payloads[i]).group {
                    Some(group) => env.bind_groups.object(group.id.0) is Some,
                    None => true,
                } by {
                    assert(binder.payloads[i].group == s.binder.payloads[i].group);
                }
            }
        },
        ArcComputeCommand::Dispatch(_) => {
            lemma_flush_not_gone(
                s.binder,
                *env.bind_groups,
                None,
                FlushView { scope: s.scope, trackers: s.intermediate, raw: s.out.raw },
            );
        },
        ArcComputeCommand::DispatchIndirect { buffer, .. } => {
            if let Ok(buffers) = track::merge_use(
                s.scope.buffers,
                ResourceKind::Buffer,
                ResourceUse {
                    index: buffer.tracker_index,
                    id: buffer.id.0,
                    uses: track::BUFFER_INDIRECT,
                },
            ) {
                lemma_flush_not_gone(
                    s.binder,
                    *env.bind_groups,
                    Some(buffer.tracker_index),
                    FlushView {
                        scope: ScopeView { buffers, ..s.scope },
                        trackers: s.intermediate,
                        raw: s.out.raw,
                    },
                );
            }
        },
        _ => {},
    }
}

/// A run of commands that are admitted has an outcome: it comes to an end, or fails with an error.
pub proof fn admitted_run_has_an_outcome(
    start: RunView,
    env: PassEnv,
    commands: Seq<ArcComputeCommand>,
    n: nat,
)
    requires
        n <= commands.len(),
        admits(env, commands),
        start.binder == BinderView::empty(),
        start.dynamic_offset_count == 0,
        start.string_offset == 0,
        start.debug_scope_depth == 0,
        start.active_query is None,
    ensures
        !(start.steps(env, commands, n) is Stuck),
{
    lemma_steps_on_course(start, env, commands, n);
}

proof fn lemma_steps_on_course(
    start: RunView,
    env: PassEnv,
    commands: Seq<ArcComputeCommand>,
    n: nat,
)
    requires
        n <= commands.len(),
        admits(env, commands),
        start.binder == BinderView::empty(),
        start.dynamic_offset_count == 0,
        start.string_offset == 0,
        start.debug_scope_depth == 0,
        start.active_query is None,
    ensures
        !(start.steps(env, commands, n) is Stuck),
        start.steps(env, commands, n) matches Step::Done(t) ==> on_course(t, env, commands, n),
    decreases n,
{
    if n > 0 {
        lemma_steps_on_course(start, env, commands, (n - 1) as nat);
        if let Step::Done(s) = start.steps(env, commands, (n - 1) as nat) {
            lemma_step_on_course(s, env, commands, (n - 1) as nat);
        }
    }
}

/// The whole body of a pass has an outcome where its commands are admitted and its timestamps fit.
pub proof fn admitted_body_has_an_outcome(
    out: RecordingView,
    env: PassEnv,
    encoder_id: CommandEncoderId,
    label: Option<Seq<char>>,
    writes: Option<ComputePassTimestampWrites>,
    commands: Seq<ArcComputeCommand>,
)
    requires
        admits(env, commands),
        writes_fit(writes),
    ensures
        !(command_buffer::pass_body(
            command_buffer::run_start(out),
            env,
            encoder_id,
            label,
            writes,
            commands,
        ) is Stuck),
{
    let start = command_buffer::run_start(out);
    if let Step::Done(begun) = command_buffer::begin_pass(start, env, encoder_id, label, writes) {
        admitted_run_has_an_outcome(begun, env, commands, commands.len());
    }
}

/// The numbers of a command are not too large to be added up.
pub open spec fn numbers_fit(command: ComputeCommand) -> bool {
    match command {
        ComputeCommand::SetPushConstant { offset, size_bytes, values_offset } => {
            &&& offset + size_bytes <= u32::MAX
            &&& values_offset + size_bytes / PUSH_CONSTANT_ALIGNMENT <= u32::MAX
        },
        ComputeCommand::DispatchIndirect { offset, .. } => offset + DISPATCH_INDIRECT_ARGS_SIZE
            <= u64::MAX,
        _ => true,
    }
}

/// No pipeline has more bind group layouts than there are slots.
pub open spec fn layouts_fit(hub: Hub) -> bool {
    forall|i: int|
        0 <= i < hub.compute_pipelines.entries@.len() ==> (
        #[trigger] hub.compute_pipelines.entries@[i]).1.layout.bind_group_layouts@.len()
            <= MAX_BIND_GROUPS
}

/// A pass whose streams fit its commands, as those of each recorded pass do, is admitted once its
/// objects have been found, as long as none of its numbers is too large.
pub proof fn recorded_pass_is_admitted(
    hub: Hub,
    env: PassEnv,
    base: BaseView,
    commands: Seq<ArcComputeCommand>,
)
    requires
        base.streams_fit(),
        forall|i: int| 0 <= i < base.commands.len() ==> numbers_fit(#[trigger] base.commands[i]),
        base.commands.len() <= u32::MAX,
        hub.keys_match(),
        layouts_fit(hub),
        hub::resolve_all(hub, base.commands, base.commands.len()) == Ok::<
            Seq<ArcComputeCommand>,
            ComputePassError,
        >(commands),
        limits_fit(env.limits),
        *env.bind_groups == hub.bind_groups,
        *env.query_sets == hub.query_sets,
        env.dynamic_offsets@ == base.dynamic_offsets,
        env.string_data@ == base.string_data,
        env.push_constant_data@ == base.push_constant_data,
    ensures
        admits(env, commands),
{
    let n = base.commands.len();
    let list = command_buffer::unresolved(commands);
    hub::resolving_keeps_commands(hub, base.commands, n);
    assert(list =~= base.commands);
    assert forall|i: int| 0 <= i < commands.len() implies #[trigger] is_supplied(
        env,
        commands,
        i,
    ) by {
        assert(numbers_fit(base.commands[i]));
        assert(commands[i].unresolved() == base.commands[i]);
        pass::lemma_taken_grows(base.commands, (i + 1) as nat, n);
        assert(pass::offsets_before(base.commands, (i + 1) as nat) == pass::offsets_before(
            base.commands,
            i as nat,
        ) + pass::offsets_taken(base.commands[i]));
        assert(pass::bytes_before(base.commands, (i + 1) as nat) == pass::bytes_before(
            base.commands,
            i as nat,
        ) + pass::bytes_taken(base.commands[i]));
        assert(vstd::utf8::valid_utf8(base.string_of(i)));
        assert(env.string_data.len() == env.string_data@.len());
        match base.commands[i] {
            ComputeCommand::SetPipeline(id) => {
                hub::lemma_lookup_in(
                    hub.compute_pipelines.entries@,
                    id.0,
                    hub.compute_pipelines.entries@.len(),
                );
            },
            _ => {},
        }
    }
}

impl<'a> PassEnv<'a> {
    /// Whether a label of `len` bytes stands in the string data from `start` on.
    pub(crate) fn has_label(&self, start: usize, len: usize) -> (r: bool)
        ensures
            r == label_is_there(*self, start as nat, len),
    {
        if len > usize::MAX - start {
            return false;
        }
        if self.discard_hal_labels {
            return true;
        }
        if start + len > self.string_data.len() {
            return false;
        }
        core::str::from_utf8(
            vstd::slice::slice_subrange(self.string_data, start, start + len),
        ).is_ok()
    }

    /// Whether a command finds its data and its objects, and its numbers are not too large, given how
    /// much of the streams the commands before it take.
    fn supplies(&self, command: &ArcComputeCommand, offsets: usize, bytes: usize) -> (r: bool)
        ensures
            forall|commands: Seq<ArcComputeCommand>, i: int|
                0 <= i < commands.len() && commands[i] == *command && offsets
                    == pass::offsets_before(command_buffer::unresolved(commands), i as nat) && bytes
                    == pass::bytes_before(command_buffer::unresolved(commands), i as nat) ==> r
                    == #[trigger] is_supplied(*self, commands, i),
            r ==> offsets + pass::offsets_taken(command.unresolved()) <= usize::MAX,
            r ==> bytes + pass::bytes_taken(command.unresolved()) <= usize::MAX,
    {
        assert(self.dynamic_offsets.len() == self.dynamic_offsets@.len());
        match command {
            ArcComputeCommand::SetBindGroup { index: _, num_dynamic_offsets, bind_group } => {
                offsets <= self.dynamic_offsets.len() && *num_dynamic_offsets
                    <= self.dynamic_offsets.len() - offsets && self.bind_groups.get(
                    bind_group.id.0,
                ).is_some()
            },
            ArcComputeCommand::SetPipeline(pipeline) => {
                pipeline.layout.bind_group_layouts.len() <= MAX_BIND_GROUPS
            },
            ArcComputeCommand::SetPushConstant { offset, size_bytes, values_offset } => {
                let words: u32 = *size_bytes / PUSH_CONSTANT_ALIGNMENT;
                *size_bytes <= u32::MAX - *offset && words <= u32::MAX - *values_offset && (
                *values_offset + words) as usize <= self.push_constant_data.len()
            },
            ArcComputeCommand::DispatchIndirect { buffer: _, offset } => *offset <= u64::MAX
                - DISPATCH_INDIRECT_ARGS_SIZE,
            ArcComputeCommand::PushDebugGroup { color: _, len } => self.has_label(bytes, *len),
            ArcComputeCommand::InsertDebugMarker { color: _, len } => self.has_label(bytes, *len),
            ArcComputeCommand::BeginPipelineStatisticsQuery { query_set, query_index: _ } => {
                self.query_sets.get(query_set.id.0).is_some()
            },
            _ => true,
        }
    }

    /// Whether the commands are admitted.
    pub fn admits_commands(&self, commands: &[ArcComputeCommand]) -> (r: bool)
        ensures
            r == admits(*self, commands@),
    {
        if self.limits.min_uniform_buffer_offset_alignment == 0
            || self.limits.min_storage_buffer_offset_alignment == 0 || self.limits.max_bind_groups
            > MAX_BIND_GROUPS as u32 || commands.len() > u32::MAX as usize {
            return false;
        }
        let ghost list = command_buffer::unresolved(commands@);
        let mut offsets: usize = 0;
        let mut bytes: usize = 0;
        let mut i: usize = 0;
        while i < commands.len()
            invariant
                i <= commands.len(),
                list == command_buffer::unresolved(commands@),
                offsets == pass::offsets_before(list, i as nat),
                bytes == pass::bytes_before(list, i as nat),
                forall|j: int| 0 <= j < i ==> #[trigger] is_supplied(*self, commands@, j),
            decreases commands.len() - i,
        {
            let command: &ArcComputeCommand = &commands[i];
            if !self.supplies(command, offsets, bytes) {
                assert(!is_supplied(*self, commands@, i as int));
                return false;
            }
            assert(is_supplied(*self, commands@, i as int));
            assert(list[i as int] == command.unresolved());
            match command {
                ArcComputeCommand::SetBindGroup { index: _, num_dynamic_offsets, bind_group: _ } => {
                    offsets = offsets + *num_dynamic_offsets;
                },
                ArcComputeCommand::PushDebugGroup { color: _, len } => {
                    bytes = bytes + *len;
                },
                ArcComputeCommand::InsertDebugMarker { color: _, len } => {
                    bytes = bytes + *len;
                },
                _ => {},
            }
            i = i + 1;
        }
        true
    }
}

/// Whether the index behind the last query that timestamps are written to is not too large.
pub fn check_writes(writes: Option<ComputePassTimestampWrites>) -> (r: bool)
    ensures
        r == writes_fit(writes),
{
    match writes {
        None => true,
        Some(writes) => {
            let first_fits: bool = match writes.beginning_of_pass_write_index {
                Some(index) => index < u32::MAX,
                None => true,
            };
            let last_fits: bool = match writes.end_of_pass_write_index {
                Some(index) => index < u32::MAX,
                None => true,
            };
            first_fits && last_fits
        },
    }
}

/// Numbers are too large only where a sum that has to be formed of them is: the end of the push constants or of their
/// values, the end of the arguments of a dispatch, or the index behind a timestamp query. Limits make sense where the
/// alignments are positive and at most eight slots are allowed.
pub proof fn only_sums_can_be_too_large(
    command: ComputeCommand,
    writes: ComputePassTimestampWrites,
    limits: Limits,
)
    ensures
        numbers_fit(command) == match command {
            ComputeCommand::SetPushConstant { offset, size_bytes, values_offset } => offset
                + size_bytes <= 0xffff_ffff && values_offset + size_bytes / 4 <= 0xffff_ffff,
            ComputeCommand::DispatchIndirect { offset, .. } => offset <= 0xffff_ffff_ffff_fff3,
            _ => true,
        },
        writes_fit(Some(writes)) == (writes.beginning_of_pass_write_index != Some(0xffff_ffffu32)
            && writes.end_of_pass_write_index != Some(0xffff_ffffu32)),
        writes_fit(None),
        limits_fit(limits) == (limits.min_uniform_buffer_offset_alignment != 0
            && limits.min_storage_buffer_offset_alignment != 0 && limits.max_bind_groups <= 8),
{
}

} // verus!
