//! Trying out a run, to see whether it has an outcome.
//!
//! Whether a command has an outcome depends on the state that the commands before it have built up, but
//! not on what the run leaves behind in its command buffer. So a run can be rehearsed with a recording
//! that is thrown away.
use crate::bind::{BinderView, PayloadView};
use crate::command::ArcComputeCommand;
use crate::command_buffer;
use crate::command_buffer::copy_slice;
use crate::id::{CommandEncoderId, RawHandle, TrackerIndex};
use crate::outcome::check_writes;
use crate::pass::ComputePassTimestampWrites;
use crate::raw::RawView;
use crate::resource::{BindGroup, Buffer};
use crate::run;
use crate::run::{PassEnv, PassRecorder, Recording, RecordingView, RunView, Step};
use crate::state;
use crate::state::{Flush, FlushView, Merge};
use crate::storage::Storage;
use crate::track;
use crate::track::{ResourceKind, ResourceUse, ScopeView, UsageScope, UsageTrackerView};
use crate::types::{
    contains_flags, BufferAddress, DynamicOffset, BUFFER_USAGE_INDIRECT,
    DISPATCH_INDIRECT_ARGS_SIZE, INDIRECT_EXECUTION, MAX_BIND_GROUPS, PUSH_CONSTANT_ALIGNMENT,
};
use std::sync::Arc;
use vstd::prelude::*;

verus! {

/// Two runs have built up the same state. They may differ in what they leave behind.
pub open spec fn are_alike(a: RunView, b: RunView) -> bool {
    &&& a.binder == b.binder
    &&& a.pipeline == b.pipeline
    &&& a.scope == b.scope
    &&& a.debug_scope_depth == b.debug_scope_depth
    &&& a.dynamic_offset_count == b.dynamic_offset_count
    &&& a.string_offset == b.string_offset
    &&& a.active_query == b.active_query
}

/// Two steps end in the same way.
pub open spec fn end_alike(a: Step, b: Step) -> bool {
    match (a, b) {
        (Step::Done(s), Step::Done(t)) => are_alike(s, t),
        (Step::Failed(_, e), Step::Failed(_, f)) => e == f,
        (Step::Stuck, Step::Stuck) => true,
        _ => false,
    }
}

proof fn lemma_rebind_alike(
    a: Seq<RawView>,
    b: Seq<RawView>,
    layout: RawHandle,
    payloads: Seq<PayloadView>,
    start: int,
    n: nat,
)
    ensures
        run::rebind(a, layout, payloads, start, n).1 == run::rebind(
            b,
            layout,
            payloads,
            start,
            n,
        ).1,
    decreases n,
{
    if n > 0 {
        lemma_rebind_alike(a, b, layout, payloads, start, (n - 1) as nat);
    }
}

proof fn lemma_take_alike(
    a: UsageTrackerView,
    b: UsageTrackerView,
    kind: ResourceKind,
    scope: Seq<ResourceUse>,
    slots: Seq<TrackerIndex>,
    n: nat,
)
    ensures
        a.take_from_scope(kind, scope, slots, n).1 == b.take_from_scope(kind, scope, slots, n).1,
    decreases n,
{
    if n > 0 {
        lemma_take_alike(a, b, kind, scope, slots, (n - 1) as nat);
    }
}

proof fn lemma_take_groups_alike(
    a: FlushView,
    b: FlushView,
    groups: Seq<Arc<BindGroup>>,
    storage: Storage<BindGroup>,
    n: nat,
)
    requires
        a.scope == b.scope,
    ensures
        a.take_groups(groups, storage, n).scope == b.take_groups(groups, storage, n).scope,
    decreases n,
{
    if n > 0 {
        lemma_take_groups_alike(a, b, groups, storage, (n - 1) as nat);
        let left = a.take_groups(groups, storage, (n - 1) as nat);
        let right = b.take_groups(groups, storage, (n - 1) as nat);
        let group = storage.object(groups[n - 1].id.0)->0;
        lemma_take_alike(
            left.trackers.buffers,
            right.trackers.buffers,
            ResourceKind::Buffer,
            left.scope.buffers,
            track::slots_of(group.used.buffers@),
            group.used.buffers@.len(),
        );
        lemma_take_alike(
            left.trackers.textures,
            right.trackers.textures,
            ResourceKind::Texture,
            left.scope.textures,
            track::slots_of(group.used.textures@),
            group.used.textures@.len(),
        );
    }
}

/// How a flush ends, and the scope that it leaves, depend on the scope alone.
pub(crate) proof fn lemma_flush_alike(
    binder: BinderView,
    storage: Storage<BindGroup>,
    indirect: Option<TrackerIndex>,
    a: FlushView,
    b: FlushView,
)
    requires
        a.scope == b.scope,
    ensures
        match (state::flush(binder, storage, indirect, a), state::flush(binder, storage, indirect, b)) {
            (Flush::Done(left), Flush::Done(right)) => left.scope == right.scope,
            (Flush::Conflict(left, e), Flush::Conflict(right, f)) => left.scope == right.scope && e
                == f,
            (Flush::Gone, Flush::Gone) => true,
            _ => false,
        },
{
    let groups = binder.active_groups(MAX_BIND_GROUPS as nat);
    if let Merge::Merged(scope) = state::merge_groups(a.scope, groups, storage, groups.len()) {
        let left = FlushView { scope, ..a };
        let right = FlushView { scope, ..b };
        lemma_take_groups_alike(left, right, groups, storage, groups.len());
        if let Some(slot) = indirect {
            lemma_take_alike(
                left.take_groups(groups, storage, groups.len()).trackers.buffers,
                right.take_groups(groups, storage, groups.len()).trackers.buffers,
                ResourceKind::Buffer,
                left.take_groups(groups, storage, groups.len()).scope.buffers,
                seq![slot],
                1,
            );
        }
    }
}

/// What a command does to the state, and how it ends, does not depend on what the run leaves behind.
pub proof fn steps_of_alike_runs_end_alike(
    a: RunView,
    b: RunView,
    env: PassEnv,
    command: ArcComputeCommand,
)
    requires
        are_alike(a, b),
    ensures
        end_alike(a.step(env, command), b.step(env, command)),
{
    match command {
        ArcComputeCommand::SetBindGroup { index, num_dynamic_offsets, bind_group } => {
            if let Some(layout) = a.binder.layout {
                let end = a.dynamic_offset_count + num_dynamic_offsets;
                let offsets = env.dynamic_offsets@.subrange(
                    a.dynamic_offset_count as int,
                    end as int,
                );
                let binder = a.binder.assign_group(index as int, bind_group, offsets);
                lemma_rebind_alike(
                    a.out.raw,
                    b.out.raw,
                    layout.raw,
                    binder.payloads,
                    index as int,
                    (binder.rebind_end(index as int) - index) as nat,
                );
            }
        },
        ArcComputeCommand::SetPipeline(pipeline) => {
            let layout = pipeline.layout;
            let binder = a.binder.change_pipeline_layout(
                layout,
                pipeline.late_sized_buffer_groups@,
            );
            let start = a.binder.rebind_start(layout);
            let end = binder.rebind_end(a.binder.first_changed_slot(layout));
            let call = RawView::SetComputePipeline(pipeline.raw);
            lemma_rebind_alike(
                a.out.raw.push(call),
                b.out.raw.push(call),
                layout.raw,
                binder.payloads,
                start,
                (end - start) as nat,
            );
        },
        ArcComputeCommand::Dispatch(_) => {
            lemma_flush_alike(
                a.binder,
                *env.bind_groups,
                None,
                FlushView { scope: a.scope, trackers: a.intermediate, raw: a.out.raw },
                FlushView { scope: b.scope, trackers: b.intermediate, raw: b.out.raw },
            );
        },
        ArcComputeCommand::DispatchIndirect { buffer, offset } => {
            lemma_dispatch_indirect_alike(a, b, env, buffer, offset);
        },
        _ => {},
    }
}

proof fn lemma_dispatch_indirect_alike(
    a: RunView,
    b: RunView,
    env: PassEnv,
    buffer: Arc<Buffer>,
    offset: BufferAddress,
)
    requires
        are_alike(a, b),
    ensures
        end_alike(
            a.dispatch_indirect(env, buffer, offset),
            b.dispatch_indirect(env, buffer, offset),
        ),
{
    if let Ok(buffers) = track::merge_use(
        a.scope.buffers,
        ResourceKind::Buffer,
        ResourceUse {
            index: buffer.tracker_index,
            id: buffer.id.0,
            uses: track::BUFFER_INDIRECT,
        },
    ) {
        let scope = ScopeView { buffers, ..a.scope };
        lemma_flush_alike(
            a.binder,
            *env.bind_groups,
            Some(buffer.tracker_index),
            FlushView { scope, trackers: a.intermediate, raw: a.out.raw },
            FlushView { scope, trackers: b.intermediate, raw: b.out.raw },
        );
    }
}

/// Two runs that have built up the same state, and go on with the same commands, end alike.
pub proof fn alike_runs_end_alike(
    a: RunView,
    b: RunView,
    env: PassEnv,
    commands: Seq<ArcComputeCommand>,
    n: nat,
)
    requires
        are_alike(a, b),
    ensures
        end_alike(a.steps(env, commands, n), b.steps(env, commands, n)),
    decreases n,
{
    if n > 0 {
        alike_runs_end_alike(a, b, env, commands, (n - 1) as nat);
        if let (Step::Done(s), Step::Done(t)) = (
            a.steps(env, commands, (n - 1) as nat),
            b.steps(env, commands, (n - 1) as nat),
        ) {
            steps_of_alike_runs_end_alike(s, t, env, commands[n - 1]);
        }
    }
}

fn copy_scope(scope: &UsageScope) -> (r: UsageScope)
    ensures
        r@ == scope@,
{
    UsageScope {
        buffers: copy_slice(scope.buffers.as_slice()),
        textures: copy_slice(scope.textures.as_slice()),
    }
}

/// Whether no group is missed before the uses of the groups are merged or found to be in conflict.
fn can_merge(scope: UsageScope, groups: &Vec<Arc<BindGroup>>, storage: &Storage<BindGroup>) -> (r:
    bool)
    ensures
        r == !(state::merge_groups(scope@, groups@, *storage, groups@.len()) is Gone),
{
    let ghost start = scope@;
    let mut merged: UsageScope = scope;
    let mut i: usize = 0;
    while i < groups.len()
        invariant
            i <= groups.len(),
            start == scope@,
            state::merge_groups(start, groups@, *storage, i as nat) == Merge::Merged(merged@),
        decreases groups.len() - i,
    {
        proof {
            if !(state::merge_groups(start, groups@, *storage, (i + 1) as nat) is Merged) {
                state::lemma_merge_groups_stays(
                    start,
                    groups@,
                    *storage,
                    (i + 1) as nat,
                    groups@.len(),
                );
            }
        }
        match storage.get(groups[i].id.0) {
            None => {
                return false;
            },
            Some(group) => {
                if merged.merge_bind_group(&group.used).is_err() {
                    return true;
                }
            },
        }
        i = i + 1;
    }
    true
}

impl PassRecorder {
    /// Whether a command that binds a group has an outcome.
    fn can_set_bind_group(
        &self,
        env: &PassEnv<'_>,
        index: u32,
        num_dynamic_offsets: usize,
        bind_group: &Arc<BindGroup>,
    ) -> (r: bool)
        ensures
            forall|out: Recording|
                r == !(#[trigger] run::run_view(*self, out).set_bind_group(
                    *env,
                    index,
                    num_dynamic_offsets,
                    *bind_group,
                ) is Stuck),
    {
        if index >= env.limits.max_bind_groups {
            return true;
        }
        assert(env.dynamic_offsets.len() == env.dynamic_offsets@.len());
        let start: usize = self.dynamic_offset_count;
        if start > env.dynamic_offsets.len() || num_dynamic_offsets > env.dynamic_offsets.len()
            - start {
            return false;
        }
        let offsets: &[DynamicOffset] = vstd::slice::slice_subrange(
            env.dynamic_offsets,
            start,
            start + num_dynamic_offsets,
        );
        if !bind_group.can_check_offsets(index, offsets, &env.limits) {
            return false;
        }
        bind_group.validate_dynamic_bindings(index, offsets, &env.limits).is_err() || (
        index as usize) < MAX_BIND_GROUPS
    }

    /// Whether an indirect dispatch has an outcome.
    fn can_dispatch_indirect(&self, env: &PassEnv<'_>, buffer: &Arc<Buffer>, offset: BufferAddress)
        -> (r: bool)
        requires
            self.wf(),
        ensures
            forall|out: Recording|
                r == !(#[trigger] run::run_view(*self, out).dispatch_indirect(
                    *env,
                    *buffer,
                    offset,
                ) is Stuck),
    {
        if self.state.is_ready().is_err() || !contains_flags(
            env.downlevel_flags,
            INDIRECT_EXECUTION,
        ) {
            return true;
        }
        let mut scope: UsageScope = copy_scope(&self.state.scope);
        let conflict: bool = scope.insert_merge_buffer(
            ResourceUse {
                index: buffer.tracker_index,
                id: buffer.id.0,
                uses: track::BUFFER_INDIRECT,
            },
        ).is_err();
        if conflict || !contains_flags(buffer.usage, BUFFER_USAGE_INDIRECT) {
            return true;
        }
        if offset > u64::MAX - DISPATCH_INDIRECT_ARGS_SIZE {
            return false;
        }
        if offset + DISPATCH_INDIRECT_ARGS_SIZE > buffer.size || buffer.raw.is_none() {
            return true;
        }
        let groups: Vec<Arc<BindGroup>> = self.state.binder.list_active();
        can_merge(scope, &groups, env.bind_groups)
    }

    /// Whether a command has an outcome.
    pub fn can_step(&self, env: &PassEnv<'_>, command: &ArcComputeCommand) -> (r: bool)
        requires
            self.wf(),
        ensures
            forall|out: Recording|
                r == !(#[trigger] run::run_view(*self, out).step(*env, *command) is Stuck),
    {
        match command {
            ArcComputeCommand::SetBindGroup { index, num_dynamic_offsets, bind_group } => {
                let can: bool = self.can_set_bind_group(
                    env,
                    *index,
                    *num_dynamic_offsets,
                    bind_group,
                );
                proof {
                    assert forall|out: Recording| can == !(#[trigger] run::run_view(
                        *self,
                        out,
                    ).step(*env, *command) is Stuck) by {
                        let s = run::run_view(*self, out);
                        assert(can == !(s.set_bind_group(
                            *env,
                            *index,
                            *num_dynamic_offsets,
                            *bind_group,
                        ) is Stuck));
                    }
                }
                can
            },
            ArcComputeCommand::SetPipeline(pipeline) => {
                let same_layout: bool = match &self.state.binder.pipeline_layout {
                    Some(layout) => layout.id == pipeline.layout.id,
                    None => false,
                };
                same_layout || pipeline.layout.bind_group_layouts.len() <= MAX_BIND_GROUPS
            },
            ArcComputeCommand::SetPushConstant { offset, size_bytes, values_offset } => {
                let words: u32 = *size_bytes / PUSH_CONSTANT_ALIGNMENT;
                *size_bytes <= u32::MAX - *offset && words <= u32::MAX - *values_offset && (
                *values_offset + words) as usize <= env.push_constant_data.len()
            },
            ArcComputeCommand::Dispatch(_) => {
                if self.state.is_ready().is_err() {
                    return true;
                }
                let groups: Vec<Arc<BindGroup>> = self.state.binder.list_active();
                can_merge(copy_scope(&self.state.scope), &groups, env.bind_groups)
            },
            ArcComputeCommand::DispatchIndirect { buffer, offset } => {
                let can: bool = self.can_dispatch_indirect(env, buffer, *offset);
                proof {
                    assert forall|out: Recording| can == !(#[trigger] run::run_view(
                        *self,
                        out,
                    ).step(*env, *command) is Stuck) by {
                        let s = run::run_view(*self, out);
                        assert(can == !(s.dispatch_indirect(*env, *buffer, *offset) is Stuck));
                    }
                }
                can
            },
            ArcComputeCommand::PushDebugGroup { color: _, len } => {
                self.state.debug_scope_depth < u32::MAX && env.has_label(self.string_offset, *len)
            },
            ArcComputeCommand::InsertDebugMarker { color: _, len } => env.has_label(
                self.string_offset,
                *len,
            ),
            ArcComputeCommand::EndPipelineStatisticsQuery => match self.active_query {
                None => true,
                Some((id, _)) => env.query_sets.get(id.0).is_some(),
            },
            _ => true,
        }
    }
}

/// Whether the body of a pass has an outcome, whatever it is recorded into.
pub fn has_outcome(
    env: &PassEnv<'_>,
    writes: Option<ComputePassTimestampWrites>,
    commands: &Vec<ArcComputeCommand>,
) -> (r: bool)
    ensures
        forall|out: RecordingView, encoder_id: CommandEncoderId, label: Option<Seq<char>>|
            r == !(#[trigger] command_buffer::pass_body(
                command_buffer::run_start(out),
                *env,
                encoder_id,
                label,
                writes,
                commands@,
            ) is Stuck),
{
    let mut recorder: PassRecorder = PassRecorder::new();
    let mut scratch: Recording = Recording::new();
    let ghost start = run::run_view(recorder, scratch);
    let n: usize = commands.len();
    if let Some(tw) = writes {
        if env.query_sets.get(tw.query_set.0).is_none() {
            return true;
        }
    }
    if !check_writes(writes) {
        return false;
    }
    proof {
        assert forall|out: RecordingView, encoder_id: CommandEncoderId, label: Option<Seq<char>>|
            (start.steps(*env, commands@, n as nat) is Stuck)
                == (#[trigger] command_buffer::pass_body(
                command_buffer::run_start(out),
                *env,
                encoder_id,
                label,
                writes,
                commands@,
            ) is Stuck) by {
            let begun = command_buffer::begin_pass(
                command_buffer::run_start(out),
                *env,
                encoder_id,
                label,
                writes,
            )->Done_0;
            alike_runs_end_alike(start, begun, *env, commands@, n as nat);
        }
    }
    let mut i: usize = 0;
    while i < n
        invariant
            i <= n,
            n == commands.len(),
            recorder.wf(),
            start.steps(*env, commands@, i as nat) == Step::Done(
                run::run_view(recorder, scratch),
            ),
            forall|out: RecordingView, encoder_id: CommandEncoderId, label: Option<Seq<char>>|
                (start.steps(*env, commands@, n as nat) is Stuck)
                    == (#[trigger] command_buffer::pass_body(
                    command_buffer::run_start(out),
                    *env,
                    encoder_id,
                    label,
                    writes,
                    commands@,
                ) is Stuck),
        decreases n - i,
    {
        let ghost s = run::run_view(recorder, scratch);
        proof {
            if !(start.steps(*env, commands@, (i + 1) as nat) is Done) {
                run::ended_run_stays(start, *env, commands@, (i + 1) as nat, n as nat);
            }
        }
        let can: bool = recorder.can_step(env, &commands[i]);
        assert(can == !(s.step(*env, commands@[i as int]) is Stuck));
        if !can {
            return false;
        }
        if recorder.step(&mut scratch, env, &commands[i]).is_err() {
            return true;
        }
        i = i + 1;
    }
    true
}

} // verus!
