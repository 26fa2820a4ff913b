//! What the backend has bound when a dispatch reaches it.
//!
//! The pass hands bind groups to the backend lazily: a group that does not fit the pipeline yet is
//! held back, and a change of the pipeline disturbs what was handed over before. All the same, each
//! dispatch finds the groups that the commands before it have bound.
use crate::bind;
use crate::bind::{BinderView, PayloadView};
use crate::command::ArcComputeCommand;
use crate::command_buffer;
use crate::id::RawHandle;
use crate::pass;
use crate::push_constant;
use crate::raw::RawView;
use crate::resource::{BindGroup, BindGroupLayout, ComputePipeline, LateSizedBufferGroup, PipelineLayout};
use crate::run;
use crate::run::{PassEnv, RunView, Step};
use crate::state;
use crate::types::{DynamicOffset, MAX_BIND_GROUPS};
use crate::warrant;
use std::sync::Arc;
use vstd::prelude::*;

verus! {

/// The group that the backend has bound to `slot` after the calls `from..n`, with its offsets.
pub open spec fn backend_group(calls: Seq<RawView>, slot: int, from: nat, n: nat) -> Option<
    (RawHandle, Seq<DynamicOffset>),
>
    decreases n,
{
    if n <= from {
        None
    } else {
        match calls[n - 1] {
            RawView::SetBindGroup { index, group, dynamic_offsets, .. } => if index == slot {
                Some((group, dynamic_offsets))
            } else {
                backend_group(calls, slot, from, (n - 1) as nat)
            },
            _ => backend_group(calls, slot, from, (n - 1) as nat),
        }
    }
}

/// The pipeline that the backend has set after the calls `from..n`.
pub open spec fn backend_pipeline(calls: Seq<RawView>, from: nat, n: nat) -> Option<RawHandle>
    decreases n,
{
    if n <= from {
        None
    } else {
        match calls[n - 1] {
            RawView::SetComputePipeline(pipeline) => Some(pipeline),
            _ => backend_pipeline(calls, from, (n - 1) as nat),
        }
    }
}

/// The dynamic offsets that belong to command `i`.
pub open spec fn offsets_of(env: PassEnv, commands: Seq<ArcComputeCommand>, i: int) -> Seq<
    DynamicOffset,
> {
    let list = command_buffer::unresolved(commands);
    let start = pass::offsets_before(list, i as nat) as int;
    env.dynamic_offsets@.subrange(start, start + pass::offsets_taken(list[i]))
}

/// The group that the first `n` commands have bound to `slot`, with its offsets.
pub open spec fn bound_group(
    env: PassEnv,
    commands: Seq<ArcComputeCommand>,
    slot: int,
    n: nat,
) -> Option<(Arc<BindGroup>, Seq<DynamicOffset>)>
    decreases n,
{
    if n == 0 {
        None
    } else {
        match commands[n - 1] {
            ArcComputeCommand::SetBindGroup { index, bind_group, .. } => if index == slot {
                Some((bind_group, offsets_of(env, commands, n - 1)))
            } else {
                bound_group(env, commands, slot, (n - 1) as nat)
            },
            _ => bound_group(env, commands, slot, (n - 1) as nat),
        }
    }
}

/// The pipeline that the first `n` commands have set.
pub open spec fn current_pipeline(commands: Seq<ArcComputeCommand>, n: nat) -> Option<
    Arc<ComputePipeline>,
>
    decreases n,
{
    if n == 0 {
        None
    } else {
        match commands[n - 1] {
            ArcComputeCommand::SetPipeline(pipeline) => Some(pipeline),
            _ => current_pipeline(commands, (n - 1) as nat),
        }
    }
}

/// The call sets neither a group nor a pipeline.
spec fn binds_nothing(call: RawView) -> bool {
    !(call is SetBindGroup) && !(call is SetComputePipeline)
}

proof fn lemma_backend_extends(
    before: Seq<RawView>,
    after: Seq<RawView>,
    slot: int,
    from: nat,
    n: nat,
)
    requires
        warrant::extends(before, after),
        n <= before.len(),
    ensures
        backend_group(after, slot, from, n) == backend_group(before, slot, from, n),
        backend_pipeline(after, from, n) == backend_pipeline(before, from, n),
    decreases n,
{
    if n > from {
        lemma_backend_extends(before, after, slot, from, (n - 1) as nat);
        assert(after[n - 1] == before[n - 1]);
    }
}

proof fn lemma_backend_same(calls: Seq<RawView>, slot: int, from: nat, n: nat, m: nat)
    requires
        from <= n <= m <= calls.len(),
        forall|p: int| n <= p < m ==> binds_nothing(#[trigger] calls[p]),
    ensures
        backend_group(calls, slot, from, m) == backend_group(calls, slot, from, n),
        backend_pipeline(calls, from, m) == backend_pipeline(calls, from, n),
    decreases m,
{
    if n < m {
        lemma_backend_same(calls, slot, from, n, (m - 1) as nat);
        assert(binds_nothing(calls[m - 1]));
    }
}

/// What the backend has bound to `slot` after all of some calls from `from` on.
spec fn seen_group(calls: Seq<RawView>, slot: int, from: nat) -> Option<
    (RawHandle, Seq<DynamicOffset>),
> {
    backend_group(calls, slot, from, calls.len())
}

/// The pipeline that the backend has set after all of some calls from `from` on.
spec fn seen_pipeline(calls: Seq<RawView>, from: nat) -> Option<RawHandle> {
    backend_pipeline(calls, from, calls.len())
}

proof fn lemma_appended_nothing(before: Seq<RawView>, after: Seq<RawView>, slot: int, from: nat)
    requires
        from <= before.len(),
        warrant::extends(before, after),
        forall|p: int| before.len() <= p < after.len() ==> binds_nothing(#[trigger] after[p]),
    ensures
        seen_group(after, slot, from) == seen_group(before, slot, from),
        seen_pipeline(after, from) == seen_pipeline(before, from),
{
    lemma_backend_extends(before, after, slot, from, before.len());
    lemma_backend_same(after, slot, from, before.len(), after.len());
}

/// After slots were handed to the backend, it has bound what they hold, and the other slots are as
/// they were.
proof fn lemma_rebound(
    raw: Seq<RawView>,
    layout: RawHandle,
    payloads: Seq<PayloadView>,
    start: int,
    n: nat,
    slot: int,
    from: nat,
)
    requires
        0 <= start,
        start + n <= MAX_BIND_GROUPS,
        from <= raw.len(),
        run::rebind(raw, layout, payloads, start, n).1 is None,
    ensures
        warrant::extends(raw, run::rebind(raw, layout, payloads, start, n).0),
        seen_pipeline(run::rebind(raw, layout, payloads, start, n).0, from) == seen_pipeline(
            raw,
            from,
        ),
        start <= slot < start + n && payloads[slot].group is Some ==> {
            &&& payloads[slot].group->0.raw is Some
            &&& seen_group(run::rebind(raw, layout, payloads, start, n).0, slot, from) == Some(
                (payloads[slot].group->0.raw->0, payloads[slot].dynamic_offsets),
            )
        },
        !(start <= slot < start + n) ==> seen_group(
            run::rebind(raw, layout, payloads, start, n).0,
            slot,
            from,
        ) == seen_group(raw, slot, from),
    decreases n,
{
    if n > 0 {
        let before = run::rebind(raw, layout, payloads, start, (n - 1) as nat).0;
        let after = run::rebind(raw, layout, payloads, start, n).0;
        lemma_rebound(raw, layout, payloads, start, (n - 1) as nat, slot, from);
        if after != before {
            assert(after.len() == before.len() + 1);
            lemma_backend_extends(before, after, slot, from, before.len());
        }
    }
}

/// The layouts that the slots expect are those of the current pipeline layout.
pub open spec fn expects_layout(binder: BinderView) -> bool {
    match binder.layout {
        None => forall|i: int|
            0 <= i < MAX_BIND_GROUPS ==> (#[trigger] binder.slots[i]).expected is None,
        Some(layout) => {
            let layouts = layout.bind_group_layouts@;
            &&& layouts.len() <= MAX_BIND_GROUPS
            &&& forall|i: int|
                0 <= i < layouts.len() ==> (#[trigger] binder.slots[i]).spec_expects(*layouts[i])
            &&& forall|i: int|
                layouts.len() <= i < MAX_BIND_GROUPS ==> (
                #[trigger] binder.slots[i]).expected is None
        },
    }
}

/// Each slot holds what the first `n` commands have bound to it.
pub open spec fn holds_bound_groups(
    binder: BinderView,
    env: PassEnv,
    commands: Seq<ArcComputeCommand>,
    n: nat,
) -> bool {
    forall|i: int|
        0 <= i < MAX_BIND_GROUPS ==> match bound_group(env, commands, i, n) {
            None => (#[trigger] binder.payloads[i]).group is None,
            Some((group, offsets)) => binder.payloads[i].group == Some(group)
                && binder.payloads[i].dynamic_offsets == offsets,
        }
}

/// The backend has bound what the slots hold, as far as the pipeline can use them.
spec fn backend_agrees(binder: BinderView, calls: Seq<RawView>, from: nat) -> bool {
    forall|i: int|
        0 <= i < bind::compatible_slots(binder.slots, binder.slots.len()) ==> {
            &&& (#[trigger] binder.payloads[i]).group is Some
            &&& binder.payloads[i].group->0.raw is Some
            &&& seen_group(calls, i, from) == Some(
                (binder.payloads[i].group->0.raw->0, binder.payloads[i].dynamic_offsets),
            )
        }
}

spec fn in_step(
    s: RunView,
    env: PassEnv,
    commands: Seq<ArcComputeCommand>,
    n: nat,
    from: nat,
) -> bool {
    &&& s.binder.wf()
    &&& expects_layout(s.binder)
    &&& holds_bound_groups(s.binder, env, commands, n)
    &&& from <= s.out.raw.len()
    &&& backend_agrees(s.binder, s.out.raw, from)
    &&& s.dynamic_offset_count == pass::offsets_before(command_buffer::unresolved(commands), n)
    &&& match current_pipeline(commands, n) {
        None => s.pipeline is None && s.binder.layout is None && seen_pipeline(
            s.out.raw,
            from,
        ) is None,
        Some(pipeline) => {
            &&& s.pipeline == Some(pipeline.id)
            &&& s.binder.layout matches Some(layout) && layout.id == pipeline.layout.id
            &&& seen_pipeline(s.out.raw, from) == Some(pipeline.raw)
        },
    }
}

pub(crate) proof fn lemma_assign_keeps_wf(
    binder: BinderView,
    index: int,
    group: Arc<BindGroup>,
    offsets: Seq<DynamicOffset>,
)
    requires
        binder.wf(),
        0 <= index < MAX_BIND_GROUPS,
    ensures
        binder.assign_group(index, group, offsets).wf(),
        expects_layout(binder) ==> expects_layout(binder.assign_group(index, group, offsets)),
{
    let after = binder.assign_group(index, group, offsets);
    assert forall|i: int| 0 <= i < MAX_BIND_GROUPS implies after.slots[i].expected
        == #[trigger] binder.slots[i].expected by {}
    assert forall|i: int| 0 <= i < MAX_BIND_GROUPS implies match (
    #[trigger] after.slots[i]).assigned {
        Some(layout) => after.payloads[i].group matches Some(held) && held.layout == layout,
        None => after.payloads[i].group is None,
    } by {
        if i != index {
            assert(after.slots[i] == binder.slots[i]);
        }
    }
    assert forall|i: int| 0 <= i < MAX_BIND_GROUPS implies (
    #[trigger] after.payloads[i]).late_count <= after.payloads[i].late.len() by {
        assert(binder.payloads[i].late_count <= binder.payloads[i].late.len());
    }
}

pub(crate) proof fn lemma_change_keeps_wf(
    binder: BinderView,
    layout: Arc<PipelineLayout>,
    late: Seq<LateSizedBufferGroup>,
)
    requires
        binder.wf(),
        layout.bind_group_layouts@.len() <= MAX_BIND_GROUPS,
    ensures
        binder.change_pipeline_layout(layout, late).wf(),
        expects_layout(binder.change_pipeline_layout(layout, late)),
        0 <= binder.first_changed_slot(layout) <= layout.bind_group_layouts@.len(),
{
    let after = binder.change_pipeline_layout(layout, late);
    let layouts = layout.bind_group_layouts@;
    bind::lemma_unchanged_slots(binder.slots, layouts, layouts.len());
    assert forall|i: int| 0 <= i < MAX_BIND_GROUPS implies match (
    #[trigger] after.slots[i]).assigned {
        Some(layout) => after.payloads[i].group matches Some(held) && held.layout == layout,
        None => after.payloads[i].group is None,
    } by {
        assert(after.slots[i].assigned == binder.slots[i].assigned);
    }
    assert forall|i: int| 0 <= i < MAX_BIND_GROUPS implies (
    #[trigger] after.payloads[i]).late_count <= after.payloads[i].late.len() by {
        assert(binder.payloads[i].late_count <= binder.payloads[i].late.len());
    }
    assert forall|i: int| 0 <= i < layouts.len() implies (#[trigger] after.slots[i]).spec_expects(
        *layouts[i],
    ) by {
        if i < binder.first_changed_slot(layout) {
            assert(binder.slots[i].spec_expects(*layouts[i]));
        }
    }
}

/// A slot before the first one that changed can be used now only if it could before.
proof fn lemma_compatible_before(old: BinderView, new: BinderView, first: int, i: int)
    requires
        old.wf(),
        new.wf(),
        0 <= i < first,
        i < bind::compatible_slots(new.slots, new.slots.len()),
        forall|j: int| 0 <= j < first && j < MAX_BIND_GROUPS ==> new.slots[j] == old.slots[j],
    ensures
        i < bind::compatible_slots(old.slots, old.slots.len()),
{
    bind::lemma_compatible_slots(old.slots, old.slots.len());
    bind::lemma_compatible_slots(new.slots, new.slots.len());
    let k = bind::compatible_slots(old.slots, old.slots.len());
    if k <= i {
        assert(new.slots[k as int].spec_is_compatible());
        assert(new.slots[k as int] == old.slots[k as int]);
    }
}

/// The slots that changed were handed to the backend up to the last one that the pipeline can use: the
/// backend has bound what all of these slots hold.
proof fn lemma_rebind_agrees(
    old: BinderView,
    new: BinderView,
    before: Seq<RawView>,
    layout: RawHandle,
    start: int,
    first: int,
    from: nat,
)
    requires
        old.wf(),
        new.wf(),
        backend_agrees(old, before, from),
        from <= before.len(),
        0 <= start <= first <= MAX_BIND_GROUPS,
        forall|j: int| 0 <= j < first && j < MAX_BIND_GROUPS ==> new.slots[j] == old.slots[j],
        forall|j: int|
            0 <= j < first && j < MAX_BIND_GROUPS ==> {
                &&& (#[trigger] new.payloads[j]).group == old.payloads[j].group
                &&& new.payloads[j].dynamic_offsets == old.payloads[j].dynamic_offsets
            },
        run::rebind(
            before,
            layout,
            new.payloads,
            start,
            (new.rebind_end(first) - start) as nat,
        ).1 is None,
    ensures
        ({
            let after = run::rebind(
                before,
                layout,
                new.payloads,
                start,
                (new.rebind_end(first) - start) as nat,
            ).0;
            &&& backend_agrees(new, after, from)
            &&& seen_pipeline(after, from) == seen_pipeline(before, from)
            &&& warrant::extends(before, after)
        }),
{
    bind::lemma_compatible_slots(new.slots, new.slots.len());
    let n = (new.rebind_end(first) - start) as nat;
    let after = run::rebind(before, layout, new.payloads, start, n).0;
    lemma_rebound(before, layout, new.payloads, start, n, 0, from);
    assert forall|i: int|
        0 <= i < bind::compatible_slots(new.slots, new.slots.len()) implies {
        &&& (#[trigger] new.payloads[i]).group is Some
        &&& new.payloads[i].group->0.raw is Some
        &&& seen_group(after, i, from) == Some(
            (new.payloads[i].group->0.raw->0, new.payloads[i].dynamic_offsets),
        )
    } by {
        assert(new.slots[i].spec_is_compatible());
        lemma_rebound(before, layout, new.payloads, start, n, i, from);
        if i < start {
            lemma_compatible_before(old, new, first, i);
            assert(old.payloads[i].group is Some);
        }
    }
}

proof fn lemma_bound_group_step(
    env: PassEnv,
    commands: Seq<ArcComputeCommand>,
    binder: BinderView,
    n: nat,
)
    requires
        0 < n <= commands.len(),
        !(commands[n - 1] is SetBindGroup),
        holds_bound_groups(binder, env, commands, (n - 1) as nat),
    ensures
        holds_bound_groups(binder, env, commands, n),
{
    assert forall|i: int| 0 <= i < MAX_BIND_GROUPS implies match bound_group(
        env,
        commands,
        i,
        n,
    ) {
        None => (#[trigger] binder.payloads[i]).group is None,
        Some((group, offsets)) => binder.payloads[i].group == Some(group)
            && binder.payloads[i].dynamic_offsets == offsets,
    } by {
        assert(bound_group(env, commands, i, n) == bound_group(
            env,
            commands,
            i,
            (n - 1) as nat,
        ));
    }
}

proof fn lemma_set_bind_group_in_step(
    s: RunView,
    env: PassEnv,
    commands: Seq<ArcComputeCommand>,
    n: nat,
    from: nat,
)
    requires
        0 < n <= commands.len(),
        commands[n - 1] is SetBindGroup,
        in_step(s, env, commands, (n - 1) as nat, from),
    ensures
        s.step(env, commands[n - 1]) matches Step::Done(t) ==> in_step(t, env, commands, n, from),
{
    let list = command_buffer::unresolved(commands);
    if let Step::Done(t) = s.step(env, commands[n - 1]) {
        if let ArcComputeCommand::SetBindGroup { index, num_dynamic_offsets, bind_group } =
            commands[n - 1] {
            let offsets = offsets_of(env, commands, n - 1);
            assert(list[n - 1] == commands[n - 1].unresolved());
            assert(pass::offsets_before(list, n) == pass::offsets_before(list, (n - 1) as nat)
                + num_dynamic_offsets);
            let binder = s.binder.assign_group(index as int, bind_group, offsets);
            assert(t.binder == binder);
            lemma_assign_keeps_wf(s.binder, index as int, bind_group, offsets);
            assert forall|i: int| 0 <= i < MAX_BIND_GROUPS implies match bound_group(
                env,
                commands,
                i,
                n,
            ) {
                None => (#[trigger] t.binder.payloads[i]).group is None,
                Some((group, offsets)) => t.binder.payloads[i].group == Some(group)
                    && t.binder.payloads[i].dynamic_offsets == offsets,
            } by {
                if i != index {
                    assert(t.binder.payloads[i] == s.binder.payloads[i]);
                }
            }
            match s.binder.layout {
                Some(layout) => {
                    lemma_rebind_agrees(
                        s.binder,
                        binder,
                        s.out.raw,
                        layout.raw,
                        index as int,
                        index as int,
                        from,
                    );
                },
                None => {
                    bind::lemma_compatible_slots(binder.slots, binder.slots.len());
                    assert(binder.slots[0].expected is None);
                },
            }
        }
    }
}

proof fn lemma_set_pipeline_in_step(
    s: RunView,
    env: PassEnv,
    commands: Seq<ArcComputeCommand>,
    n: nat,
    from: nat,
)
    requires
        0 < n <= commands.len(),
        commands[n - 1] is SetPipeline,
        in_step(s, env, commands, (n - 1) as nat, from),
    ensures
        s.step(env, commands[n - 1]) matches Step::Done(t) ==> in_step(t, env, commands, n, from),
{
    let list = command_buffer::unresolved(commands);
    if let Step::Done(t) = s.step(env, commands[n - 1]) {
        if let ArcComputeCommand::SetPipeline(pipeline) = commands[n - 1] {
            assert(list[n - 1] == commands[n - 1].unresolved());
            let layout = pipeline.layout;
            let set = s.out.raw.push(RawView::SetComputePipeline(pipeline.raw));
            assert forall|slot: int| #[trigger] seen_group(set, slot, from) == seen_group(
                s.out.raw,
                slot,
                from,
            ) by {
                lemma_backend_extends(s.out.raw, set, slot, from, s.out.raw.len());
            }
            assert(seen_pipeline(set, from) == Some(pipeline.raw));
            assert(backend_agrees(s.binder, set, from)) by {
                assert forall|i: int|
                    0 <= i < bind::compatible_slots(
                        s.binder.slots,
                        s.binder.slots.len(),
                    ) implies {
                    &&& (#[trigger] s.binder.payloads[i]).group is Some
                    &&& s.binder.payloads[i].group->0.raw is Some
                    &&& seen_group(set, i, from) == Some(
                        (
                            s.binder.payloads[i].group->0.raw->0,
                            s.binder.payloads[i].dynamic_offsets,
                        ),
                    )
                } by {
                    assert(seen_group(set, i, from) == seen_group(s.out.raw, i, from));
                }
            }
            let same_layout = s.binder.layout matches Some(old) && old.id == layout.id;
            if same_layout {
                lemma_bound_group_step(env, commands, s.binder, n);
            } else {
                let late = pipeline.late_sized_buffer_groups@;
                let binder = s.binder.change_pipeline_layout(layout, late);
                assert(t.binder == binder);
                lemma_change_keeps_wf(s.binder, layout, late);
                lemma_bound_group_step(env, commands, s.binder, n);
                assert(holds_bound_groups(binder, env, commands, n)) by {
                    assert forall|i: int| 0 <= i < MAX_BIND_GROUPS implies match bound_group(
                        env,
                        commands,
                        i,
                        n,
                    ) {
                        None => (#[trigger] binder.payloads[i]).group is None,
                        Some((group, offsets)) => binder.payloads[i].group == Some(group)
                            && binder.payloads[i].dynamic_offsets == offsets,
                    } by {
                        assert(s.binder.payloads[i].group == binder.payloads[i].group);
                    }
                }
                let first = s.binder.first_changed_slot(layout);
                let start = s.binder.rebind_start(layout);
                lemma_rebind_agrees(s.binder, binder, set, layout.raw, start, first, from);
                let bound = run::rebind(
                    set,
                    layout.raw,
                    binder.payloads,
                    start,
                    (binder.rebind_end(first) - start) as nat,
                ).0;
                let ranges = push_constant::nonoverlapping_ranges(layout.push_constant_ranges@);
                warrant::lemma_clear_ranges_calls(bound, layout.raw, ranges, ranges.len());
                assert(t.out.raw == run::clear_ranges(bound, layout.raw, ranges, ranges.len()));
                assert forall|p: int| bound.len() <= p < t.out.raw.len() implies binds_nothing(
                    #[trigger] t.out.raw[p],
                ) by {
                    assert(warrant::is_clear(layout.raw, t.out.raw[p]));
                }
                assert forall|slot: int| #[trigger] seen_group(t.out.raw, slot, from)
                    == seen_group(bound, slot, from) by {
                    lemma_appended_nothing(bound, t.out.raw, slot, from);
                }
                lemma_appended_nothing(bound, t.out.raw, 0, from);
                lemma_agrees_with_same(binder, bound, t.out.raw, from);
            }
        }
    }
}

proof fn lemma_agrees_with_same(
    binder: BinderView,
    before: Seq<RawView>,
    after: Seq<RawView>,
    from: nat,
)
    requires
        backend_agrees(binder, before, from),
        forall|slot: int| #[trigger]
            seen_group(after, slot, from) == seen_group(before, slot, from),
    ensures
        backend_agrees(binder, after, from),
{
    assert forall|i: int|
        0 <= i < bind::compatible_slots(binder.slots, binder.slots.len()) implies {
        &&& (#[trigger] binder.payloads[i]).group is Some
        &&& binder.payloads[i].group->0.raw is Some
        &&& seen_group(after, i, from) == Some(
            (binder.payloads[i].group->0.raw->0, binder.payloads[i].dynamic_offsets),
        )
    } by {
        assert(seen_group(after, i, from) == seen_group(before, i, from));
    }
}

proof fn lemma_other_keeps_binder(s: RunView, env: PassEnv, command: ArcComputeCommand)
    requires
        !(command is SetBindGroup),
        !(command is SetPipeline),
    ensures
        s.step(env, command) matches Step::Done(t) ==> {
            &&& t.binder == s.binder
            &&& t.pipeline == s.pipeline
            &&& t.dynamic_offset_count == s.dynamic_offset_count
        },
{
}

proof fn lemma_other_in_step(
    s: RunView,
    env: PassEnv,
    commands: Seq<ArcComputeCommand>,
    n: nat,
    from: nat,
)
    requires
        0 < n <= commands.len(),
        !(commands[n - 1] is SetBindGroup),
        !(commands[n - 1] is SetPipeline),
        in_step(s, env, commands, (n - 1) as nat, from),
    ensures
        s.step(env, commands[n - 1]) matches Step::Done(t) ==> in_step(t, env, commands, n, from),
{
    let list = command_buffer::unresolved(commands);
    let command = commands[n - 1];
    if s.step(env, command) is Done {
        let t = s.step(env, command)->Done_0;
        assert(list[n - 1] == command.unresolved());
        warrant::step_is_warranted(s, env, command);
        lemma_other_keeps_binder(s, env, command);
        lemma_bound_group_step(env, commands, s.binder, n);
        assert forall|p: int| s.out.raw.len() <= p < t.out.raw.len() implies binds_nothing(
            #[trigger] t.out.raw[p],
        ) by {
            assert(warrant::warrants(env, command, t.out.raw[p]));
        }
        assert forall|slot: int| #[trigger] seen_group(t.out.raw, slot, from) == seen_group(
            s.out.raw,
            slot,
            from,
        ) by {
            lemma_appended_nothing(s.out.raw, t.out.raw, slot, from);
        }
        lemma_appended_nothing(s.out.raw, t.out.raw, 0, from);
        lemma_agrees_with_same(s.binder, s.out.raw, t.out.raw, from);
    }
}

proof fn lemma_steps_in_step(
    start: RunView,
    env: PassEnv,
    commands: Seq<ArcComputeCommand>,
    n: nat,
)
    requires
        n <= commands.len(),
        start.binder == BinderView::empty(),
        start.pipeline is None,
        start.dynamic_offset_count == 0,
    ensures
        start.steps(env, commands, n) matches Step::Done(t) ==> in_step(
            t,
            env,
            commands,
            n,
            start.out.raw.len(),
        ),
    decreases n,
{
    let from = start.out.raw.len();
    if n == 0 {
        bind::lemma_compatible_slots(start.binder.slots, start.binder.slots.len());
        assert(start.binder.slots[0].expected is None);
    } else {
        lemma_steps_in_step(start, env, commands, (n - 1) as nat);
        if let Step::Done(s) = start.steps(env, commands, (n - 1) as nat) {
            if commands[n - 1] is SetBindGroup {
                lemma_set_bind_group_in_step(s, env, commands, n, from);
            } else if commands[n - 1] is SetPipeline {
                lemma_set_pipeline_in_step(s, env, commands, n, from);
            } else {
                lemma_other_in_step(s, env, commands, n, from);
            }
        }
    }
}

/// What the slots hold after some commands.
pub(crate) proof fn lemma_slots_hold(
    start: RunView,
    env: PassEnv,
    commands: Seq<ArcComputeCommand>,
    n: nat,
)
    requires
        n <= commands.len(),
        start.binder == BinderView::empty(),
        start.pipeline is None,
        start.dynamic_offset_count == 0,
    ensures
        start.steps(env, commands, n) matches Step::Done(t) ==> {
            &&& t.binder.wf()
            &&& expects_layout(t.binder)
            &&& holds_bound_groups(t.binder, env, commands, n)
            &&& t.pipeline == match current_pipeline(commands, n) {
                Some(pipeline) => Some(pipeline.id),
                None => None,
            }
        },
{
    lemma_steps_in_step(start, env, commands, n);
}

/// The command runs the pipeline.
pub open spec fn is_dispatch(command: ArcComputeCommand) -> bool {
    command is Dispatch || command is DispatchIndirect
}

/// After the first `n` commands, a group with the layout that slot `i` needs is bound to it, and the
/// backend has bound that group there, with its dynamic offsets.
pub open spec fn slot_is_bound(
    env: PassEnv,
    commands: Seq<ArcComputeCommand>,
    n: nat,
    calls: Seq<RawView>,
    from: nat,
    layout: BindGroupLayout,
    i: int,
) -> bool {
    match bound_group(env, commands, i, n) {
        Some((group, offsets)) => {
            &&& group.layout.id == layout.id
            &&& group.raw is Some
            &&& backend_group(calls, i, from, calls.len()) == Some((group.raw->0, offsets))
        },
        None => false,
    }
}

/// The payload is a group whose backend object is gone.
pub open spec fn is_gone(payload: PayloadView) -> bool {
    payload.group matches Some(group) && group.raw is None
}

/// Where slots are handed to the backend, the slot that is named as missing is the first one among them
/// whose group has no backend object, and none is named only where there is no such slot.
pub proof fn missing_group_is_named(
    raw: Seq<RawView>,
    layout: RawHandle,
    payloads: Seq<PayloadView>,
    start: int,
    n: nat,
)
    ensures
        match run::rebind(raw, layout, payloads, start, n).1 {
            Some(slot) => {
                &&& start <= slot < start + n
                &&& is_gone(payloads[slot])
                &&& forall|k: int| start <= k < slot ==> !is_gone(#[trigger] payloads[k])
            },
            None => forall|k: int| start <= k < start + n ==> !is_gone(#[trigger] payloads[k]),
        },
    decreases n,
{
    if n > 0 {
        missing_group_is_named(raw, layout, payloads, start, (n - 1) as nat);
    }
}

/// A dispatch succeeds only where a pipeline is set and each slot that the layout in force has is
/// bound to a group of the right layout. When it reaches the backend, the backend has set the
/// pipeline that was set last, and has bound to each of these slots the group that was bound to it
/// last, with its dynamic offsets.
pub proof fn dispatch_finds_what_was_bound(
    start: RunView,
    env: PassEnv,
    commands: Seq<ArcComputeCommand>,
    n: nat,
)
    requires
        n < commands.len(),
        start.binder == BinderView::empty(),
        start.pipeline is None,
        start.dynamic_offset_count == 0,
        is_dispatch(commands[n as int]),
        start.steps(env, commands, n + 1) is Done,
    ensures
        start.steps(env, commands, n) is Done,
        ({
            let s = start.steps(env, commands, n)->Done_0;
            let from = start.out.raw.len();
            let layout = s.binder.layout->0;
            let pipeline = current_pipeline(commands, n)->0;
            &&& current_pipeline(commands, n) is Some
            &&& backend_pipeline(s.out.raw, from, s.out.raw.len()) == Some(pipeline.raw)
            &&& s.binder.layout is Some
            &&& layout.id == pipeline.layout.id
            &&& forall|i: int|
                0 <= i < layout.bind_group_layouts@.len() ==> slot_is_bound(
                    env,
                    commands,
                    n,
                    s.out.raw,
                    from,
                    *#[trigger] layout.bind_group_layouts@[i],
                    i,
                )
        }),
{
    let s = start.steps(env, commands, n)->Done_0;
    let from = start.out.raw.len();
    lemma_steps_in_step(start, env, commands, n);
    bind::lemma_first_invalid_slot(s.binder.slots, s.binder.slots.len());
    bind::lemma_compatible_slots(s.binder.slots, s.binder.slots.len());
    assert(state::not_ready(s.binder, s.pipeline) is None);
    let k = bind::compatible_slots(s.binder.slots, s.binder.slots.len());
    let layouts = s.binder.layout->0.bind_group_layouts@;
    assert(k >= layouts.len()) by {
        if k < layouts.len() {
            assert(s.binder.slots[k as int].spec_is_valid());
        }
    }
    assert forall|i: int| 0 <= i < layouts.len() implies slot_is_bound(
        env,
        commands,
        n,
        s.out.raw,
        from,
        *#[trigger] layouts[i],
        i,
    ) by {
        assert(s.binder.slots[i].spec_is_valid());
        assert(s.binder.payloads[i].group is Some);
        assert(seen_group(s.out.raw, i, from) is Some);
    }
}

} // verus!
