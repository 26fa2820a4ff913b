//! Which groups are handed to the backend, and when that fails.
use crate::bind;
use crate::bind::{BinderView, PayloadView, SlotLayouts};
use crate::binding;
use crate::error::{ComputePassErrorInner, Fault, PassErrorScope};
use crate::id::RawHandle;
use crate::raw::RawView;
use crate::readiness;
use crate::resource;
use crate::resource::{
    BindError, BindGroup, BindGroupDynamicBindingData, BufferBindingType, ComputePipeline,
    PipelineLayout,
};
use crate::run;
use crate::run::{PassEnv, RunView, Step};
use crate::types::{DynamicOffset, Limits};
use crate::warrant;
use std::sync::Arc;
use vstd::prelude::*;

verus! {

/// The number that the offset of a dynamic binding has to be a multiple of.
pub open spec fn alignment_for(info: BindGroupDynamicBindingData, limits: Limits) -> u32 {
    match info.binding_type {
        BufferBindingType::Uniform => limits.min_uniform_buffer_offset_alignment,
        BufferBindingType::Storage => limits.min_storage_buffer_offset_alignment,
    }
}

/// The offset is a multiple of what it has to be, and no larger than it may be.
pub open spec fn is_good_offset(info: BindGroupDynamicBindingData, offset: u32, limits: Limits) -> bool {
    &&& offset as int % alignment_for(info, limits) as int == 0
    &&& offset <= info.maximum_dynamic_offset
}

/// There is one offset for each dynamic binding, and all are good.
pub open spec fn are_good_offsets(group: Arc<BindGroup>, offsets: Seq<DynamicOffset>, limits: Limits) -> bool {
    &&& group.dynamic_binding_info@.len() == offsets.len()
    &&& forall|i: int|
        0 <= i < offsets.len() ==> is_good_offset(
            #[trigger] group.dynamic_binding_info@[i],
            offsets[i],
            limits,
        )
}

/// There is nothing to hold one of the offsets against, and all before it are good.
pub open spec fn lacks_alignment(
    group: Arc<BindGroup>,
    offsets: Seq<DynamicOffset>,
    limits: Limits,
) -> bool {
    &&& group.dynamic_binding_info@.len() == offsets.len()
    &&& exists|i: int|
        {
            &&& 0 <= i < offsets.len()
            &&& alignment_for(#[trigger] group.dynamic_binding_info@[i], limits) == 0
            &&& forall|j: int|
                0 <= j < i ==> is_good_offset(
                    #[trigger] group.dynamic_binding_info@[j],
                    offsets[j],
                    limits,
                )
        }
}

/// What the error says of the offsets is true, and it names the first one that is not good.
pub open spec fn is_offset_fault(
    e: BindError,
    group: Arc<BindGroup>,
    slot: u32,
    offsets: Seq<DynamicOffset>,
    limits: Limits,
) -> bool {
    let infos = group.dynamic_binding_info@;
    match e {
        BindError::MismatchedDynamicOffsetCount { group: at, expected, actual } => {
            &&& at == slot
            &&& expected == infos.len()
            &&& actual == offsets.len()
            &&& infos.len() != offsets.len()
        },
        BindError::UnalignedDynamicBinding {
            group: at,
            binding,
            idx,
            offset,
            alignment,
            binding_type,
        } => {
            &&& at == slot
            &&& infos.len() == offsets.len()
            &&& idx < infos.len()
            &&& binding == infos[idx as int].binding_idx
            &&& binding_type == infos[idx as int].binding_type
            &&& offset == offsets[idx as int]
            &&& alignment == alignment_for(infos[idx as int], limits)
            &&& offset as int % alignment as int != 0
            &&& forall|i: int|
                0 <= i < idx ==> is_good_offset(#[trigger] infos[i], offsets[i], limits)
        },
        BindError::DynamicBindingOutOfBounds {
            group: at,
            binding,
            idx,
            offset,
            buffer_size,
            binding_start,
            binding_end,
            maximum_dynamic_offset,
        } => {
            let info = infos[idx as int];
            &&& at == slot
            &&& infos.len() == offsets.len()
            &&& idx < infos.len()
            &&& binding == info.binding_idx
            &&& offset == offsets[idx as int]
            &&& buffer_size == info.buffer_size
            &&& binding_start == info.binding_start
            &&& binding_end == info.binding_end
            &&& maximum_dynamic_offset == info.maximum_dynamic_offset
            &&& offset > maximum_dynamic_offset
            &&& offset as int % alignment_for(info, limits) as int == 0
            &&& forall|i: int|
                0 <= i < idx ==> is_good_offset(#[trigger] infos[i], offsets[i], limits)
        },
    }
}

proof fn lemma_first_bad_offset(
    group: Arc<BindGroup>,
    slot: u32,
    offsets: Seq<DynamicOffset>,
    limits: Limits,
    n: nat,
)
    requires
        n <= offsets.len(),
        group.dynamic_binding_info@.len() == offsets.len(),
        offsets.len() <= usize::MAX,
    ensures
        match resource::first_dynamic_binding_error(
            group.dynamic_binding_info@,
            slot,
            offsets,
            limits,
            n,
        ) {
            None => forall|i: int|
                0 <= i < n ==> is_good_offset(
                    #[trigger] group.dynamic_binding_info@[i],
                    offsets[i],
                    limits,
                ),
            Some(e) => !(e is MismatchedDynamicOffsetCount) && is_offset_fault(
                e,
                group,
                slot,
                offsets,
                limits,
            ),
        },
    decreases n,
{
    if n > 0 {
        lemma_first_bad_offset(group, slot, offsets, limits, (n - 1) as nat);
    }
}

/// A group can be bound with dynamic offsets exactly where there is one for each of its dynamic bindings and
/// all are good. Otherwise the error says what is wrong with the first one that is not.
pub proof fn good_offsets_are_accepted(
    group: Arc<BindGroup>,
    slot: u32,
    offsets: Seq<DynamicOffset>,
    limits: Limits,
)
    requires
        offsets.len() <= usize::MAX,
    ensures
        match group.dynamic_bindings_error(slot, offsets, limits) {
            None => are_good_offsets(group, offsets, limits),
            Some(e) => is_offset_fault(e, group, slot, offsets, limits) && !are_good_offsets(
                group,
                offsets,
                limits,
            ),
        },
{
    let infos = group.dynamic_binding_info;
    assert(infos@.len() == infos.len());
    if infos@.len() == offsets.len() {
        lemma_first_bad_offset(group, slot, offsets, limits, offsets.len());
        let fault = resource::first_dynamic_binding_error(
            infos@,
            slot,
            offsets,
            limits,
            offsets.len(),
        );
        if let Some(e) = fault {
            let idx = match e {
                BindError::UnalignedDynamicBinding { idx, .. } => idx as int,
                BindError::DynamicBindingOutOfBounds { idx, .. } => idx as int,
                _ => 0,
            };
            assert(!is_good_offset(infos@[idx], offsets[idx], limits));
        }
    }
}

/// The pipeline expects a group in the slot, and finds the right one there.
pub open spec fn is_used(slot: SlotLayouts) -> bool {
    slot.expected is Some && readiness::is_suited(slot)
}

/// All slots up to the given one are used.
pub open spec fn is_used_up_to(slots: Seq<SlotLayouts>, j: int) -> bool {
    forall|i: int| 0 <= i <= j ==> is_used(#[trigger] slots[i])
}

proof fn lemma_compatible_is_used(slots: Seq<SlotLayouts>, j: int)
    requires
        slots.len() == 8,
        0 <= j < 8,
    ensures
        (j < bind::compatible_slots(slots, 8)) == is_used_up_to(slots, j),
{
    bind::lemma_compatible_slots(slots, 8);
    let c = bind::compatible_slots(slots, 8);
    if j < c {
        assert forall|i: int| 0 <= i <= j implies is_used(#[trigger] slots[i]) by {
            assert(slots[i].spec_is_compatible());
        }
    } else if is_used_up_to(slots, j) {
        assert(is_used(slots[c as int]));
    }
}

/// The call hands the group of a slot over, with its dynamic offsets.
pub open spec fn hands_over(call: RawView, layout: RawHandle, slot: int, payload: PayloadView) -> bool {
    payload.group matches Some(group) && (group.raw matches Some(handle) && (call matches RawView::SetBindGroup {
        layout: used,
        index,
        group: told,
        dynamic_offsets,
    } && used == layout && index == slot && told == handle && dynamic_offsets
        == payload.dynamic_offsets))
}

/// Slots `start..start + n` are handed over one after the other, where all of them hold a group. It fails at
/// the first one whose group has no backend object.
proof fn lemma_rebind_full(
    raw: Seq<RawView>,
    layout: RawHandle,
    payloads: Seq<PayloadView>,
    start: int,
    n: nat,
)
    requires
        0 <= start,
        start + n <= 8,
        payloads.len() == 8,
        forall|i: int| start <= i < start + n ==> (#[trigger] payloads[i]).group is Some,
    ensures
        ({
            let (after, gone) = run::rebind(raw, layout, payloads, start, n);
            let done = match gone {
                Some(slot) => slot - start,
                None => n as int,
            };
            &&& warrant::extends(raw, after)
            &&& after.len() == raw.len() + done
            &&& gone matches Some(slot) ==> start <= slot < start + n && payloads[slot].group->0.raw
                is None
            &&& forall|i: int|
                start <= i < start + done ==> hands_over(
                    after[raw.len() + i - start],
                    layout,
                    i,
                    #[trigger] payloads[i],
                )
        }),
    decreases n,
{
    if n > 0 {
        lemma_rebind_full(raw, layout, payloads, start, (n - 1) as nat);
        let (before, gone) = run::rebind(raw, layout, payloads, start, (n - 1) as nat);
        let after = run::rebind(raw, layout, payloads, start, n).0;
        assert(payloads[start + n - 1].group is Some);
        if gone is None && payloads[start + n - 1].group->0.raw is Some {
            assert forall|i: int| start <= i < start + n implies hands_over(
                after[raw.len() + i - start],
                layout,
                i,
                #[trigger] payloads[i],
            ) by {
                if i < start + n - 1 {
                    assert(after[raw.len() + i - start] == before[raw.len() + i - start]);
                }
            }
        }
    }
}

/// The slots after a group was put into one of them.
pub open spec fn is_put(
    before: BinderView,
    after: BinderView,
    index: int,
    group: Arc<BindGroup>,
    offsets: Seq<DynamicOffset>,
) -> bool {
    &&& after.layout == before.layout
    &&& after.slots.len() == 8
    &&& after.payloads.len() == 8
    &&& after.slots[index].assigned == Some(group.layout)
    &&& after.slots[index].expected == before.slots[index].expected
    &&& after.payloads[index].group == Some(group)
    &&& after.payloads[index].dynamic_offsets == offsets
    &&& forall|i: int|
        0 <= i < 8 && i != index ==> #[trigger] after.slots[i] == before.slots[i]
    &&& forall|i: int|
        0 <= i < 8 && i != index ==> #[trigger] after.payloads[i] == before.payloads[i]
}

/// Binding a group succeeds exactly where its slot is within the limits, its dynamic offsets are good, and no
/// group is gone that has to be handed over. Where a pipeline is set, a slot from the bound one on is handed
/// over exactly where all slots up to it are used, in ascending order, each with the group that it holds.
/// Where none is set, nothing is. Each error says truly what is wrong.
pub proof fn verdict_on_binding(
    s: RunView,
    env: PassEnv,
    index: u32,
    num_dynamic_offsets: usize,
    group: Arc<BindGroup>,
)
    requires
        s.binder.wf(),
        binding::expects_layout(s.binder),
    ensures
        ({
            let end = s.dynamic_offset_count + num_dynamic_offsets;
            let offsets = env.dynamic_offsets@.subrange(
                s.dynamic_offset_count as int,
                end as int,
            );
            match s.set_bind_group(env, index, num_dynamic_offsets, group) {
                Step::Done(t) => {
                    &&& index < env.limits.max_bind_groups
                    &&& index < 8
                    &&& end <= env.dynamic_offsets@.len()
                    &&& are_good_offsets(group, offsets, env.limits)
                    &&& t.dynamic_offset_count == end
                    &&& t.string_offset == s.string_offset
                    &&& t.pipeline == s.pipeline
                    &&& is_put(s.binder, t.binder, index as int, group, offsets)
                    &&& warrant::extends(s.out.raw, t.out.raw)
                    &&& match s.binder.layout {
                        None => t.out.raw == s.out.raw,
                        Some(layout) => {
                            &&& t.out.raw.len() <= s.out.raw.len() + 8 - index
                            &&& forall|j: int|
                                index <= j < 8 ==> (j - index < t.out.raw.len() - s.out.raw.len())
                                    == #[trigger] is_used_up_to(t.binder.slots, j)
                            &&& forall|j: int|
                                index <= j < index + t.out.raw.len() - s.out.raw.len()
                                    ==> hands_over(
                                    t.out.raw[s.out.raw.len() + j - index],
                                    layout.raw,
                                    j,
                                    #[trigger] t.binder.payloads[j],
                                )
                        },
                    }
                },
                Step::Failed(t, e) => {
                    &&& e.scope == PassErrorScope::SetBindGroup(group.id)
                    &&& match e.fault {
                        Fault::Other(
                            ComputePassErrorInner::BindGroupIndexOutOfRange { index: at, max },
                        ) => at == index && max == env.limits.max_bind_groups && index
                            >= env.limits.max_bind_groups && t == s,
                        Fault::Other(ComputePassErrorInner::Bind(e)) => index
                            < env.limits.max_bind_groups && is_offset_fault(
                            e,
                            group,
                            index,
                            offsets,
                            env.limits,
                        ) && !are_good_offsets(group, offsets, env.limits) && t.out.raw
                            == s.out.raw && t.binder == s.binder,
                        Fault::Other(ComputePassErrorInner::InvalidBindGroup(slot)) => {
                            &&& index < env.limits.max_bind_groups
                            &&& are_good_offsets(group, offsets, env.limits)
                            &&& s.binder.layout is Some
                            &&& is_put(s.binder, t.binder, index as int, group, offsets)
                            &&& index <= slot < 8
                            &&& is_used_up_to(t.binder.slots, slot as int)
                            &&& t.binder.payloads[slot as int].group matches Some(gone)
                                && gone.raw is None
                            &&& forall|j: int|
                                index <= j < slot ==> ((#[trigger] t.binder.payloads[j]).group matches Some(
                                    there,
                                ) && there.raw is Some)
                        },
                        _ => false,
                    }
                },
                Step::Stuck => index < env.limits.max_bind_groups && (end
                    > env.dynamic_offsets@.len() || lacks_alignment(group, offsets, env.limits) || (
                index >= 8 && are_good_offsets(group, offsets, env.limits))),
            }
        }),
{
    let end = s.dynamic_offset_count + num_dynamic_offsets;
    if index < env.limits.max_bind_groups && end <= env.dynamic_offsets@.len() {
        let offsets = env.dynamic_offsets@.subrange(s.dynamic_offset_count as int, end as int);
        assert(env.dynamic_offsets@.len() == env.dynamic_offsets.len());
        good_offsets_are_accepted(group, index, offsets, env.limits);
        let infos = group.dynamic_binding_info;
        if infos@.len() == offsets.len() {
            assert forall|i: int|
                0 <= i < infos@.len() && resource::dynamic_alignment(
                    env.limits,
                    (#[trigger] infos@[i]).binding_type,
                ) == 0 && resource::first_dynamic_binding_error(
                    infos@,
                    index,
                    offsets,
                    env.limits,
                    i as nat,
                ) is None implies lacks_alignment(group, offsets, env.limits) by {
                lemma_first_bad_offset(group, index, offsets, env.limits, i as nat);
                assert(alignment_for(group.dynamic_binding_info@[i], env.limits) == 0);
            }
        }
        if index < 8 {
            let binder = s.binder.assign_group(index as int, group, offsets);
            binding::lemma_assign_keeps_wf(s.binder, index as int, group, offsets);
            assert(is_put(s.binder, binder, index as int, group, offsets));
            if let Some(layout) = s.binder.layout {
                lemma_handed(s.out.raw, layout.raw, binder, index as int);
            }
        }
    }
}

/// Slots from `start` on are handed over.
proof fn lemma_handed(raw: Seq<RawView>, layout: RawHandle, binder: BinderView, start: int)
    requires
        binder.wf(),
        0 <= start < 8,
    ensures
        ({
            let n = (binder.rebind_end(start) - start) as nat;
            let (after, gone) = run::rebind(raw, layout, binder.payloads, start, n);
            &&& 0 <= n <= 8 - start
            &&& warrant::extends(raw, after)
            &&& gone matches Some(slot) ==> {
                &&& start <= slot < 8
                &&& is_used_up_to(binder.slots, slot)
                &&& binder.payloads[slot].group matches Some(group) && group.raw is None
                &&& forall|j: int|
                    start <= j < slot ==> ((#[trigger] binder.payloads[j]).group matches Some(
                        there,
                    ) && there.raw is Some)
            }
            &&& gone is None ==> {
                &&& after.len() == raw.len() + n
                &&& forall|j: int|
                    start <= j < 8 ==> (j - start < n) == #[trigger] is_used_up_to(binder.slots, j)
                &&& forall|j: int|
                    start <= j < start + n ==> hands_over(
                        after[raw.len() + j - start],
                        layout,
                        j,
                        #[trigger] binder.payloads[j],
                    )
            }
        }),
{
    let c = bind::compatible_slots(binder.slots, binder.slots.len());
    let n = (binder.rebind_end(start) - start) as nat;
    bind::lemma_compatible_slots(binder.slots, binder.slots.len());
    assert forall|j: int| start <= j < 8 implies (j - start < n) == #[trigger] is_used_up_to(
        binder.slots,
        j,
    ) by {
        lemma_compatible_is_used(binder.slots, j);
    }
    assert forall|i: int| start <= i < start + n implies (#[trigger] binder.payloads[i]).group
        is Some by {
        assert(binder.slots[i].spec_is_compatible());
        assert(binder.slots[i].assigned is Some);
    }
    lemma_rebind_full(raw, layout, binder.payloads, start, n);
    if let Some(slot) = run::rebind(raw, layout, binder.payloads, start, n).1 {
        assert(slot - start < n);
        assert(is_used_up_to(binder.slots, slot));
        assert(binder.payloads[slot].group is Some);
        let after = run::rebind(raw, layout, binder.payloads, start, n).0;
        assert forall|j: int| start <= j < slot implies ((
        #[trigger] binder.payloads[j]).group matches Some(there) && there.raw is Some) by {
            assert(hands_over(
                after[raw.len() + j - start],
                layout,
                j,
                binder.payloads[j],
            ));
        }
    }
}

/// The slot expects the same under the new layout as before.
pub open spec fn is_unchanged(slot: SlotLayouts, layout: Arc<PipelineLayout>, j: int) -> bool {
    slot.expected matches Some(expected) && expected.id == layout.bind_group_layouts@[j].id
}

/// The first slot of the new layout that expects something else than before, or the end of the layout.
pub open spec fn is_first_change(slots: Seq<SlotLayouts>, layout: Arc<PipelineLayout>, first: int) -> bool {
    let n = layout.bind_group_layouts@.len();
    &&& 0 <= first <= n
    &&& forall|j: int| 0 <= j < first ==> is_unchanged(#[trigger] slots[j], layout, j)
    &&& first < n ==> !is_unchanged(slots[first], layout, first)
}

proof fn lemma_first_change_of(
    slots: Seq<SlotLayouts>,
    layout: Arc<PipelineLayout>,
    n: nat,
)
    requires
        slots.len() == 8,
        n <= layout.bind_group_layouts@.len() <= 8,
    ensures
        ({
            let f = bind::unchanged_slots(slots, layout.bind_group_layouts@, n) as int;
            &&& 0 <= f <= n
            &&& forall|j: int| 0 <= j < f ==> is_unchanged(#[trigger] slots[j], layout, j)
            &&& f < n ==> !is_unchanged(slots[f], layout, f)
        }),
    decreases n,
{
    if n > 0 {
        lemma_first_change_of(slots, layout, (n - 1) as nat);
    }
}

/// The calls from `from` on hand over groups of slots `start..end` only, each as its slot holds it, and the
/// groups of all these slots.
pub open spec fn hand_over_exactly(
    calls: Seq<RawView>,
    from: nat,
    to: nat,
    layout: RawHandle,
    payloads: Seq<PayloadView>,
    start: int,
    end: int,
) -> bool {
    &&& forall|p: int|
        from <= p < to ==> ((#[trigger] calls[p]) matches RawView::SetBindGroup { index, .. } && start
            <= index < end && hands_over(calls[p], layout, index as int, payloads[index as int]))
    &&& forall|j: int|
        start <= j < end && (#[trigger] payloads[j]).group is Some ==> exists|p: int|
            from <= p < to && hands_over(#[trigger] calls[p], layout, j, payloads[j])
}

proof fn lemma_rebind_exact(
    raw: Seq<RawView>,
    layout: RawHandle,
    payloads: Seq<PayloadView>,
    start: int,
    n: nat,
)
    requires
        0 <= start,
        start + n <= 8,
        payloads.len() == 8,
    ensures
        ({
            let (after, gone) = run::rebind(raw, layout, payloads, start, n);
            &&& warrant::extends(raw, after)
            &&& gone is None ==> hand_over_exactly(
                after,
                raw.len(),
                after.len(),
                layout,
                payloads,
                start,
                start + n,
            )
        }),
    decreases n,
{
    if n > 0 {
        lemma_rebind_exact(raw, layout, payloads, start, (n - 1) as nat);
        let (before, gone) = run::rebind(raw, layout, payloads, start, (n - 1) as nat);
        let (after, gone_now) = run::rebind(raw, layout, payloads, start, n);
        if gone_now is None {
            assert forall|p: int| raw.len() <= p < after.len() implies ((
            #[trigger] after[p]) matches RawView::SetBindGroup { index, .. } && start <= index
                < start + n && hands_over(
                after[p],
                layout,
                index as int,
                payloads[index as int],
            )) by {
                if p < before.len() {
                    assert(after[p] == before[p]);
                }
            }
            assert forall|j: int|
                start <= j < start + n && (#[trigger] payloads[j]).group is Some implies exists|
                p: int,
            |
                raw.len() <= p < after.len() && hands_over(
                    #[trigger] after[p],
                    layout,
                    j,
                    payloads[j],
                ) by {
                if j < start + n - 1 {
                    let p = choose|p: int|
                        raw.len() <= p < before.len() && hands_over(
                            #[trigger] before[p],
                            layout,
                            j,
                            payloads[j],
                        );
                    assert(after[p] == before[p]);
                } else {
                    assert(hands_over(after[before.len() as int], layout, j, payloads[j]));
                }
            }
        }
    }
}

/// The slots after a pipeline with another layout was set: they expect what its layout says, and hold what
/// they held.
pub open spec fn is_expecting(before: BinderView, after: BinderView, layout: Arc<PipelineLayout>) -> bool {
    let layouts = layout.bind_group_layouts@;
    &&& after.layout == Some(layout)
    &&& after.slots.len() == 8
    &&& after.payloads.len() == 8
    &&& forall|i: int|
        0 <= i < 8 ==> (#[trigger] after.slots[i]).assigned == before.slots[i].assigned
    &&& forall|i: int|
        0 <= i < layouts.len() ==> is_unchanged(#[trigger] after.slots[i], layout, i)
    &&& forall|i: int| layouts.len() <= i < 8 ==> (#[trigger] after.slots[i]).expected is None
    &&& forall|i: int|
        0 <= i < 8 ==> (#[trigger] after.payloads[i]).group == before.payloads[i].group
            && after.payloads[i].dynamic_offsets == before.payloads[i].dynamic_offsets
}

/// A pipeline with another layout than before disturbs all slots from the first one on that expects something
/// else, or all slots where the push constants of the two layouts differ. The disturbed ones that are used are
/// handed over again, each as it is held, which fails where one of their groups is gone. The error names the
/// first of these slots.
pub proof fn verdict_on_new_layout(
    s: RunView,
    pipeline: Arc<ComputePipeline>,
    first: int,
    start: int,
)
    requires
        s.binder.wf(),
        binding::expects_layout(s.binder),
        s.binder.layout matches Some(earlier) ==> earlier.id != pipeline.layout.id,
        pipeline.layout.bind_group_layouts@.len() <= 8,
        is_first_change(s.binder.slots, pipeline.layout, first),
        start == match s.binder.layout {
            Some(earlier) => if earlier.push_constant_ranges@
                == pipeline.layout.push_constant_ranges@ {
                first
            } else {
                0
            },
            None => first,
        },
    ensures
        match s.set_pipeline(pipeline) {
            Step::Done(t) => {
                &&& t.pipeline == Some(pipeline.id)
                &&& is_expecting(s.binder, t.binder, pipeline.layout)
                &&& t.out.raw.len() > s.out.raw.len()
                &&& warrant::extends(s.out.raw, t.out.raw)
                &&& t.out.raw[s.out.raw.len() as int] == RawView::SetComputePipeline(pipeline.raw)
                &&& exists|end: int, to: nat|
                    {
                        &&& start <= end <= 8
                        &&& s.out.raw.len() < to <= t.out.raw.len()
                        &&& #[trigger] hand_over_exactly(
                            t.out.raw,
                            s.out.raw.len() + 1,
                            to,
                            pipeline.layout.raw,
                            t.binder.payloads,
                            start,
                            end,
                        )
                        &&& forall|j: int|
                            start <= j < 8 ==> (j < end) == (j < first || #[trigger] is_used_up_to(
                                t.binder.slots,
                                j,
                            ))
                        &&& forall|p: int|
                            to <= p < t.out.raw.len() ==> (
                            #[trigger] t.out.raw[p]) is SetPushConstants
                    }
            },
            Step::Failed(t, e) => {
                &&& e.scope == PassErrorScope::SetPipelineCompute(pipeline.id)
                &&& is_expecting(s.binder, t.binder, pipeline.layout)
                &&& e.fault matches Fault::Other(ComputePassErrorInner::InvalidBindGroup(slot)) && {
                    &&& start <= slot < 8
                    &&& slot < first || is_used_up_to(t.binder.slots, slot as int)
                    &&& binding::is_gone(t.binder.payloads[slot as int])
                    &&& forall|j: int|
                        start <= j < slot ==> !binding::is_gone(#[trigger] t.binder.payloads[j])
                }
            },
            Step::Stuck => false,
        },
{
    let layout = pipeline.layout;
    let layouts = layout.bind_group_layouts@;
    let binder = s.binder.change_pipeline_layout(layout, pipeline.late_sized_buffer_groups@);
    lemma_changed_first(s.binder, layout, first);
    assert(s.binder.first_changed_slot(layout) == first);
    assert(s.binder.rebind_start(layout) == start);
    assert(is_expecting(s.binder, binder, layout));
    let set = s.out.raw.push(RawView::SetComputePipeline(pipeline.raw));
    let c = bind::compatible_slots(binder.slots, binder.slots.len());
    bind::lemma_compatible_slots(binder.slots, binder.slots.len());
    let end = binder.rebind_end(first);
    let n = (end - start) as nat;
    assert forall|j: int| start <= j < 8 implies (j < end) == (j < first
        || #[trigger] is_used_up_to(binder.slots, j)) by {
        lemma_compatible_is_used(binder.slots, j);
    }
    lemma_rebind_exact(set, layout.raw, binder.payloads, start, n);
    binding::missing_group_is_named(set, layout.raw, binder.payloads, start, n);
    let (bound, gone) = run::rebind(set, layout.raw, binder.payloads, start, n);
    if let Some(slot) = gone {
        assert(slot < end);
    }
    if let Step::Done(t) = s.set_pipeline(pipeline) {
        let ranges = crate::push_constant::nonoverlapping_ranges(layout.push_constant_ranges@);
        warrant::lemma_clear_ranges_calls(bound, layout.raw, ranges, ranges.len());
        assert(t.out.raw == run::clear_ranges(bound, layout.raw, ranges, ranges.len()));
        lemma_hand_over_extends(
            bound,
            t.out.raw,
            set.len(),
            layout.raw,
            binder.payloads,
            start,
            end,
        );
        assert forall|p: int| bound.len() <= p < t.out.raw.len() implies (
        #[trigger] t.out.raw[p]) is SetPushConstants by {
            assert(warrant::is_clear(layout.raw, t.out.raw[p]));
        }
    }
}

proof fn lemma_changed_first(binder: BinderView, layout: Arc<PipelineLayout>, first: int)
    requires
        binder.slots.len() == 8,
        layout.bind_group_layouts@.len() <= 8,
        is_first_change(binder.slots, layout, first),
    ensures
        binder.first_changed_slot(layout) == first,
{
    lemma_first_change_of(binder.slots, layout, layout.bind_group_layouts@.len());
    let f = binder.first_changed_slot(layout);
    if f < first {
        assert(is_unchanged(binder.slots[f], layout, f));
    } else if first < f {
        assert(is_unchanged(binder.slots[first], layout, first));
    }
}

proof fn lemma_hand_over_extends(
    before: Seq<RawView>,
    after: Seq<RawView>,
    from: nat,
    layout: RawHandle,
    payloads: Seq<PayloadView>,
    start: int,
    end: int,
)
    requires
        warrant::extends(before, after),
        hand_over_exactly(before, from, before.len(), layout, payloads, start, end),
    ensures
        hand_over_exactly(after, from, before.len(), layout, payloads, start, end),
{
    assert forall|p: int| from <= p < before.len() implies ((
    #[trigger] after[p]) matches RawView::SetBindGroup { index, .. } && start <= index < end
        && hands_over(after[p], layout, index as int, payloads[index as int])) by {
        assert(after[p] == before[p]);
    }
    assert forall|j: int| start <= j < end && (#[trigger] payloads[j]).group is Some implies exists|
        p: int,
    |
        from <= p < before.len() && hands_over(#[trigger] after[p], layout, j, payloads[j]) by {
        let p = choose|p: int|
            from <= p < before.len() && hands_over(#[trigger] before[p], layout, j, payloads[j]);
        assert(after[p] == before[p]);
    }
}

} // verus!
