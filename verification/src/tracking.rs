//! What uses of a resource exclude each other, which changes of use the backend is told of, and which groups
//! are looked at.
use crate::bind::{BinderView, SlotLayouts};
use crate::id::{BufferId, TextureId, TrackerIndex};
use crate::track;
use crate::track::{
    InvalidUse, ResourceKind, ResourceUse, TrackedUse, Transition, UsageConflict, UsageTrackerView,
};
use crate::usage;
use vstd::prelude::*;

verus! {

/// The uses of a buffer that exclude all others: host writes, copies into it, and writable storage. Those of a
/// texture: copies into it, rendering to it, writable depth, all storage, and presenting it.
pub open spec fn excluding(kind: ResourceKind) -> u16 {
    match kind {
        ResourceKind::Buffer => 0x2u16 | 0x8u16 | 0x100u16,
        ResourceKind::Texture => 0x2u16 | 0x8u16 | 0x20u16 | 0x80u16 | 0x100u16 | 0x200u16,
    }
}

/// The uses after which the same use again has to be told to the backend. For a buffer: copies into it and
/// writable storage. For a texture: what comes before its first use, copies into it, writable storage, and
/// presenting it.
pub open spec fn unordered(kind: ResourceKind) -> u16 {
    match kind {
        ResourceKind::Buffer => !(0x1u16 | 0x2u16 | 0x4u16 | 0x10u16 | 0x20u16 | 0x40u16 | 0x80u16 | 0x200u16),
        ResourceKind::Texture => !(0x4u16 | 0x10u16 | 0x20u16 | 0x40u16 | 0x80u16 | 0x100u16),
    }
}

/// A use that excludes all others is there, and another one.
pub open spec fn is_impossible(kind: ResourceKind, uses: u16) -> bool {
    &&& uses & excluding(kind) != 0
    &&& exists|one: u16, other: u16|
        {
            &&& #[trigger] (uses & one) == one
            &&& #[trigger] (uses & other) == other
            &&& one & other == 0
            &&& one != 0
            &&& other != 0
        }
}

/// Uses are in conflict exactly where one excludes all others and another one is there.
pub proof fn conflicts_are_impossible_uses(kind: ResourceKind, uses: u16)
    ensures
        track::is_conflicting(kind, uses) == is_impossible(kind, uses),
{
    assert(0x2u16 | 0x8u16 | 0x100u16 == 0x10au16 && 0x2u16 | 0x8u16 | 0x20u16 | 0x80u16 | 0x100u16
        | 0x200u16 == 0x3aau16) by (bit_vector);
    let least = uses & !((uses - 1) as u16);
    let rest = uses & ((uses - 1) as u16);
    if uses != 0 {
        assert(uses & (uses & !((uses - 1) as u16)) == uses & !((uses - 1) as u16) && uses & (uses
            & ((uses - 1) as u16)) == uses & ((uses - 1) as u16) && (uses & !((uses - 1) as u16))
            & (uses & ((uses - 1) as u16)) == 0 && uses & !((uses - 1) as u16) != 0)
            by (bit_vector)
            requires
                uses != 0,
        ;
        assert(uses & least == least);
        assert(uses & rest == rest);
    } else {
        assert(0u16 & excluding(kind) == 0) by {
            let bits = excluding(kind);
            assert(0u16 & bits == 0) by (bit_vector);
        }
    }
    if is_impossible(kind, uses) {
        let (one, other) = choose|one: u16, other: u16|
            {
                &&& #[trigger] (uses & one) == one
                &&& #[trigger] (uses & other) == other
                &&& one & other == 0
                &&& one != 0
                &&& other != 0
            };
        assert(uses & ((uses - 1) as u16) != 0) by (bit_vector)
            requires
                uses & one == one,
                uses & other == other,
                one & other == 0,
                one != 0,
                other != 0,
                uses != 0,
        ;
    }
}

/// Adding a use to a scope that names no slot twice is refused exactly where the slot is there already and the
/// two uses together are impossible; the error names the resource and both uses. Otherwise the slot has exactly
/// both uses together, and all other slots are as before.
pub proof fn impossible_uses_are_refused(
    uses: Seq<ResourceUse>,
    kind: ResourceKind,
    new: ResourceUse,
)
    requires
        usage::is_distinct(uses),
    ensures
        match track::merge_use(uses, kind, new) {
            Ok(after) => {
                &&& forall|k: int|
                    0 <= k < uses.len() ==> (#[trigger] uses[k]).index != new.index ==> after[k]
                        == uses[k]
                &&& forall|k: int|
                    0 <= k < uses.len() ==> (#[trigger] uses[k]).index == new.index ==> {
                        &&& after.len() == uses.len()
                        &&& after[k].index == new.index
                        &&& after[k].id == uses[k].id
                        &&& after[k].uses == uses[k].uses | new.uses
                        &&& !is_impossible(kind, uses[k].uses | new.uses)
                    }
                &&& (forall|k: int| 0 <= k < uses.len() ==> (#[trigger] uses[k]).index != new.index)
                    ==> after == uses.push(new)
            },
            Err(e) => exists|k: int|
                {
                    &&& 0 <= k < uses.len()
                    &&& (#[trigger] uses[k]).index == new.index
                    &&& is_impossible(kind, uses[k].uses | new.uses)
                    &&& e == match kind {
                        ResourceKind::Buffer => UsageConflict::Buffer {
                            buffer: BufferId(new.id),
                            invalid_use: InvalidUse {
                                current_state: uses[k].uses,
                                new_state: new.uses,
                            },
                        },
                        ResourceKind::Texture => UsageConflict::Texture {
                            texture: TextureId(new.id),
                            invalid_use: InvalidUse {
                                current_state: uses[k].uses,
                                new_state: new.uses,
                            },
                        },
                    }
                },
        },
{
    track::lemma_use_position(uses, new.index, uses.len());
    if let Some(k) = track::find_use(uses, new.index) {
        conflicts_are_impossible_uses(kind, uses[k].uses | new.uses);
        assert(uses[k].index == new.index);
    }
}

/// A slot that is used again goes from its last use to the new one by exactly one transition, unless the two
/// are the same and need not be told apart. A slot that is new enters without one.
pub proof fn changes_of_use_are_told(
    tracker: UsageTrackerView,
    kind: ResourceKind,
    index: TrackerIndex,
    start: u16,
    end: u16,
    k: int,
)
    requires
        0 <= k <= tracker.uses.len(),
        forall|j: int| 0 <= j < k ==> (#[trigger] tracker.uses[j]).index != index,
        k < tracker.uses.len() ==> tracker.uses[k].index == index,
    ensures
        ({
            let after = tracker.set(kind, index, start, end);
            if k == tracker.uses.len() {
                &&& after.uses == tracker.uses.push(TrackedUse { index, start, end })
                &&& after.pending == tracker.pending
            } else {
                let from = tracker.uses[k].end;
                &&& after.uses == tracker.uses.update(
                    k,
                    TrackedUse { index, start: tracker.uses[k].start, end },
                )
                &&& after.pending == if from == start && from & unordered(kind) == 0 {
                    tracker.pending
                } else {
                    tracker.pending.push(Transition { index, from, to: start })
                }
            }
        }),
{
    usage::lemma_tracked_position(tracker.uses, index, tracker.uses.len());
    assert(0x1u16 | 0x2u16 | 0x4u16 | 0x10u16 | 0x20u16 | 0x40u16 | 0x80u16 | 0x200u16 == 0x2f7u16
        && 0x4u16 | 0x10u16 | 0x20u16 | 0x40u16 | 0x80u16 | 0x100u16 == 0x1f4u16) by (bit_vector);
    if k < tracker.uses.len() {
        assert(track::find_tracked(tracker.uses, index) == Some(k));
    }
}

/// An object that is to be kept alive is kept alive, and so is exactly what was before.
pub proof fn objects_are_added_once(ids: Seq<u64>, id: u64, other: u64)
    ensures
        track::insert_once(ids, id).contains(other) == (ids.contains(other) || other == id),
        ids.contains(id) ==> track::insert_once(ids, id) == ids,
{
    let after = track::insert_once(ids, id);
    if ids.contains(other) {
        let k = choose|k: int| 0 <= k < ids.len() && ids[k] == other;
        assert(after[k] == other);
    }
    if !ids.contains(id) {
        assert(after[ids.len() as int] == id);
        if after.contains(other) && other != id {
            let k = choose|k: int| 0 <= k < after.len() && after[k] == other;
            assert(ids[k] == other);
        }
    }
}

/// The number of slots, among the first `n`, that hold a group and in which the pipeline expects one.
pub open spec fn used_slots(slots: Seq<SlotLayouts>, n: nat) -> nat
    decreases n,
{
    if n == 0 {
        0
    } else {
        used_slots(slots, (n - 1) as nat) + if slots[n - 1].assigned is Some
            && slots[n - 1].expected is Some {
            1nat
        } else {
            0nat
        }
    }
}

proof fn lemma_groups_in_use(binder: BinderView, n: nat, i: int)
    requires
        n <= binder.slots.len(),
    ensures
        binder.active_groups(n).len() == used_slots(binder.slots, n),
        0 <= i < n && binder.slots[i].assigned is Some && binder.slots[i].expected is Some ==> {
            &&& used_slots(binder.slots, i as nat) < used_slots(binder.slots, n)
            &&& binder.active_groups(n)[used_slots(binder.slots, i as nat) as int]
                == binder.payloads[i].group->0
        },
    decreases n,
{
    if n > 0 {
        lemma_groups_in_use(binder, (n - 1) as nat, i);
        if i == n - 1 {
            lemma_groups_in_use(binder, (n - 1) as nat, 0);
        }
    }
}

/// The groups whose uses a dispatch looks at are those of all slots that hold a group and in which the pipeline
/// expects one, in the order of the slots, and no others.
pub proof fn all_groups_in_use_are_looked_at(binder: BinderView, i: int)
    requires
        binder.wf(),
        0 <= i < 8,
    ensures
        binder.active_groups(8).len() == used_slots(binder.slots, 8),
        binder.slots[i].assigned is Some && binder.slots[i].expected is Some ==> (
        binder.payloads[i].group matches Some(group) && binder.active_groups(8)[used_slots(
            binder.slots,
            i as nat,
        ) as int] == group),
{
    lemma_groups_in_use(binder, 8, i);
    assert(binder.slots[i].assigned is Some ==> binder.payloads[i].group is Some);
}

} // verus!
