//! What merging, moving and setting do to the use of a single slot.
use crate::id::TrackerIndex;
use crate::track;
use crate::track::{ResourceKind, ResourceUse, TrackedUse, UsageTrackerView};
use vstd::prelude::*;

verus! {

/// The use that a list of uses says of a slot.
pub open spec fn use_of(uses: Seq<ResourceUse>, slot: TrackerIndex) -> Option<u16> {
    match track::find_use(uses, slot) {
        Some(k) => Some(uses[k].uses),
        None => None,
    }
}

/// No slot is named twice.
pub open spec fn is_distinct(uses: Seq<ResourceUse>) -> bool {
    forall|i: int, j: int|
        0 <= i < j < uses.len() ==> (#[trigger] uses[i]).index != (#[trigger] uses[j]).index
}

/// The list says of the slot at least what `wanted` says.
pub open spec fn covers(uses: Seq<ResourceUse>, wanted: ResourceUse) -> bool {
    match use_of(uses, wanted.index) {
        Some(bits) => bits & wanted.uses == wanted.uses,
        None => false,
    }
}

proof fn lemma_use_of_at(uses: Seq<ResourceUse>, k: int)
    requires
        is_distinct(uses),
        0 <= k < uses.len(),
    ensures
        track::find_use(uses, uses[k].index) == Some(k),
{
    track::lemma_use_position(uses, uses[k].index, uses.len());
}

pub(crate) proof fn lemma_use_of_none(uses: Seq<ResourceUse>, slot: TrackerIndex)
    requires
        forall|i: int| 0 <= i < uses.len() ==> (#[trigger] uses[i]).index != slot,
    ensures
        use_of(uses, slot) is None,
{
    track::lemma_use_position(uses, slot, uses.len());
}

proof fn lemma_use_of_push(uses: Seq<ResourceUse>, new: ResourceUse, slot: TrackerIndex)
    requires
        is_distinct(uses),
        use_of(uses, new.index) is None,
    ensures
        is_distinct(uses.push(new)),
        use_of(uses.push(new), slot) == if slot == new.index {
            Some(new.uses)
        } else {
            use_of(uses, slot)
        },
{
    let after = uses.push(new);
    track::lemma_use_position(uses, new.index, uses.len());
    track::lemma_use_position(uses, slot, uses.len());
    assert(is_distinct(after));
    if slot == new.index {
        lemma_use_of_at(after, uses.len() as int);
    } else if let Some(k) = track::find_use(uses, slot) {
        assert(after[k] == uses[k]);
        lemma_use_of_at(after, k);
    } else {
        lemma_use_of_none(after, slot);
    }
}

proof fn lemma_use_of_update(uses: Seq<ResourceUse>, k: int, bits: u16, slot: TrackerIndex)
    requires
        is_distinct(uses),
        0 <= k < uses.len(),
    ensures
        is_distinct(uses.update(k, ResourceUse { uses: bits, ..uses[k] })),
        use_of(uses.update(k, ResourceUse { uses: bits, ..uses[k] }), slot) == if slot
            == uses[k].index {
            Some(bits)
        } else {
            use_of(uses, slot)
        },
{
    let after = uses.update(k, ResourceUse { uses: bits, ..uses[k] });
    assert forall|i: int| 0 <= i < uses.len() implies after[i].index == (
    #[trigger] uses[i]).index by {}
    assert(is_distinct(after));
    track::lemma_use_position(uses, slot, uses.len());
    if slot == uses[k].index {
        lemma_use_of_at(after, k);
    } else if let Some(j) = track::find_use(uses, slot) {
        assert(after[j] == uses[j]);
        lemma_use_of_at(after, j);
    } else {
        lemma_use_of_none(after, slot);
    }
}

proof fn lemma_use_of_remove(uses: Seq<ResourceUse>, k: int, slot: TrackerIndex)
    requires
        is_distinct(uses),
        0 <= k < uses.len(),
    ensures
        is_distinct(uses.remove(k)),
        use_of(uses.remove(k), slot) == if slot == uses[k].index {
            None
        } else {
            use_of(uses, slot)
        },
{
    let after = uses.remove(k);
    assert forall|i: int| 0 <= i < after.len() implies #[trigger] after[i] == uses[if i < k {
        i
    } else {
        i + 1
    }] by {}
    assert(is_distinct(after));
    track::lemma_use_position(uses, slot, uses.len());
    if slot == uses[k].index {
        lemma_use_of_none(after, slot);
    } else if let Some(j) = track::find_use(uses, slot) {
        if j < k {
            assert(after[j] == uses[j]);
            lemma_use_of_at(after, j);
        } else {
            assert(after[j - 1] == uses[j]);
            lemma_use_of_at(after, j - 1);
        }
    } else {
        lemma_use_of_none(after, slot);
    }
}

/// The scope names no slot twice, and no exclusive use in it has company.
pub open spec fn is_sound(kind: ResourceKind, uses: Seq<ResourceUse>) -> bool {
    is_distinct(uses) && is_clean(kind, uses)
}

/// No use is in conflict with itself.
pub open spec fn is_clean(kind: ResourceKind, uses: Seq<ResourceUse>) -> bool {
    forall|i: int|
        0 <= i < uses.len() ==> !track::is_conflicting(kind, (#[trigger] uses[i]).uses)
}

/// A use that was added to a scope is in it, and none that was in it is lost. A sound scope stays
/// sound, whatever is added to it that is not in conflict with itself.
pub proof fn merging_widens(uses: Seq<ResourceUse>, kind: ResourceKind, new: ResourceUse)
    requires
        is_distinct(uses),
    ensures
        track::merge_use(uses, kind, new) matches Ok(after) ==> {
            &&& is_distinct(after)
            &&& covers(after, new)
            &&& forall|other: ResourceUse| covers(uses, other) ==> #[trigger] covers(after, other)
            &&& forall|slot: TrackerIndex|
                slot != new.index ==> #[trigger] use_of(after, slot) == use_of(uses, slot)
            &&& is_sound(kind, uses) && !track::is_conflicting(kind, new.uses) ==> is_sound(
                kind,
                after,
            )
        },
{
    let bits = new.uses;
    assert(bits & bits == bits) by (bit_vector);
    if let Ok(after) = track::merge_use(uses, kind, new) {
        track::lemma_use_position(uses, new.index, uses.len());
        match track::find_use(uses, new.index) {
            None => {
                lemma_use_of_push(uses, new, new.index);
                assert forall|slot: TrackerIndex| slot != new.index implies #[trigger] use_of(
                    after,
                    slot,
                ) == use_of(uses, slot) by {
                    lemma_use_of_push(uses, new, slot);
                }
                assert forall|other: ResourceUse| covers(uses, other) implies #[trigger] covers(
                    after,
                    other,
                ) by {
                    lemma_use_of_push(uses, new, other.index);
                }
            },
            Some(k) => {
                let old_bits = uses[k].uses;
                let merged = old_bits | bits;
                lemma_use_of_update(uses, k, merged, new.index);
                assert((old_bits | bits) & bits == bits) by (bit_vector);
                assert forall|slot: TrackerIndex| slot != new.index implies #[trigger] use_of(
                    after,
                    slot,
                ) == use_of(uses, slot) by {
                    lemma_use_of_update(uses, k, merged, slot);
                }
                assert forall|other: ResourceUse| covers(uses, other) implies #[trigger] covers(
                    after,
                    other,
                ) by {
                    lemma_use_of_update(uses, k, merged, other.index);
                    let wanted = other.uses;
                    assert(old_bits & wanted == wanted ==> (old_bits | bits) & wanted == wanted)
                        by (bit_vector);
                }
            },
        }
        if is_sound(kind, uses) && !track::is_conflicting(kind, new.uses) {
            assert forall|i: int| 0 <= i < after.len() implies !track::is_conflicting(
                kind,
                (#[trigger] after[i]).uses,
            ) by {
                if i < uses.len() {
                    assert(!track::is_conflicting(kind, uses[i].uses));
                }
            }
        }
    }
}

/// The two uses are of one slot, and an exclusive use would have company.
pub open spec fn clash(kind: ResourceKind, one: ResourceUse, other: ResourceUse) -> bool {
    one.index == other.index && track::is_conflicting(kind, one.uses | other.uses)
}

/// A use is not added to a scope that holds one with which it clashes.
pub proof fn clashing_uses_are_not_merged(
    uses: Seq<ResourceUse>,
    kind: ResourceKind,
    earlier: ResourceUse,
    new: ResourceUse,
)
    requires
        covers(uses, earlier),
        clash(kind, earlier, new),
    ensures
        track::merge_use(uses, kind, new) is Err,
{
    let k = track::find_use(uses, new.index)->0;
    let wide = uses[k].uses;
    let narrow = earlier.uses;
    let bits = new.uses;
    let exclusive = track::exclusive_uses(kind);
    assert(((narrow | bits) & exclusive != 0 && !((narrow | bits) != 0 && (narrow | bits) & (((
    narrow | bits) - 1) as u16) == 0)) ==> ((wide | bits) & exclusive != 0 && !((wide | bits) != 0
        && (wide | bits) & (((wide | bits) - 1) as u16) == 0))) by (bit_vector)
        requires
            wide & narrow == narrow,
    ;
}

pub(crate) proof fn lemma_merged_without_clash(
    uses: Seq<ResourceUse>,
    kind: ResourceKind,
    added: Seq<ResourceUse>,
    n: nat,
)
    requires
        n <= added.len(),
        is_distinct(uses),
        track::merge_uses(uses, kind, added, n).1 is None,
    ensures
        forall|earlier: ResourceUse, j: int|
            covers(uses, earlier) && 0 <= j < n ==> !(#[trigger] clash(kind, earlier, added[j])),
        forall|i: int, j: int|
            0 <= i < j < n ==> !(#[trigger] clash(kind, added[i], added[j])),
    decreases n,
{
    if n > 0 {
        let before = track::merge_uses(uses, kind, added, (n - 1) as nat).0;
        lemma_merged_without_clash(uses, kind, added, (n - 1) as nat);
        lemma_merge_all(uses, kind, added, (n - 1) as nat);
        assert forall|earlier: ResourceUse, j: int|
            covers(uses, earlier) && 0 <= j < n implies !(#[trigger] clash(
            kind,
            earlier,
            added[j],
        )) by {
            assert(covers(before, earlier));
            if j == n - 1 && clash(kind, earlier, added[j]) {
                clashing_uses_are_not_merged(before, kind, earlier, added[j]);
            }
        }
        assert forall|i: int, j: int| 0 <= i < j < n implies !(#[trigger] clash(
            kind,
            added[i],
            added[j],
        )) by {
            if j == n - 1 && clash(kind, added[i], added[j]) {
                clashing_uses_are_not_merged(before, kind, added[i], added[j]);
            }
        }
    }
}

/// No use in the list clashes with one before it.
pub open spec fn is_free_of_clashes(kind: ResourceKind, uses: Seq<ResourceUse>) -> bool {
    forall|i: int, j: int|
        0 <= i < j < uses.len() ==> !(#[trigger] clash(kind, uses[i], uses[j]))
}

/// A use in the list is of the slot.
spec fn names(past: Seq<ResourceUse>, slot: TrackerIndex) -> bool {
    exists|k: int| 0 <= k < past.len() && (#[trigger] past[k]).index == slot
}

/// No use of the slot in the list has anything to do with some bits.
spec fn avoids(past: Seq<ResourceUse>, slot: TrackerIndex, bits: u16) -> bool {
    forall|k: int|
        0 <= k < past.len() && (#[trigger] past[k]).index == slot ==> past[k].uses & bits == 0
}

/// The scope holds nothing but what the uses in the list have put into it.
pub closed spec fn stems_from(uses: Seq<ResourceUse>, past: Seq<ResourceUse>) -> bool {
    &&& is_distinct(uses)
    &&& forall|slot: TrackerIndex|
        (#[trigger] use_of(uses, slot)) is Some ==> names(past, slot)
    &&& forall|slot: TrackerIndex, bits: u16|
        #[trigger] avoids(past, slot, bits) && use_of(uses, slot) is Some ==> use_of(uses, slot)->0
            & bits == 0
}

pub(crate) proof fn lemma_nothing_stems(uses: Seq<ResourceUse>)
    requires
        uses.len() == 0,
    ensures
        stems_from(uses, Seq::empty()),
{
    assert forall|slot: TrackerIndex| (#[trigger] use_of(uses, slot)) is None by {
        lemma_use_of_none(uses, slot);
    }
}

/// Where an exclusive use has no company, the other use is part of it.
proof fn lemma_without_company(kind: ResourceKind, one: u16, other: u16)
    requires
        one & track::exclusive_uses(kind) != 0,
        !track::is_conflicting(kind, one | other),
    ensures
        other & !one == 0,
        track::is_single_use(one),
{
    let exclusive = track::exclusive_uses(kind);
    assert(other & !one == 0 && one != 0 && one & ((one - 1) as u16) == 0) by (bit_vector)
        requires
            one & exclusive != 0,
            !((one | other) & exclusive != 0 && !((one | other) != 0 && (one | other) & (((one
                | other) - 1) as u16) == 0)),
    ;
}

/// What is part of a single use is in no conflict.
proof fn lemma_part_of_single(kind: ResourceKind, whole: u16, wide: u16, bits: u16)
    requires
        track::is_single_use(whole),
        wide & !whole == 0,
        bits & !whole == 0,
    ensures
        !track::is_conflicting(kind, wide | bits),
{
    let exclusive = track::exclusive_uses(kind);
    assert(!((wide | bits) & exclusive != 0 && !((wide | bits) != 0 && (wide | bits) & (((wide
        | bits) - 1) as u16) == 0))) by (bit_vector)
        requires
            whole != 0 && whole & ((whole - 1) as u16) == 0,
            wide & !whole == 0,
            bits & !whole == 0,
    ;
}

proof fn lemma_no_clash_no_conflict(
    uses: Seq<ResourceUse>,
    kind: ResourceKind,
    past: Seq<ResourceUse>,
    new: ResourceUse,
)
    requires
        stems_from(uses, past),
        is_free_of_clashes(kind, past.push(new)),
        use_of(uses, new.index) is Some,
    ensures
        !track::is_conflicting(kind, use_of(uses, new.index)->0 | new.uses),
{
    let slot = new.index;
    let wide = use_of(uses, slot)->0;
    let bits = new.uses;
    let exclusive = track::exclusive_uses(kind);
    let all = past.push(new);
    let n = past.len() as int;
    assert(names(past, slot));
    assert forall|k: int| 0 <= k < n && (#[trigger] past[k]).index == slot implies
        !track::is_conflicting(kind, past[k].uses | bits) by {
        assert(!clash(kind, all[k], all[n]));
    }
    if bits & exclusive != 0 {
        assert forall|k: int| 0 <= k < n && (#[trigger] past[k]).index == slot implies past[k].uses
            & !bits == 0 by {
            let earlier = past[k].uses;
            assert(earlier | bits == bits | earlier) by (bit_vector);
            lemma_without_company(kind, bits, earlier);
        }
        assert(avoids(past, slot, !bits));
        let first = choose|k: int| 0 <= k < past.len() && (#[trigger] past[k]).index == slot;
        let earlier = past[first].uses;
        assert(earlier | bits == bits | earlier) by (bit_vector);
        lemma_without_company(kind, bits, earlier);
        assert(bits & !bits == 0) by (bit_vector);
        lemma_part_of_single(kind, bits, wide, bits);
    } else if avoids(past, slot, exclusive) {
        assert((wide | bits) & exclusive == 0) by (bit_vector)
            requires
                wide & exclusive == 0,
                bits & exclusive == 0,
        ;
    } else {
        let k = choose|k: int|
            0 <= k < past.len() && (#[trigger] past[k]).index == slot && past[k].uses & exclusive
                != 0;
        let whole = past[k].uses;
        lemma_without_company(kind, whole, bits);
        assert forall|j: int| 0 <= j < n && (#[trigger] past[j]).index == slot implies past[j].uses
            & !whole == 0 by {
            let other = past[j].uses;
            if j == k {
                assert(whole & !whole == 0) by (bit_vector);
            } else {
                if j < k {
                    assert(!clash(kind, all[j], all[k]));
                } else {
                    assert(!clash(kind, all[k], all[j]));
                }
                assert(other | whole == whole | other) by (bit_vector);
                lemma_without_company(kind, whole, other);
            }
        }
        assert(avoids(past, slot, !whole));
        lemma_part_of_single(kind, whole, wide, bits);
    }
}

proof fn lemma_stems_further(
    uses: Seq<ResourceUse>,
    kind: ResourceKind,
    past: Seq<ResourceUse>,
    new: ResourceUse,
)
    requires
        stems_from(uses, past),
    ensures
        track::merge_use(uses, kind, new) matches Ok(after) ==> stems_from(after, past.push(new)),
{
    let all = past.push(new);
    let n = past.len() as int;
    track::lemma_use_position(uses, new.index, uses.len());
    if let Ok(after) = track::merge_use(uses, kind, new) {
        merging_widens(uses, kind, new);
        match track::find_use(uses, new.index) {
            None => {
                lemma_use_of_push(uses, new, new.index);
            },
            Some(k) => {
                lemma_use_of_update(uses, k, uses[k].uses | new.uses, new.index);
            },
        }
        assert forall|slot: TrackerIndex| (#[trigger] use_of(after, slot)) is Some implies names(
            all,
            slot,
        ) by {
            if slot == new.index {
                assert(all[n].index == slot);
            } else {
                assert(use_of(after, slot) == use_of(uses, slot));
                let k = choose|k: int| 0 <= k < past.len() && (#[trigger] past[k]).index == slot;
                assert(all[k].index == slot);
            }
        }
        assert forall|slot: TrackerIndex, bits: u16| #[trigger] avoids(all, slot, bits) && use_of(
            after,
            slot,
        ) is Some implies use_of(after, slot)->0 & bits == 0 by {
            assert forall|k: int| 0 <= k < n && (#[trigger] past[k]).index == slot implies
                past[k].uses & bits == 0 by {
                assert(all[k] == past[k]);
            }
            assert(avoids(past, slot, bits));
            if slot == new.index {
                assert(all[n].uses & bits == 0);
                if let Some(wide) = use_of(uses, slot) {
                    let more = new.uses;
                    assert((wide | more) & bits == 0) by (bit_vector)
                        requires
                            wide & bits == 0,
                            more & bits == 0,
                    ;
                }
            } else {
                assert(use_of(after, slot) == use_of(uses, slot));
            }
        }
    }
}

/// A list of uses that is free of clashes, together with what the scope stems from, can be merged.
pub(crate) proof fn lemma_free_uses_merge(
    uses: Seq<ResourceUse>,
    kind: ResourceKind,
    past: Seq<ResourceUse>,
    added: Seq<ResourceUse>,
    n: nat,
)
    requires
        n <= added.len(),
        stems_from(uses, past),
        is_free_of_clashes(kind, past + added.take(n as int)),
    ensures
        track::merge_uses(uses, kind, added, n).1 is None,
        stems_from(track::merge_uses(uses, kind, added, n).0, past + added.take(n as int)),
    decreases n,
{
    let all = past + added.take(n as int);
    if n == 0 {
        assert(all =~= past);
    } else {
        let fewer = past + added.take(n - 1);
        let new = added[n - 1];
        assert(all =~= fewer.push(new));
        assert forall|i: int, j: int| 0 <= i < j < fewer.len() implies !(#[trigger] clash(
            kind,
            fewer[i],
            fewer[j],
        )) by {
            assert(!clash(kind, all[i], all[j]));
        }
        lemma_free_uses_merge(uses, kind, past, added, (n - 1) as nat);
        let before = track::merge_uses(uses, kind, added, (n - 1) as nat).0;
        track::lemma_use_position(before, new.index, before.len());
        if use_of(before, new.index) is Some {
            lemma_no_clash_no_conflict(before, kind, fewer, new);
        }
        lemma_stems_further(before, kind, fewer, new);
    }
}

pub(crate) proof fn lemma_merge_all(
    uses: Seq<ResourceUse>,
    kind: ResourceKind,
    added: Seq<ResourceUse>,
    n: nat,
)
    requires
        n <= added.len(),
        is_distinct(uses),
    ensures
        is_distinct(track::merge_uses(uses, kind, added, n).0),
        forall|other: ResourceUse|
            covers(uses, other) ==> #[trigger] covers(
                track::merge_uses(uses, kind, added, n).0,
                other,
            ),
        track::merge_uses(uses, kind, added, n).1 is None ==> forall|i: int|
            0 <= i < n ==> covers(
                track::merge_uses(uses, kind, added, n).0,
                #[trigger] added[i],
            ),
        forall|slot: TrackerIndex|
            use_of(uses, slot) is None && (forall|i: int|
                0 <= i < n ==> (#[trigger] added[i]).index != slot) ==> (#[trigger] use_of(
                track::merge_uses(uses, kind, added, n).0,
                slot,
            )) is None,
        is_sound(kind, uses) && is_clean(kind, added) ==> is_sound(
            kind,
            track::merge_uses(uses, kind, added, n).0,
        ),
    decreases n,
{
    if n > 0 {
        lemma_merge_all(uses, kind, added, (n - 1) as nat);
        let (before, conflict) = track::merge_uses(uses, kind, added, (n - 1) as nat);
        if conflict is None {
            merging_widens(before, kind, added[n - 1]);
            let after = track::merge_uses(uses, kind, added, n).0;
            assert forall|slot: TrackerIndex|
                use_of(uses, slot) is None && (forall|i: int|
                    0 <= i < n ==> (#[trigger] added[i]).index != slot) implies (
            #[trigger] use_of(after, slot)) is None by {
                assert(added[n - 1].index != slot);
                assert(use_of(before, slot) is None);
            }
        }
    }
}

/// The first use that a tracker has seen of a slot.
pub open spec fn first_use(uses: Seq<TrackedUse>, slot: TrackerIndex) -> Option<u16> {
    match track::find_tracked(uses, slot) {
        Some(k) => Some(uses[k].start),
        None => None,
    }
}

/// The last use that a tracker has seen of a slot.
pub open spec fn last_use(uses: Seq<TrackedUse>, slot: TrackerIndex) -> Option<u16> {
    match track::find_tracked(uses, slot) {
        Some(k) => Some(uses[k].end),
        None => None,
    }
}

pub(crate) proof fn lemma_tracked_position(uses: Seq<TrackedUse>, slot: TrackerIndex, n: nat)
    requires
        n <= uses.len(),
    ensures
        match track::tracked_position(uses, slot, n) {
            Some(k) => 0 <= k < n && uses[k].index == slot && forall|j: int|
                0 <= j < k ==> (#[trigger] uses[j]).index != slot,
            None => forall|j: int| 0 <= j < n ==> (#[trigger] uses[j]).index != slot,
        },
    decreases n,
{
    if n > 0 {
        lemma_tracked_position(uses, slot, (n - 1) as nat);
    }
}

proof fn lemma_tracked_position_is(uses: Seq<TrackedUse>, slot: TrackerIndex, k: int)
    requires
        0 <= k < uses.len(),
        uses[k].index == slot,
        forall|j: int| 0 <= j < k ==> (#[trigger] uses[j]).index != slot,
    ensures
        track::find_tracked(uses, slot) == Some(k),
{
    lemma_tracked_position(uses, slot, uses.len());
}

/// Setting the use of a slot changes nothing about other slots. The first use of a slot never changes.
pub(crate) proof fn lemma_set_uses(
    tracker: UsageTrackerView,
    kind: ResourceKind,
    index: TrackerIndex,
    start: u16,
    end: u16,
    slot: TrackerIndex,
)
    ensures
        last_use(tracker.set(kind, index, start, end).uses, slot) == if slot == index {
            Some(end)
        } else {
            last_use(tracker.uses, slot)
        },
        first_use(tracker.set(kind, index, start, end).uses, slot) == if slot == index && first_use(
            tracker.uses,
            slot,
        ) is None {
            Some(start)
        } else {
            first_use(tracker.uses, slot)
        },
{
    let uses = tracker.uses;
    let after = tracker.set(kind, index, start, end).uses;
    lemma_tracked_position(uses, index, uses.len());
    lemma_tracked_position(uses, slot, uses.len());
    lemma_tracked_position(after, slot, after.len());
    match track::find_tracked(uses, index) {
        None => {
            if slot == index {
                assert(after[uses.len() as int].index == slot);
                assert forall|j: int| 0 <= j < uses.len() implies (
                #[trigger] after[j]).index != slot by {
                    assert(after[j] == uses[j]);
                }
                lemma_tracked_position_is(after, slot, uses.len() as int);
            } else if let Some(k) = track::find_tracked(uses, slot) {
                assert(after[k] == uses[k]);
                assert forall|j: int| 0 <= j < k implies (#[trigger] after[j]).index != slot by {
                    assert(after[j] == uses[j]);
                }
                lemma_tracked_position_is(after, slot, k);
            }
        },
        Some(k) => {
            assert forall|j: int| 0 <= j < uses.len() implies (#[trigger] after[j]).index
                == uses[j].index by {}
            if let Some(m) = track::find_tracked(uses, slot) {
                assert(after[m].index == slot);
                lemma_tracked_position_is(after, slot, m);
            }
        },
    }
}

/// The tracker has taken over the use that a scope has of a slot, where the scope has one.
pub open spec fn is_moved(
    before: UsageTrackerView,
    scope: Seq<ResourceUse>,
    after: UsageTrackerView,
    left: Seq<ResourceUse>,
    slot: TrackerIndex,
) -> bool {
    ||| use_of(left, slot) == use_of(scope, slot) && last_use(after.uses, slot) == last_use(
        before.uses,
        slot,
    )
    ||| use_of(left, slot) is None && use_of(scope, slot) is Some && last_use(after.uses, slot)
        == use_of(scope, slot)
}

pub(crate) proof fn lemma_take_moves(
    tracker: UsageTrackerView,
    kind: ResourceKind,
    scope: Seq<ResourceUse>,
    slots: Seq<TrackerIndex>,
    n: nat,
)
    requires
        n <= slots.len(),
        is_distinct(scope),
    ensures
        is_distinct(tracker.take_from_scope(kind, scope, slots, n).1),
        forall|i: int|
            0 <= i < n ==> use_of(
                tracker.take_from_scope(kind, scope, slots, n).1,
                #[trigger] slots[i],
            ) is None,
        forall|slot: TrackerIndex| #[trigger]
            is_moved(
                tracker,
                scope,
                tracker.take_from_scope(kind, scope, slots, n).0,
                tracker.take_from_scope(kind, scope, slots, n).1,
                slot,
            ),
    decreases n,
{
    if n > 0 {
        lemma_take_moves(tracker, kind, scope, slots, (n - 1) as nat);
        let (before, left) = tracker.take_from_scope(kind, scope, slots, (n - 1) as nat);
        let (after, rest) = tracker.take_from_scope(kind, scope, slots, n);
        let index = slots[n - 1];
        track::lemma_use_position(left, index, left.len());
        if let Some(k) = track::find_use(left, index) {
            lemma_use_of_remove(left, k, index);
            assert forall|i: int| 0 <= i < n implies use_of(rest, #[trigger] slots[i]) is None by {
                lemma_use_of_remove(left, k, slots[i]);
            }
            assert forall|slot: TrackerIndex| #[trigger] is_moved(
                tracker,
                scope,
                after,
                rest,
                slot,
            ) by {
                assert(is_moved(tracker, scope, before, left, slot));
                lemma_use_of_remove(left, k, slot);
                lemma_set_uses(before, kind, index, left[k].uses, left[k].uses, slot);
            }
        }
    }
}

/// No slot is tracked twice.
pub open spec fn is_single(uses: Seq<TrackedUse>) -> bool {
    forall|i: int, j: int|
        0 <= i < j < uses.len() ==> (#[trigger] uses[i]).index != (#[trigger] uses[j]).index
}

proof fn lemma_set_single(
    tracker: UsageTrackerView,
    kind: ResourceKind,
    index: TrackerIndex,
    start: u16,
    end: u16,
)
    requires
        is_single(tracker.uses),
    ensures
        is_single(tracker.set(kind, index, start, end).uses),
{
    lemma_tracked_position(tracker.uses, index, tracker.uses.len());
    let after = tracker.set(kind, index, start, end).uses;
    assert forall|i: int| 0 <= i < tracker.uses.len() implies (#[trigger] after[i]).index
        == tracker.uses[i].index by {}
}

pub(crate) proof fn lemma_take_single(
    tracker: UsageTrackerView,
    kind: ResourceKind,
    scope: Seq<ResourceUse>,
    slots: Seq<TrackerIndex>,
    n: nat,
)
    requires
        is_single(tracker.uses),
    ensures
        is_single(tracker.take_from_scope(kind, scope, slots, n).0.uses),
    decreases n,
{
    if n > 0 {
        lemma_take_single(tracker, kind, scope, slots, (n - 1) as nat);
        let (before, left) = tracker.take_from_scope(kind, scope, slots, (n - 1) as nat);
        if let Some(k) = track::find_use(left, slots[n - 1]) {
            lemma_set_single(before, kind, slots[n - 1], left[k].uses, left[k].uses);
        }
    }
}

} // verus!
