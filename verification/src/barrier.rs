//! Each dispatch finds the resources of the groups that are bound in the state that their uses need.
use crate::bind::BinderView;
use crate::binding;
use crate::command::ArcComputeCommand;
use crate::error::PassErrorScope;
use crate::id::TrackerIndex;
use crate::raw::RawView;
use crate::rehearsal;
use crate::resource::{BindGroup, Buffer};
use crate::run::{PassEnv, RecordingView, RunView, Step};
use crate::state;
use crate::state::{Flush, FlushView, Merge};
use crate::storage::Storage;
use crate::track;
use crate::track::{
    ResourceKind, ResourceUse, ScopeView, TrackedUse, TrackerView, Transition, UsageTrackerView,
};
use crate::types::{BufferAddress, MAX_BIND_GROUPS};
use crate::usage;
use crate::warrant;
use std::sync::Arc;
use vstd::prelude::*;

verus! {

/// The state of a slot after the first `n` of some transitions.
pub open spec fn moved(list: Seq<Transition>, slot: TrackerIndex, state: u16, n: nat) -> u16
    decreases n,
{
    if n == 0 {
        state
    } else if list[n - 1].index == slot {
        list[n - 1].to
    } else {
        moved(list, slot, state, (n - 1) as nat)
    }
}

/// The transitions of slots of one kind that a call asks for.
pub open spec fn transitions_of(kind: ResourceKind, call: RawView) -> Seq<Transition> {
    match (kind, call) {
        (ResourceKind::Buffer, RawView::TransitionBuffers(list)) => list,
        (ResourceKind::Texture, RawView::TransitionTextures(list)) => list,
        _ => Seq::empty(),
    }
}

/// The state of a slot after the calls `from..n`, given the state before them.
pub open spec fn state_after(
    kind: ResourceKind,
    calls: Seq<RawView>,
    slot: TrackerIndex,
    state: u16,
    from: nat,
    n: nat,
) -> u16
    decreases n,
{
    if n <= from {
        state
    } else {
        let list = transitions_of(kind, calls[n - 1]);
        moved(
            list,
            slot,
            state_after(kind, calls, slot, state, from, (n - 1) as nat),
            list.len(),
        )
    }
}

proof fn lemma_moved_prefix(
    list: Seq<Transition>,
    more: Seq<Transition>,
    slot: TrackerIndex,
    state: u16,
    n: nat,
)
    requires
        n <= list.len() <= more.len(),
        forall|i: int| 0 <= i < list.len() ==> #[trigger] more[i] == list[i],
    ensures
        moved(more, slot, state, n) == moved(list, slot, state, n),
    decreases n,
{
    if n > 0 {
        lemma_moved_prefix(list, more, slot, state, (n - 1) as nat);
        assert(more[n - 1] == list[n - 1]);
    }
}

proof fn lemma_state_extends(
    kind: ResourceKind,
    before: Seq<RawView>,
    after: Seq<RawView>,
    slot: TrackerIndex,
    state: u16,
    from: nat,
    n: nat,
)
    requires
        warrant::extends(before, after),
        n <= before.len(),
    ensures
        state_after(kind, after, slot, state, from, n) == state_after(
            kind,
            before,
            slot,
            state,
            from,
            n,
        ),
    decreases n,
{
    if n > from {
        lemma_state_extends(kind, before, after, slot, state, from, (n - 1) as nat);
        assert(after[n - 1] == before[n - 1]);
    }
}

/// The state of a slot after all calls from `from` on, and the transitions that are still to be asked
/// for.
pub open spec fn state_now(
    kind: ResourceKind,
    calls: Seq<RawView>,
    pending: Seq<Transition>,
    slot: TrackerIndex,
    state: u16,
    from: nat,
) -> u16 {
    moved(
        pending,
        slot,
        state_after(kind, calls, slot, state, from, calls.len()),
        pending.len(),
    )
}

/// The calls and the tracker agree on a slot: they take it from its first use to its last one, and do
/// not touch it where the tracker has not seen it.
pub open spec fn is_settled_at(
    kind: ResourceKind,
    tracker: UsageTrackerView,
    calls: Seq<RawView>,
    from: nat,
    slot: TrackerIndex,
) -> bool {
    match usage::first_use(tracker.uses, slot) {
        Some(first) => usage::last_use(tracker.uses, slot) == Some(
            state_now(kind, calls, tracker.pending, slot, first, from),
        ),
        None => forall|state: u16| #[trigger]
            state_now(kind, calls, tracker.pending, slot, state, from) == state,
    }
}

/// The calls and the tracker agree on all slots.
pub open spec fn is_settled(
    kind: ResourceKind,
    tracker: UsageTrackerView,
    calls: Seq<RawView>,
    from: nat,
) -> bool {
    forall|slot: TrackerIndex| #[trigger] is_settled_at(kind, tracker, calls, from, slot)
}

proof fn lemma_set_settled(
    tracker: UsageTrackerView,
    kind: ResourceKind,
    index: TrackerIndex,
    bits: u16,
    calls: Seq<RawView>,
    from: nat,
)
    requires
        is_settled(kind, tracker, calls, from),
    ensures
        is_settled(kind, tracker.set(kind, index, bits, bits), calls, from),
{
    let after = tracker.set(kind, index, bits, bits);
    assert forall|slot: TrackerIndex| #[trigger] is_settled_at(
        kind,
        after,
        calls,
        from,
        slot,
    ) by {
        assert(is_settled_at(kind, tracker, calls, from, slot));
        assert(is_settled_at(kind, tracker, calls, from, index));
        usage::lemma_set_uses(tracker, kind, index, bits, bits, slot);
        usage::lemma_set_uses(tracker, kind, index, bits, bits, index);
        assert forall|state: u16| slot != index implies #[trigger] state_now(
            kind,
            calls,
            after.pending,
            slot,
            state,
            from,
        ) == state_now(kind, calls, tracker.pending, slot, state, from) by {
            if after.pending != tracker.pending {
                lemma_moved_prefix(
                    tracker.pending,
                    after.pending,
                    slot,
                    state_after(kind, calls, slot, state, from, calls.len()),
                    tracker.pending.len(),
                );
            }
        }
        if slot == index {
            usage::lemma_tracked_position(tracker.uses, index, tracker.uses.len());
            if usage::first_use(tracker.uses, slot) is None {
                assert(after.pending == tracker.pending);
                assert(state_now(kind, calls, tracker.pending, slot, bits, from) == bits);
            }
        }
    }
}

proof fn lemma_take_settled(
    tracker: UsageTrackerView,
    kind: ResourceKind,
    scope: Seq<ResourceUse>,
    slots: Seq<TrackerIndex>,
    n: nat,
    calls: Seq<RawView>,
    from: nat,
)
    requires
        n <= slots.len(),
        is_settled(kind, tracker, calls, from),
    ensures
        is_settled(kind, tracker.take_from_scope(kind, scope, slots, n).0, calls, from),
    decreases n,
{
    if n > 0 {
        lemma_take_settled(tracker, kind, scope, slots, (n - 1) as nat, calls, from);
        let (before, left) = tracker.take_from_scope(kind, scope, slots, (n - 1) as nat);
        if let Some(k) = track::find_use(left, slots[n - 1]) {
            lemma_set_settled(before, kind, slots[n - 1], left[k].uses, calls, from);
        }
    }
}

/// The slots of one kind in a scope.
pub open spec fn scope_of(kind: ResourceKind, scope: ScopeView) -> Seq<ResourceUse> {
    match kind {
        ResourceKind::Buffer => scope.buffers,
        ResourceKind::Texture => scope.textures,
    }
}

/// The slots of one kind in some trackers.
pub open spec fn tracker_of(kind: ResourceKind, trackers: TrackerView) -> UsageTrackerView {
    match kind {
        ResourceKind::Buffer => trackers.buffers,
        ResourceKind::Texture => trackers.textures,
    }
}

/// The uses that a bind group makes of the slots of one kind.
pub open spec fn used_by(kind: ResourceKind, group: Arc<BindGroup>) -> Seq<ResourceUse> {
    match kind {
        ResourceKind::Buffer => group.used.buffers@,
        ResourceKind::Texture => group.used.textures@,
    }
}

/// The uses that group `i` makes of the slots of one kind.
pub open spec fn group_uses(
    kind: ResourceKind,
    groups: Seq<Arc<BindGroup>>,
    storage: Storage<BindGroup>,
    i: int,
) -> Seq<ResourceUse> {
    used_by(kind, storage.object(groups[i].id.0)->0)
}

/// One of the uses is one of the slot.
spec fn names(uses: Seq<ResourceUse>, slot: TrackerIndex) -> bool {
    exists|j: int| 0 <= j < uses.len() && (#[trigger] uses[j]).index == slot
}

/// One of the first `n` groups uses the slot.
spec fn any_names(
    kind: ResourceKind,
    groups: Seq<Arc<BindGroup>>,
    storage: Storage<BindGroup>,
    n: nat,
    slot: TrackerIndex,
) -> bool
    decreases n,
{
    n > 0 && (any_names(kind, groups, storage, (n - 1) as nat, slot) || names(
        group_uses(kind, groups, storage, n - 1),
        slot,
    ))
}

proof fn lemma_any_names(
    kind: ResourceKind,
    groups: Seq<Arc<BindGroup>>,
    storage: Storage<BindGroup>,
    n: nat,
    i: int,
    j: int,
)
    requires
        0 <= i < n <= groups.len(),
        0 <= j < group_uses(kind, groups, storage, i).len(),
    ensures
        any_names(
            kind,
            groups,
            storage,
            n,
            group_uses(kind, groups, storage, i)[j].index,
        ),
    decreases n,
{
    if i < n - 1 {
        lemma_any_names(kind, groups, storage, (n - 1) as nat, i, j);
    }
}

/// All uses of some groups are in a scope.
spec fn covers_groups(
    kind: ResourceKind,
    uses: Seq<ResourceUse>,
    groups: Seq<Arc<BindGroup>>,
    storage: Storage<BindGroup>,
    n: nat,
) -> bool {
    forall|i: int, j: int|
        0 <= i < n && 0 <= j < group_uses(kind, groups, storage, i).len() ==> usage::covers(
            uses,
            #[trigger] group_uses(kind, groups, storage, i)[j],
        )
}

/// No use of the first `n` groups is in conflict with itself.
pub open spec fn groups_are_clean(
    kind: ResourceKind,
    groups: Seq<Arc<BindGroup>>,
    storage: Storage<BindGroup>,
    n: nat,
) -> bool {
    forall|i: int|
        0 <= i < n ==> usage::is_clean(kind, #[trigger] group_uses(kind, groups, storage, i))
}

proof fn lemma_merge_bind_group(kind: ResourceKind, scope: ScopeView, group: Arc<BindGroup>)
    requires
        usage::is_distinct(scope.buffers),
        usage::is_distinct(scope.textures),
        scope.merge_bind_group(group.used).1 is None,
    ensures
        ({
            let after = scope_of(kind, scope.merge_bind_group(group.used).0);
            let used = used_by(kind, group);
            &&& usage::is_distinct(after)
            &&& forall|other: ResourceUse|
                usage::covers(scope_of(kind, scope), other) ==> #[trigger] usage::covers(after, other)
            &&& forall|j: int| 0 <= j < used.len() ==> usage::covers(after, #[trigger] used[j])
            &&& forall|slot: TrackerIndex|
                usage::use_of(scope_of(kind, scope), slot) is None && !names(used, slot) ==> (
                #[trigger] usage::use_of(after, slot)) is None
            &&& usage::is_sound(kind, scope_of(kind, scope)) && usage::is_clean(kind, used)
                ==> usage::is_sound(kind, after)
        }),
{
    let used = used_by(kind, group);
    usage::lemma_merge_all(scope_of(kind, scope), kind, used, used.len());
    let states = group.used;
    let after = scope_of(kind, scope.merge_bind_group(states).0);
    assert forall|slot: TrackerIndex|
        usage::use_of(scope_of(kind, scope), slot) is None && !names(used, slot) implies (
    #[trigger] usage::use_of(after, slot)) is None by {
        assert forall|j: int| 0 <= j < used.len() implies (#[trigger] used[j]).index != slot by {
            assert(!names(used, slot));
        }
    }
}

proof fn lemma_merge_groups(
    kind: ResourceKind,
    scope: ScopeView,
    groups: Seq<Arc<BindGroup>>,
    storage: Storage<BindGroup>,
    n: nat,
)
    requires
        n <= groups.len(),
        usage::is_distinct(scope.buffers),
        usage::is_distinct(scope.textures),
    ensures
        state::merge_groups(scope, groups, storage, n) matches Merge::Merged(after) ==> {
            &&& usage::is_distinct(after.buffers)
            &&& usage::is_distinct(after.textures)
            &&& covers_groups(kind, scope_of(kind, after), groups, storage, n)
            &&& forall|other: ResourceUse|
                usage::covers(scope_of(kind, scope), other) ==> #[trigger] usage::covers(
                    scope_of(kind, after),
                    other,
                )
            &&& forall|slot: TrackerIndex|
                usage::use_of(scope_of(kind, scope), slot) is None && !any_names(
                    kind,
                    groups,
                    storage,
                    n,
                    slot,
                ) ==> (#[trigger] usage::use_of(scope_of(kind, after), slot)) is None
            &&& usage::is_sound(kind, scope_of(kind, scope)) && groups_are_clean(
                kind,
                groups,
                storage,
                n,
            ) ==> usage::is_sound(kind, scope_of(kind, after))
        },
    decreases n,
{
    if n > 0 {
        lemma_merge_groups(kind, scope, groups, storage, (n - 1) as nat);
        if let Merge::Merged(before) = state::merge_groups(
            scope,
            groups,
            storage,
            (n - 1) as nat,
        ) {
            if let Merge::Merged(after) = state::merge_groups(scope, groups, storage, n) {
                let group = storage.object(groups[n - 1].id.0)->0;
                lemma_merge_bind_group(ResourceKind::Buffer, before, group);
                lemma_merge_bind_group(ResourceKind::Texture, before, group);
                lemma_merge_bind_group(kind, before, group);
                if groups_are_clean(kind, groups, storage, n) {
                    assert(usage::is_clean(kind, group_uses(kind, groups, storage, n - 1)));
                }
                assert forall|i: int, j: int|
                    0 <= i < n && 0 <= j < group_uses(kind, groups, storage, i).len() implies usage::covers(
                    scope_of(kind, after),
                    #[trigger] group_uses(kind, groups, storage, i)[j],
                ) by {
                    let wanted = group_uses(kind, groups, storage, i)[j];
                    if i < n - 1 {
                        assert(usage::covers(scope_of(kind, before), wanted));
                    }
                }
                assert forall|slot: TrackerIndex|
                    usage::use_of(scope_of(kind, scope), slot) is None && !any_names(
                        kind,
                        groups,
                        storage,
                        n,
                        slot,
                    ) implies (#[trigger] usage::use_of(scope_of(kind, after), slot)) is None by {
                    assert(usage::use_of(scope_of(kind, before), slot) is None);
                }
            }
        }
    }
}

/// Slots were moved from a scope into the trackers.
spec fn all_moved(
    kind: ResourceKind,
    before: FlushView,
    after: FlushView,
) -> bool {
    forall|slot: TrackerIndex| #[trigger]
        usage::is_moved(
            tracker_of(kind, before.trackers),
            scope_of(kind, before.scope),
            tracker_of(kind, after.trackers),
            scope_of(kind, after.scope),
            slot,
        )
}

proof fn lemma_take_groups(
    kind: ResourceKind,
    before: FlushView,
    groups: Seq<Arc<BindGroup>>,
    storage: Storage<BindGroup>,
    n: nat,
    from: nat,
)
    requires
        n <= groups.len(),
        usage::is_distinct(scope_of(kind, before.scope)),
        is_settled(kind, tracker_of(kind, before.trackers), before.raw, from),
    ensures
        ({
            let after = before.take_groups(groups, storage, n);
            &&& after.raw == before.raw
            &&& usage::is_distinct(scope_of(kind, after.scope))
            &&& is_settled(kind, tracker_of(kind, after.trackers), before.raw, from)
            &&& all_moved(kind, before, after)
            &&& forall|slot: TrackerIndex|
                any_names(kind, groups, storage, n, slot) ==> (#[trigger] usage::use_of(
                    scope_of(kind, after.scope),
                    slot,
                )) is None
        }),
    decreases n,
{
    let after = before.take_groups(groups, storage, n);
    if n > 0 {
        lemma_take_groups(kind, before, groups, storage, (n - 1) as nat, from);
        let mid = before.take_groups(groups, storage, (n - 1) as nat);
        let used = group_uses(kind, groups, storage, n - 1);
        let slots = track::slots_of(used);
        lemma_take_settled(
            tracker_of(kind, mid.trackers),
            kind,
            scope_of(kind, mid.scope),
            slots,
            used.len(),
            before.raw,
            from,
        );
        usage::lemma_take_moves(
            tracker_of(kind, mid.trackers),
            kind,
            scope_of(kind, mid.scope),
            slots,
            used.len(),
        );
        assert(all_moved(kind, mid, after));
        assert forall|slot: TrackerIndex| #[trigger] usage::is_moved(
            tracker_of(kind, before.trackers),
            scope_of(kind, before.scope),
            tracker_of(kind, after.trackers),
            scope_of(kind, after.scope),
            slot,
        ) by {
            assert(usage::is_moved(
                tracker_of(kind, before.trackers),
                scope_of(kind, before.scope),
                tracker_of(kind, mid.trackers),
                scope_of(kind, mid.scope),
                slot,
            ));
            assert(usage::is_moved(
                tracker_of(kind, mid.trackers),
                scope_of(kind, mid.scope),
                tracker_of(kind, after.trackers),
                scope_of(kind, after.scope),
                slot,
            ));
        }
        assert forall|slot: TrackerIndex|
            any_names(kind, groups, storage, n, slot) implies (#[trigger] usage::use_of(
            scope_of(kind, after.scope),
            slot,
        )) is None by {
            assert(usage::is_moved(
                tracker_of(kind, mid.trackers),
                scope_of(kind, mid.scope),
                tracker_of(kind, after.trackers),
                scope_of(kind, after.scope),
                slot,
            ));
            if names(used, slot) {
                let j = choose|j: int| 0 <= j < used.len() && (#[trigger] used[j]).index == slot;
                assert(slots[j] == slot);
            } else {
                assert(usage::use_of(scope_of(kind, mid.scope), slot) is None);
            }
        }
    }
}

proof fn lemma_take_buffer(
    kind: ResourceKind,
    before: FlushView,
    index: Option<TrackerIndex>,
    from: nat,
)
    requires
        usage::is_distinct(scope_of(kind, before.scope)),
        is_settled(kind, tracker_of(kind, before.trackers), before.raw, from),
    ensures
        ({
            let after = before.take_buffer(index);
            &&& after.raw == before.raw
            &&& is_settled(kind, tracker_of(kind, after.trackers), before.raw, from)
            &&& all_moved(kind, before, after)
            &&& kind == ResourceKind::Buffer && index is Some ==> usage::use_of(
                after.scope.buffers,
                index->0,
            ) is None
        }),
{
    if let Some(slot) = index {
        if kind == ResourceKind::Buffer {
            lemma_take_settled(
                before.trackers.buffers,
                ResourceKind::Buffer,
                before.scope.buffers,
                seq![slot],
                1,
                before.raw,
                from,
            );
            usage::lemma_take_moves(
                before.trackers.buffers,
                ResourceKind::Buffer,
                before.scope.buffers,
                seq![slot],
                1,
            );
            assert(seq![slot][0] == slot);
        }
    }
}

proof fn lemma_drain_settled(kind: ResourceKind, before: FlushView, from: nat)
    requires
        is_settled(kind, tracker_of(kind, before.trackers), before.raw, from),
        from <= before.raw.len(),
    ensures
        is_settled(
            kind,
            tracker_of(kind, before.drain_barriers().trackers),
            before.drain_barriers().raw,
            from,
        ),
        tracker_of(kind, before.drain_barriers().trackers).uses == tracker_of(
            kind,
            before.trackers,
        ).uses,
        tracker_of(kind, before.drain_barriers().trackers).pending.len() == 0,
{
    let after = before.drain_barriers();
    let n = before.raw.len();
    let tracker = tracker_of(kind, before.trackers);
    let drained = tracker_of(kind, after.trackers);
    assert forall|slot: TrackerIndex, state: u16| #[trigger] state_now(
        kind,
        after.raw,
        drained.pending,
        slot,
        state,
        from,
    ) == state_now(kind, before.raw, tracker.pending, slot, state, from) by {
        lemma_state_extends(kind, before.raw, after.raw, slot, state, from, n);
        let first = transitions_of(kind, after.raw[n as int]);
        let second = transitions_of(kind, after.raw[n as int + 1]);
        assert(state_after(kind, after.raw, slot, state, from, n + 1) == moved(
            first,
            slot,
            state_after(kind, after.raw, slot, state, from, n),
            first.len(),
        ));
        assert(state_after(kind, after.raw, slot, state, from, n + 2) == moved(
            second,
            slot,
            state_after(kind, after.raw, slot, state, from, n + 1),
            second.len(),
        ));
    }
    assert forall|slot: TrackerIndex| #[trigger] is_settled_at(
        kind,
        drained,
        after.raw,
        from,
        slot,
    ) by {
        assert(is_settled_at(kind, tracker, before.raw, from, slot));
    }
}

/// What a flush achieves: the calls and the trackers agree, the trackers hold what the bound groups
/// and the indirect buffer need, and the scope is empty where nothing else was in it.
spec fn is_flushed(
    kind: ResourceKind,
    before: FlushView,
    after: FlushView,
    groups: Seq<Arc<BindGroup>>,
    storage: Storage<BindGroup>,
    indirect: Option<TrackerIndex>,
    from: nat,
) -> bool {
    let uses = tracker_of(kind, after.trackers).uses;
    &&& from <= after.raw.len()
    &&& is_settled(kind, tracker_of(kind, after.trackers), after.raw, from)
    &&& tracker_of(kind, after.trackers).pending.len() == 0
    &&& forall|i: int, j: int|
        0 <= i < groups.len() && 0 <= j < group_uses(kind, groups, storage, i).len() ==> is_tracked_as(
            uses,
            #[trigger] group_uses(kind, groups, storage, i)[j],
        )
    &&& forall|wanted: ResourceUse|
        kind == ResourceKind::Buffer && indirect == Some(wanted.index) && usage::covers(
            before.scope.buffers,
            wanted,
        ) ==> #[trigger] is_tracked_as(uses, wanted)
    &&& usage::is_sound(kind, scope_of(kind, before.scope)) && groups_are_clean(
        kind,
        groups,
        storage,
        groups.len(),
    ) ==> {
        &&& forall|i: int, j: int|
            0 <= i < groups.len() && 0 <= j < group_uses(kind, groups, storage, i).len()
                ==> is_harmless(
                kind,
                uses,
                (#[trigger] group_uses(kind, groups, storage, i)[j]).index,
            )
        &&& forall|slot: TrackerIndex|
            kind == ResourceKind::Buffer && indirect == Some(slot) && usage::use_of(
                before.scope.buffers,
                slot,
            ) is Some ==> #[trigger] is_harmless(kind, uses, slot)
    }
    &&& forall|slot: TrackerIndex|
        usage::use_of(scope_of(kind, before.scope), slot) is None || (kind == ResourceKind::Buffer
            && indirect == Some(slot)) ==> (#[trigger] usage::use_of(
            scope_of(kind, after.scope),
            slot,
        )) is None
}

/// The last use that the tracker has seen of the slot is not in conflict with itself.
pub open spec fn is_harmless(
    kind: ResourceKind,
    uses: Seq<TrackedUse>,
    slot: TrackerIndex,
) -> bool {
    usage::last_use(uses, slot) matches Some(bits) ==> !track::is_conflicting(kind, bits)
}

/// The last use that the tracker has seen of the slot is at least the one that is wanted.
pub open spec fn is_tracked_as(uses: Seq<TrackedUse>, wanted: ResourceUse) -> bool {
    match usage::last_use(uses, wanted.index) {
        Some(bits) => bits & wanted.uses == wanted.uses,
        None => false,
    }
}

/// The use of a slot that was moved out of a sound scope is not in conflict with itself.
proof fn lemma_moved_is_harmless(
    kind: ResourceKind,
    before: FlushView,
    after: FlushView,
    slot: TrackerIndex,
)
    requires
        usage::is_sound(kind, scope_of(kind, before.scope)),
        usage::is_moved(
            tracker_of(kind, before.trackers),
            scope_of(kind, before.scope),
            tracker_of(kind, after.trackers),
            scope_of(kind, after.scope),
            slot,
        ),
        usage::use_of(scope_of(kind, before.scope), slot) is Some,
        usage::use_of(scope_of(kind, after.scope), slot) is None,
    ensures
        is_harmless(kind, tracker_of(kind, after.trackers).uses, slot),
{
    let uses = scope_of(kind, before.scope);
    track::lemma_use_position(uses, slot, uses.len());
    let k = track::find_use(uses, slot)->0;
    assert(!track::is_conflicting(kind, uses[k].uses));
}

proof fn lemma_flush(
    kind: ResourceKind,
    binder: BinderView,
    storage: Storage<BindGroup>,
    indirect: Option<TrackerIndex>,
    before: FlushView,
    from: nat,
)
    requires
        from <= before.raw.len(),
        usage::is_distinct(before.scope.buffers),
        usage::is_distinct(before.scope.textures),
        is_settled(kind, tracker_of(kind, before.trackers), before.raw, from),
    ensures
        state::flush(binder, storage, indirect, before) matches Flush::Done(after) ==> is_flushed(
            kind,
            before,
            after,
            binder.active_groups(MAX_BIND_GROUPS as nat),
            storage,
            indirect,
            from,
        ),
{
    let groups = binder.active_groups(MAX_BIND_GROUPS as nat);
    let n = groups.len();
    lemma_merge_groups(kind, before.scope, groups, storage, n);
    if let Merge::Merged(scope) = state::merge_groups(before.scope, groups, storage, n) {
        let merged = FlushView { scope, ..before };
        let taken = merged.take_groups(groups, storage, n);
        let last = taken.take_buffer(indirect);
        let after = last.drain_barriers();
        lemma_take_groups(kind, merged, groups, storage, n, from);
        lemma_take_buffer(kind, taken, indirect, from);
        lemma_drain_settled(kind, last, from);
        let uses = tracker_of(kind, after.trackers).uses;
        assert forall|slot: TrackerIndex| #[trigger] usage::is_moved(
            tracker_of(kind, merged.trackers),
            scope_of(kind, merged.scope),
            tracker_of(kind, last.trackers),
            scope_of(kind, last.scope),
            slot,
        ) by {
            assert(usage::is_moved(
                tracker_of(kind, merged.trackers),
                scope_of(kind, merged.scope),
                tracker_of(kind, taken.trackers),
                scope_of(kind, taken.scope),
                slot,
            ));
            assert(usage::is_moved(
                tracker_of(kind, taken.trackers),
                scope_of(kind, taken.scope),
                tracker_of(kind, last.trackers),
                scope_of(kind, last.scope),
                slot,
            ));
        }
        assert forall|slot: TrackerIndex|
            any_names(kind, groups, storage, n, slot) || (kind == ResourceKind::Buffer && indirect
                == Some(slot)) implies (#[trigger] usage::use_of(scope_of(kind, last.scope), slot))
            is None by {
            assert(usage::is_moved(
                tracker_of(kind, taken.trackers),
                scope_of(kind, taken.scope),
                tracker_of(kind, last.trackers),
                scope_of(kind, last.scope),
                slot,
            ));
            if any_names(kind, groups, storage, n, slot) {
                assert(usage::use_of(scope_of(kind, taken.scope), slot) is None);
            }
        }
        assert forall|i: int, j: int|
            0 <= i < n && 0 <= j < group_uses(kind, groups, storage, i).len() implies
            is_tracked_as(
            uses,
            #[trigger] group_uses(kind, groups, storage, i)[j],
        ) by {
            let wanted = group_uses(kind, groups, storage, i)[j];
            lemma_any_names(kind, groups, storage, n, i, j);
            assert(usage::covers(scope_of(kind, scope), wanted));
            assert(usage::use_of(scope_of(kind, last.scope), wanted.index) is None);
            assert(usage::is_moved(
                tracker_of(kind, merged.trackers),
                scope_of(kind, merged.scope),
                tracker_of(kind, last.trackers),
                scope_of(kind, last.scope),
                wanted.index,
            ));
        }
        assert forall|wanted: ResourceUse|
            kind == ResourceKind::Buffer && indirect == Some(wanted.index) && usage::covers(
                before.scope.buffers,
                wanted,
            ) implies #[trigger] is_tracked_as(uses, wanted) by {
            assert(usage::covers(scope_of(kind, scope), wanted));
            assert(usage::use_of(scope_of(kind, last.scope), wanted.index) is None);
            assert(usage::is_moved(
                tracker_of(kind, merged.trackers),
                scope_of(kind, merged.scope),
                tracker_of(kind, last.trackers),
                scope_of(kind, last.scope),
                wanted.index,
            ));
        }
        if usage::is_sound(kind, scope_of(kind, before.scope)) && groups_are_clean(
            kind,
            groups,
            storage,
            n,
        ) {
            assert forall|i: int, j: int|
                0 <= i < n && 0 <= j < group_uses(kind, groups, storage, i).len() implies
                is_harmless(
                kind,
                uses,
                (#[trigger] group_uses(kind, groups, storage, i)[j]).index,
            ) by {
                let wanted = group_uses(kind, groups, storage, i)[j];
                lemma_any_names(kind, groups, storage, n, i, j);
                assert(usage::covers(scope_of(kind, scope), wanted));
                assert(usage::use_of(scope_of(kind, last.scope), wanted.index) is None);
                lemma_moved_is_harmless(kind, merged, last, wanted.index);
            }
            assert forall|slot: TrackerIndex|
                kind == ResourceKind::Buffer && indirect == Some(slot) && usage::use_of(
                    before.scope.buffers,
                    slot,
                ) is Some implies #[trigger] is_harmless(kind, uses, slot) by {
                let bits = usage::use_of(before.scope.buffers, slot)->0;
                assert(bits & bits == bits) by (bit_vector);
                let wanted = ResourceUse { index: slot, id: 0, uses: bits };
                assert(usage::covers(scope_of(kind, before.scope), wanted));
                assert(usage::covers(scope_of(kind, scope), wanted));
                assert(usage::use_of(scope_of(kind, last.scope), slot) is None);
                lemma_moved_is_harmless(kind, merged, last, slot);
            }
        }
        assert forall|slot: TrackerIndex|
            usage::use_of(scope_of(kind, before.scope), slot) is None || (kind == ResourceKind::Buffer
                && indirect == Some(slot)) implies (#[trigger] usage::use_of(
            scope_of(kind, after.scope),
            slot,
        )) is None by {
            assert(after.scope == last.scope);
            if !any_names(kind, groups, storage, n, slot) && !(kind == ResourceKind::Buffer
                && indirect == Some(slot)) {
                assert(usage::use_of(scope_of(kind, scope), slot) is None);
                assert(usage::is_moved(
                    tracker_of(kind, merged.trackers),
                    scope_of(kind, merged.scope),
                    tracker_of(kind, last.trackers),
                    scope_of(kind, last.scope),
                    slot,
                ));
            }
        }
    }
}

proof fn lemma_settled_extends(
    kind: ResourceKind,
    tracker: UsageTrackerView,
    before: Seq<RawView>,
    after: Seq<RawView>,
    from: nat,
)
    requires
        from <= before.len(),
        is_settled(kind, tracker, before, from),
        warrant::extends(before, after),
        forall|p: int|
            before.len() <= p < after.len() ==> !warrant::is_transition(#[trigger] after[p]),
    ensures
        is_settled(kind, tracker, after, from),
{
    assert forall|slot: TrackerIndex, state: u16| #[trigger] state_now(
        kind,
        after,
        tracker.pending,
        slot,
        state,
        from,
    ) == state_now(kind, before, tracker.pending, slot, state, from) by {
        lemma_state_extends(kind, before, after, slot, state, from, before.len());
        lemma_state_same(kind, after, slot, state, from, before.len(), after.len());
    }
    assert forall|slot: TrackerIndex| #[trigger] is_settled_at(
        kind,
        tracker,
        after,
        from,
        slot,
    ) by {
        assert(is_settled_at(kind, tracker, before, from, slot));
    }
}

proof fn lemma_state_same(
    kind: ResourceKind,
    calls: Seq<RawView>,
    slot: TrackerIndex,
    state: u16,
    from: nat,
    n: nat,
    m: nat,
)
    requires
        from <= n <= m <= calls.len(),
        forall|p: int| n <= p < m ==> !warrant::is_transition(#[trigger] calls[p]),
    ensures
        state_after(kind, calls, slot, state, from, m) == state_after(
            kind,
            calls,
            slot,
            state,
            from,
            n,
        ),
    decreases m,
{
    if n < m {
        lemma_state_same(kind, calls, slot, state, from, n, (m - 1) as nat);
        assert(!warrant::is_transition(calls[m - 1]));
    }
}

/// What holds between the commands of a pass.
spec fn is_in_order(kind: ResourceKind, s: RunView, from: nat) -> bool {
    &&& from <= s.out.raw.len()
    &&& s.scope.buffers.len() == 0
    &&& s.scope.textures.len() == 0
    &&& is_settled(kind, tracker_of(kind, s.intermediate), s.out.raw, from)
    &&& tracker_of(kind, s.intermediate).pending.len() == 0
}

proof fn lemma_empty_scope(uses: Seq<ResourceUse>)
    requires
        forall|slot: TrackerIndex| (#[trigger] usage::use_of(uses, slot)) is None,
    ensures
        uses.len() == 0,
{
    if uses.len() > 0 {
        track::lemma_use_position(uses, uses[0].index, uses.len());
        assert(usage::use_of(uses, uses[0].index) is None);
    }
}

/// What a dispatch finds: the last use of each slot of one kind that the bound groups need, and of the
/// buffer that holds its arguments, is wide enough.
spec fn is_prepared(
    kind: ResourceKind,
    s: RunView,
    env: PassEnv,
    command: ArcComputeCommand,
    t: RunView,
) -> bool {
    let groups = s.binder.active_groups(MAX_BIND_GROUPS as nat);
    let uses = tracker_of(kind, t.intermediate).uses;
    &&& forall|i: int, j: int|
        0 <= i < groups.len() && 0 <= j < group_uses(kind, groups, *env.bind_groups, i).len()
            ==> is_tracked_as(uses, #[trigger] group_uses(kind, groups, *env.bind_groups, i)[j])
    &&& kind == ResourceKind::Buffer ==> (command matches ArcComputeCommand::DispatchIndirect {
        buffer,
        ..
    } ==> is_tracked_as(uses, argument_use(buffer)))
    &&& groups_are_clean(kind, groups, *env.bind_groups, groups.len()) ==> {
        &&& forall|i: int, j: int|
            0 <= i < groups.len() && 0 <= j < group_uses(kind, groups, *env.bind_groups, i).len()
                ==> is_harmless(
                kind,
                uses,
                (#[trigger] group_uses(kind, groups, *env.bind_groups, i)[j]).index,
            )
        &&& kind == ResourceKind::Buffer ==> (command matches ArcComputeCommand::DispatchIndirect {
            buffer,
            ..
        } ==> is_harmless(kind, uses, buffer.tracker_index))
    }
}

/// The use of a buffer that holds the arguments of a dispatch.
pub open spec fn argument_use(buffer: Arc<Buffer>) -> ResourceUse {
    ResourceUse { index: buffer.tracker_index, id: buffer.id.0, uses: track::BUFFER_INDIRECT }
}

proof fn lemma_dispatch_in_order(
    kind: ResourceKind,
    s: RunView,
    env: PassEnv,
    groups: [u32; 3],
    from: nat,
)
    requires
        is_in_order(kind, s, from),
    ensures
        s.step(env, ArcComputeCommand::Dispatch(groups)) matches Step::Done(t) ==> {
            &&& is_in_order(kind, t, from)
            &&& is_prepared(kind, s, env, ArcComputeCommand::Dispatch(groups), t)
        },
{
    let before = FlushView { scope: s.scope, trackers: s.intermediate, raw: s.out.raw };
    lemma_flush(kind, s.binder, *env.bind_groups, None, before, from);
    lemma_flush_empties(s.binder, *env.bind_groups, None, before);
    if let Flush::Done(after) = state::flush(s.binder, *env.bind_groups, None, before) {
        warrant::lemma_flush_calls(
            s,
            env,
            PassErrorScope::Dispatch { indirect: false, pipeline: s.pipeline },
            None,
        );
        if let Step::Done(t) = s.step(env, ArcComputeCommand::Dispatch(groups)) {
            assert(t.out.raw == after.raw.push(RawView::Dispatch(groups)));
            lemma_settled_extends(
                kind,
                tracker_of(kind, after.trackers),
                after.raw,
                t.out.raw,
                from,
            );
        }
    }
}

pub(crate) proof fn lemma_flush_empties(
    binder: BinderView,
    storage: Storage<BindGroup>,
    indirect: Option<TrackerIndex>,
    before: FlushView,
)
    requires
        usage::is_distinct(before.scope.buffers),
        usage::is_distinct(before.scope.textures),
        before.scope.textures.len() == 0,
        forall|slot: TrackerIndex|
            indirect == Some(slot) || (#[trigger] usage::use_of(before.scope.buffers, slot)) is None,
    ensures
        state::flush(binder, storage, indirect, before) matches Flush::Done(after) ==> {
            &&& after.scope.buffers.len() == 0
            &&& after.scope.textures.len() == 0
        },
{
    // Nothing is said of the trackers here: any trackers will do.
    let n = before.raw.len();
    let blank = FlushView { trackers: TrackerView::empty(), ..before };
    assert forall|kind: ResourceKind, slot: TrackerIndex| #[trigger] is_settled_at(
        kind,
        UsageTrackerView::empty(),
        blank.raw,
        n,
        slot,
    ) by {}
    lemma_flush(ResourceKind::Buffer, binder, storage, indirect, blank, n);
    lemma_flush(ResourceKind::Texture, binder, storage, indirect, blank, n);
    rehearsal::lemma_flush_alike(binder, storage, indirect, before, blank);
    if let Flush::Done(after) = state::flush(binder, storage, indirect, blank) {
        assert forall|slot: TrackerIndex| (#[trigger] usage::use_of(after.scope.buffers, slot))
            is None by {
            assert(indirect == Some(slot) || usage::use_of(before.scope.buffers, slot) is None);
            assert(usage::use_of(scope_of(ResourceKind::Buffer, after.scope), slot) is None);
        }
        lemma_empty_scope(after.scope.buffers);
        assert forall|slot: TrackerIndex| (#[trigger] usage::use_of(after.scope.textures, slot))
            is None by {
            usage::lemma_use_of_none(before.scope.textures, slot);
            assert(usage::use_of(scope_of(ResourceKind::Texture, blank.scope), slot) is None);
            assert(usage::use_of(scope_of(ResourceKind::Texture, after.scope), slot) is None);
        }
        lemma_empty_scope(after.scope.textures);
    }
}

proof fn lemma_dispatch_indirect_in_order(
    kind: ResourceKind,
    s: RunView,
    env: PassEnv,
    buffer: Arc<Buffer>,
    offset: BufferAddress,
    from: nat,
)
    requires
        is_in_order(kind, s, from),
    ensures
        s.step(env, ArcComputeCommand::DispatchIndirect { buffer, offset }) matches Step::Done(t)
            ==> {
            &&& is_in_order(kind, t, from)
            &&& is_prepared(
                kind,
                s,
                env,
                ArcComputeCommand::DispatchIndirect { buffer, offset },
                t,
            )
        },
{
    let wanted = argument_use(buffer);
    let index = Some(buffer.tracker_index);
    if let Ok(buffers) = track::merge_use(s.scope.buffers, ResourceKind::Buffer, wanted) {
        let before = FlushView {
            scope: ScopeView { buffers, ..s.scope },
            trackers: s.intermediate,
            raw: s.out.raw,
        };
        usage::merging_widens(s.scope.buffers, ResourceKind::Buffer, wanted);
        assert(!track::is_conflicting(ResourceKind::Buffer, track::BUFFER_INDIRECT)) by {
            assert(0x200u16 & 0x10au16 == 0) by (bit_vector);
        }
        assert forall|slot: TrackerIndex| index == Some(slot) || (#[trigger] usage::use_of(
            before.scope.buffers,
            slot,
        )) is None by {
            usage::lemma_use_of_none(s.scope.buffers, slot);
        }
        lemma_flush(kind, s.binder, *env.bind_groups, index, before, from);
        lemma_flush_empties(s.binder, *env.bind_groups, index, before);
        if let Flush::Done(after) = state::flush(s.binder, *env.bind_groups, index, before) {
            if let Step::Done(t) = s.step(
                env,
                ArcComputeCommand::DispatchIndirect { buffer, offset },
            ) {
                let handle = buffer.raw->0;
                assert(t.out.raw == after.raw.push(
                    RawView::DispatchIndirect { buffer: handle, offset },
                ));
                lemma_settled_extends(
                    kind,
                    tracker_of(kind, after.trackers),
                    after.raw,
                    t.out.raw,
                    from,
                );
            }
        }
    }
}

proof fn lemma_other_keeps_uses(s: RunView, env: PassEnv, command: ArcComputeCommand)
    requires
        !binding::is_dispatch(command),
    ensures
        s.step(env, command) matches Step::Done(t) ==> {
            &&& t.intermediate == s.intermediate
            &&& t.scope == s.scope
        },
{
}

proof fn lemma_step_in_order(
    kind: ResourceKind,
    s: RunView,
    env: PassEnv,
    command: ArcComputeCommand,
    from: nat,
)
    requires
        is_in_order(kind, s, from),
    ensures
        s.step(env, command) matches Step::Done(t) ==> {
            &&& is_in_order(kind, t, from)
            &&& binding::is_dispatch(command) ==> is_prepared(kind, s, env, command, t)
        },
{
    match command {
        ArcComputeCommand::Dispatch(groups) => {
            lemma_dispatch_in_order(kind, s, env, groups, from);
        },
        ArcComputeCommand::DispatchIndirect { buffer, offset } => {
            lemma_dispatch_indirect_in_order(kind, s, env, buffer, offset, from);
        },
        _ => {
            if let Step::Done(t) = s.step(env, command) {
                lemma_other_keeps_uses(s, env, command);
                warrant::step_is_warranted(s, env, command);
                assert forall|p: int| s.out.raw.len() <= p < t.out.raw.len() implies
                    !warrant::is_transition(#[trigger] t.out.raw[p]) by {
                    assert(warrant::warrants(env, command, t.out.raw[p]));
                }
                lemma_settled_extends(
                    kind,
                    tracker_of(kind, s.intermediate),
                    s.out.raw,
                    t.out.raw,
                    from,
                );
            }
        },
    }
}

proof fn lemma_steps_in_order(
    kind: ResourceKind,
    start: RunView,
    env: PassEnv,
    commands: Seq<ArcComputeCommand>,
    n: nat,
)
    requires
        n <= commands.len(),
        start.intermediate == TrackerView::empty(),
        start.scope.buffers.len() == 0,
        start.scope.textures.len() == 0,
    ensures
        start.steps(env, commands, n) matches Step::Done(t) ==> is_in_order(
            kind,
            t,
            start.out.raw.len(),
        ),
    decreases n,
{
    let from = start.out.raw.len();
    if n == 0 {
        assert forall|slot: TrackerIndex| #[trigger] is_settled_at(
            kind,
            tracker_of(kind, start.intermediate),
            start.out.raw,
            from,
            slot,
        ) by {}
    } else {
        lemma_steps_in_order(kind, start, env, commands, (n - 1) as nat);
        if let Step::Done(s) = start.steps(env, commands, (n - 1) as nat) {
            lemma_step_in_order(kind, s, env, commands[n - 1], from);
        }
    }
}

/// Each dispatch has a usage scope of its own: between two commands no use is waiting in the scope.
pub proof fn commands_begin_with_an_empty_scope(
    start: RunView,
    env: PassEnv,
    commands: Seq<ArcComputeCommand>,
    n: nat,
)
    requires
        n <= commands.len(),
        start.intermediate == TrackerView::empty(),
        start.scope.buffers.len() == 0,
        start.scope.textures.len() == 0,
    ensures
        start.steps(env, commands, n) matches Step::Done(s) ==> {
            &&& s.scope.buffers.len() == 0
            &&& s.scope.textures.len() == 0
        },
{
    lemma_steps_in_order(ResourceKind::Buffer, start, env, commands, n);
}

/// The calls, which begin with `from`, have brought the slot into a state that allows the use that is
/// wanted, from the first use that the pass makes of it.
pub open spec fn is_ready_for(
    kind: ResourceKind,
    t: RunView,
    from: nat,
    wanted: ResourceUse,
) -> bool {
    match usage::first_use(tracker_of(kind, t.intermediate).uses, wanted.index) {
        Some(first) => state_after(
            kind,
            t.out.raw,
            wanted.index,
            first,
            from,
            t.out.raw.len(),
        ) & wanted.uses == wanted.uses,
        None => false,
    }
}

/// The calls, which begin with `from`, have brought the slot into a state in which no exclusive use has
/// company, from the first use that the pass makes of it.
pub open spec fn is_free_of_conflict(
    kind: ResourceKind,
    t: RunView,
    from: nat,
    slot: TrackerIndex,
) -> bool {
    match usage::first_use(tracker_of(kind, t.intermediate).uses, slot) {
        Some(first) => !track::is_conflicting(
            kind,
            state_after(kind, t.out.raw, slot, first, from, t.out.raw.len()),
        ),
        None => false,
    }
}

/// When a dispatch reaches the backend, each buffer and texture that the groups bound to used slots
/// need is in a state that allows what they need it for; so is the buffer that holds the arguments of
/// an indirect dispatch. In none of these states does an exclusive use have company, as long as no
/// single use of a group is such a state by itself.
pub proof fn dispatch_finds_resources_ready(
    kind: ResourceKind,
    start: RunView,
    env: PassEnv,
    commands: Seq<ArcComputeCommand>,
    n: nat,
)
    requires
        n < commands.len(),
        start.intermediate == TrackerView::empty(),
        start.scope.buffers.len() == 0,
        start.scope.textures.len() == 0,
        binding::is_dispatch(commands[n as int]),
        start.steps(env, commands, n + 1) is Done,
    ensures
        ({
            let s = start.steps(env, commands, n)->Done_0;
            let t = start.steps(env, commands, n + 1)->Done_0;
            let from = start.out.raw.len();
            let groups = s.binder.active_groups(MAX_BIND_GROUPS as nat);
            &&& start.steps(env, commands, n) is Done
            &&& forall|i: int, j: int|
                0 <= i < groups.len() && 0 <= j < group_uses(
                    kind,
                    groups,
                    *env.bind_groups,
                    i,
                ).len() ==> is_ready_for(
                    kind,
                    t,
                    from,
                    #[trigger] group_uses(kind, groups, *env.bind_groups, i)[j],
                )
            &&& kind == ResourceKind::Buffer ==> (commands[n as int] matches
                ArcComputeCommand::DispatchIndirect { buffer, .. } ==> is_ready_for(
                kind,
                t,
                from,
                argument_use(buffer),
            ))
            &&& groups_are_clean(kind, groups, *env.bind_groups, groups.len()) ==> {
                &&& forall|i: int, j: int|
                    0 <= i < groups.len() && 0 <= j < group_uses(
                        kind,
                        groups,
                        *env.bind_groups,
                        i,
                    ).len() ==> is_free_of_conflict(
                        kind,
                        t,
                        from,
                        (#[trigger] group_uses(kind, groups, *env.bind_groups, i)[j]).index,
                    )
                &&& kind == ResourceKind::Buffer ==> (commands[n as int] matches
                    ArcComputeCommand::DispatchIndirect { buffer, .. } ==> is_free_of_conflict(
                    kind,
                    t,
                    from,
                    buffer.tracker_index,
                ))
            }
        }),
{
    let s = start.steps(env, commands, n)->Done_0;
    let t = start.steps(env, commands, n + 1)->Done_0;
    let from = start.out.raw.len();
    let groups = s.binder.active_groups(MAX_BIND_GROUPS as nat);
    lemma_steps_in_order(kind, start, env, commands, n);
    lemma_step_in_order(kind, s, env, commands[n as int], from);
    assert forall|i: int, j: int|
        0 <= i < groups.len() && 0 <= j < group_uses(
            kind,
            groups,
            *env.bind_groups,
            i,
        ).len() implies is_ready_for(
        kind,
        t,
        from,
        #[trigger] group_uses(kind, groups, *env.bind_groups, i)[j],
    ) by {
        lemma_tracked_is_ready(
            kind,
            t,
            from,
            group_uses(kind, groups, *env.bind_groups, i)[j],
        );
    }
    if kind == ResourceKind::Buffer {
        if let ArcComputeCommand::DispatchIndirect { buffer, .. } = commands[n as int] {
            lemma_tracked_is_ready(kind, t, from, argument_use(buffer));
        }
    }
    if groups_are_clean(kind, groups, *env.bind_groups, groups.len()) {
        assert forall|i: int, j: int|
            0 <= i < groups.len() && 0 <= j < group_uses(
                kind,
                groups,
                *env.bind_groups,
                i,
            ).len() implies is_free_of_conflict(
            kind,
            t,
            from,
            (#[trigger] group_uses(kind, groups, *env.bind_groups, i)[j]).index,
        ) by {
            let wanted = group_uses(kind, groups, *env.bind_groups, i)[j];
            lemma_tracked_is_ready(kind, t, from, wanted);
        }
    }
}

proof fn lemma_tracked_is_ready(kind: ResourceKind, t: RunView, from: nat, wanted: ResourceUse)
    requires
        is_in_order(kind, t, from),
        is_tracked_as(tracker_of(kind, t.intermediate).uses, wanted),
    ensures
        is_ready_for(kind, t, from, wanted),
        is_harmless(kind, tracker_of(kind, t.intermediate).uses, wanted.index)
            ==> is_free_of_conflict(kind, t, from, wanted.index),
{
    let tracker = tracker_of(kind, t.intermediate);
    assert(is_settled_at(kind, tracker, t.out.raw, from, wanted.index));
}

proof fn lemma_take_groups_single(
    before: FlushView,
    groups: Seq<Arc<BindGroup>>,
    storage: Storage<BindGroup>,
    n: nat,
)
    requires
        usage::is_single(before.trackers.buffers.uses),
        usage::is_single(before.trackers.textures.uses),
    ensures
        usage::is_single(before.take_groups(groups, storage, n).trackers.buffers.uses),
        usage::is_single(before.take_groups(groups, storage, n).trackers.textures.uses),
    decreases n,
{
    if n > 0 {
        lemma_take_groups_single(before, groups, storage, (n - 1) as nat);
        let mid = before.take_groups(groups, storage, (n - 1) as nat);
        let group = storage.object(groups[n - 1].id.0)->0;
        usage::lemma_take_single(
            mid.trackers.buffers,
            ResourceKind::Buffer,
            mid.scope.buffers,
            track::slots_of(group.used.buffers@),
            group.used.buffers@.len(),
        );
        usage::lemma_take_single(
            mid.trackers.textures,
            ResourceKind::Texture,
            mid.scope.textures,
            track::slots_of(group.used.textures@),
            group.used.textures@.len(),
        );
    }
}

proof fn lemma_flush_single(
    binder: BinderView,
    storage: Storage<BindGroup>,
    indirect: Option<TrackerIndex>,
    before: FlushView,
)
    requires
        usage::is_single(before.trackers.buffers.uses),
        usage::is_single(before.trackers.textures.uses),
    ensures
        state::flush(binder, storage, indirect, before) matches Flush::Done(after) ==> {
            &&& usage::is_single(after.trackers.buffers.uses)
            &&& usage::is_single(after.trackers.textures.uses)
        },
{
    let groups = binder.active_groups(MAX_BIND_GROUPS as nat);
    if let Merge::Merged(scope) = state::merge_groups(
        before.scope,
        groups,
        storage,
        groups.len(),
    ) {
        let merged = FlushView { scope, ..before };
        lemma_take_groups_single(merged, groups, storage, groups.len());
        let taken = merged.take_groups(groups, storage, groups.len());
        if let Some(slot) = indirect {
            usage::lemma_take_single(
                taken.trackers.buffers,
                ResourceKind::Buffer,
                taken.scope.buffers,
                seq![slot],
                1,
            );
        }
    }
}

/// A pass never tracks a slot twice.
pub proof fn slots_are_tracked_once(
    start: RunView,
    env: PassEnv,
    commands: Seq<ArcComputeCommand>,
    n: nat,
)
    requires
        n <= commands.len(),
        usage::is_single(start.intermediate.buffers.uses),
        usage::is_single(start.intermediate.textures.uses),
    ensures
        start.steps(env, commands, n) matches Step::Done(t) ==> {
            &&& usage::is_single(t.intermediate.buffers.uses)
            &&& usage::is_single(t.intermediate.textures.uses)
        },
    decreases n,
{
    if n > 0 {
        slots_are_tracked_once(start, env, commands, (n - 1) as nat);
        if let Step::Done(s) = start.steps(env, commands, (n - 1) as nat) {
            let before = FlushView { scope: s.scope, trackers: s.intermediate, raw: s.out.raw };
            match commands[n - 1] {
                ArcComputeCommand::Dispatch(_) => {
                    lemma_flush_single(s.binder, *env.bind_groups, None, before);
                },
                ArcComputeCommand::DispatchIndirect { buffer, .. } => {
                    if let Ok(buffers) = track::merge_use(
                        s.scope.buffers,
                        ResourceKind::Buffer,
                        argument_use(buffer),
                    ) {
                        lemma_flush_single(
                            s.binder,
                            *env.bind_groups,
                            Some(buffer.tracker_index),
                            FlushView { scope: ScopeView { buffers, ..s.scope }, ..before },
                        );
                    }
                },
                _ => {
                    lemma_other_keeps_uses(s, env, commands[n - 1]);
                },
            }
        }
    }
}

/// What becomes of a slot when the uses of a later stretch of commands are appended.
spec fn is_joined(
    before: UsageTrackerView,
    later: Seq<TrackedUse>,
    after: UsageTrackerView,
    slot: TrackerIndex,
    n: nat,
) -> bool {
    match track::tracked_position(later, slot, n) {
        Some(k) => {
            &&& usage::last_use(after.uses, slot) == Some(later[k].end)
            &&& usage::last_use(before.uses, slot) matches Some(last) ==> moved(
                after.pending,
                slot,
                last,
                after.pending.len(),
            ) == later[k].start
        },
        None => {
            &&& usage::last_use(after.uses, slot) == usage::last_use(before.uses, slot)
            &&& forall|state: u16| #[trigger]
                moved(after.pending, slot, state, after.pending.len()) == state
        },
    }
}

proof fn lemma_join(
    before: UsageTrackerView,
    kind: ResourceKind,
    later: Seq<TrackedUse>,
    n: nat,
    slot: TrackerIndex,
)
    requires
        n <= later.len(),
        usage::is_single(later),
        before.pending.len() == 0,
    ensures
        is_joined(before, later, before.set_from_tracker(kind, later, n), slot, n),
    decreases n,
{
    if n > 0 {
        lemma_join(before, kind, later, (n - 1) as nat, slot);
        let mid = before.set_from_tracker(kind, later, (n - 1) as nat);
        let after = before.set_from_tracker(kind, later, n);
        let entry = later[n - 1];
        usage::lemma_set_uses(mid, kind, entry.index, entry.start, entry.end, slot);
        usage::lemma_tracked_position(later, slot, (n - 1) as nat);
        usage::lemma_tracked_position(mid.uses, entry.index, mid.uses.len());
        if entry.index == slot {
            assert(track::tracked_position(later, slot, (n - 1) as nat) is None) by {
                if let Some(k) = track::tracked_position(later, slot, (n - 1) as nat) {
                    assert(later[k].index != later[n - 1].index);
                }
            }
            if let Some(last) = usage::last_use(before.uses, slot) {
                assert(moved(mid.pending, slot, last, mid.pending.len()) == last);
            }
        } else {
            assert forall|state: u16| #[trigger] moved(
                after.pending,
                slot,
                state,
                after.pending.len(),
            ) == moved(mid.pending, slot, state, mid.pending.len()) by {
                if after.pending != mid.pending {
                    lemma_moved_prefix(
                        mid.pending,
                        after.pending,
                        slot,
                        state,
                        mid.pending.len(),
                    );
                }
            }
        }
    }
}

/// The transitions that come before a pass bring each slot that the pass uses, and that was used
/// before, from its last use to the first use that the pass makes of it. Slots that the pass does not
/// use are left alone. From then on the last uses are those that the pass ends with.
pub proof fn pass_begins_with_its_first_uses(
    kind: ResourceKind,
    before: RecordingView,
    pass: TrackerView,
    slot: TrackerIndex,
)
    requires
        usage::is_single(tracker_of(kind, pass).uses),
        tracker_of(kind, before.trackers).pending.len() == 0,
    ensures
        ({
            let after = before.insert_barriers(pass);
            let uses = tracker_of(kind, pass).uses;
            let n = after.raw.len();
            &&& warrant::extends(before.raw, after.raw)
            &&& tracker_of(kind, after.trackers).pending.len() == 0
            &&& match usage::first_use(uses, slot) {
                Some(first) => {
                    &&& usage::last_use(tracker_of(kind, after.trackers).uses, slot) == usage::last_use(
                        uses,
                        slot,
                    )
                    &&& usage::last_use(tracker_of(kind, before.trackers).uses, slot) matches Some(last)
                        ==> state_after(kind, after.raw, slot, last, before.raw.len(), n) == first
                },
                None => {
                    &&& usage::last_use(tracker_of(kind, after.trackers).uses, slot) == usage::last_use(
                        tracker_of(kind, before.trackers).uses,
                        slot,
                    )
                    &&& forall|state: u16| #[trigger]
                        state_after(kind, after.raw, slot, state, before.raw.len(), n) == state
                },
            }
        }),
{
    let after = before.insert_barriers(pass);
    let uses = tracker_of(kind, pass).uses;
    let tracker = tracker_of(kind, before.trackers);
    let joined = tracker.set_from_tracker(kind, uses, uses.len());
    lemma_join(tracker, kind, uses, uses.len(), slot);
    let n = before.raw.len();
    assert forall|state: u16| #[trigger] state_after(
        kind,
        after.raw,
        slot,
        state,
        n,
        n + 2,
    ) == moved(joined.pending, slot, state, joined.pending.len()) by {
        let first = transitions_of(kind, after.raw[n as int]);
        let second = transitions_of(kind, after.raw[n as int + 1]);
        assert(state_after(kind, after.raw, slot, state, n, n + 1) == moved(
            first,
            slot,
            state_after(kind, after.raw, slot, state, n, n),
            first.len(),
        ));
        assert(state_after(kind, after.raw, slot, state, n, n + 2) == moved(
            second,
            slot,
            state_after(kind, after.raw, slot, state, n, n + 1),
            second.len(),
        ));
    }
    assert(after.raw.len() == n + 2);
}

} // verus!
