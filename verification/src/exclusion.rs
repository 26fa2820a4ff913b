//! No dispatch uses a resource in two ways of which one excludes the other, and nothing but that is a
//! conflict.
use crate::barrier;
use crate::bind::BinderView;
use crate::binding;
use crate::command::ArcComputeCommand;
use crate::id::TrackerIndex;
use crate::resource::BindGroup;
use crate::run::{PassEnv, RunView};
use crate::state;
use crate::state::{Flush, FlushView, Merge};
use crate::storage::Storage;
use crate::track;
use crate::track::{ResourceKind, ResourceUse, ScopeView, TrackerView, UsageConflict};
use crate::types::MAX_BIND_GROUPS;
use crate::usage;
use std::sync::Arc;
use vstd::prelude::*;

verus! {

/// The uses that the first `n` groups make of resources of one kind, one after the other.
pub open spec fn uses_of_groups(
    kind: ResourceKind,
    groups: Seq<Arc<BindGroup>>,
    storage: Storage<BindGroup>,
    n: nat,
) -> Seq<ResourceUse>
    decreases n,
{
    if n == 0 {
        Seq::empty()
    } else {
        uses_of_groups(kind, groups, storage, (n - 1) as nat) + barrier::group_uses(
            kind,
            groups,
            storage,
            n - 1,
        )
    }
}

/// The groups are in the storage.
pub open spec fn groups_exist(groups: Seq<Arc<BindGroup>>, storage: Storage<BindGroup>) -> bool {
    forall|i: int|
        0 <= i < groups.len() ==> storage.object((#[trigger] groups[i]).id.0) is Some
}

/// No two uses that the groups make clash, be it in one group or in two.
pub open spec fn groups_are_free_of_clashes(
    groups: Seq<Arc<BindGroup>>,
    storage: Storage<BindGroup>,
) -> bool {
    &&& usage::is_free_of_clashes(
        ResourceKind::Buffer,
        uses_of_groups(ResourceKind::Buffer, groups, storage, groups.len()),
    )
    &&& usage::is_free_of_clashes(
        ResourceKind::Texture,
        uses_of_groups(ResourceKind::Texture, groups, storage, groups.len()),
    )
}

/// The scope covers all uses of the list.
spec fn covers_all(uses: Seq<ResourceUse>, past: Seq<ResourceUse>) -> bool {
    forall|i: int| 0 <= i < past.len() ==> usage::covers(uses, #[trigger] past[i])
}

proof fn lemma_merged_uses_are_free(
    uses: Seq<ResourceUse>,
    kind: ResourceKind,
    past: Seq<ResourceUse>,
    added: Seq<ResourceUse>,
)
    requires
        usage::is_distinct(uses),
        covers_all(uses, past),
        usage::is_free_of_clashes(kind, past),
        track::merge_uses(uses, kind, added, added.len()).1 is None,
    ensures
        usage::is_distinct(track::merge_uses(uses, kind, added, added.len()).0),
        covers_all(track::merge_uses(uses, kind, added, added.len()).0, past + added),
        usage::is_free_of_clashes(kind, past + added),
{
    let all = past + added;
    let n = past.len();
    let after = track::merge_uses(uses, kind, added, added.len()).0;
    usage::lemma_merge_all(uses, kind, added, added.len());
    usage::lemma_merged_without_clash(uses, kind, added, added.len());
    assert forall|i: int| 0 <= i < all.len() implies usage::covers(after, #[trigger] all[i]) by {
        if i < n {
            assert(all[i] == past[i]);
        } else {
            assert(all[i] == added[i - n]);
        }
    }
    assert forall|i: int, j: int| 0 <= i < j < all.len() implies !(#[trigger] usage::clash(
        kind,
        all[i],
        all[j],
    )) by {
        if j < n {
            assert(!usage::clash(kind, past[i], past[j]));
        } else if i < n {
            assert(usage::covers(uses, past[i]));
            assert(!usage::clash(kind, past[i], added[j - n]));
        } else {
            assert(!usage::clash(kind, added[i - n], added[j - n]));
        }
    }
}

proof fn lemma_merged_groups_are_free(
    kind: ResourceKind,
    scope: ScopeView,
    past: Seq<ResourceUse>,
    groups: Seq<Arc<BindGroup>>,
    storage: Storage<BindGroup>,
    n: nat,
)
    requires
        n <= groups.len(),
        usage::is_distinct(barrier::scope_of(kind, scope)),
        covers_all(barrier::scope_of(kind, scope), past),
        usage::is_free_of_clashes(kind, past),
    ensures
        state::merge_groups(scope, groups, storage, n) matches Merge::Merged(after) ==> {
            &&& usage::is_distinct(barrier::scope_of(kind, after))
            &&& covers_all(
                barrier::scope_of(kind, after),
                past + uses_of_groups(kind, groups, storage, n),
            )
            &&& usage::is_free_of_clashes(kind, past + uses_of_groups(kind, groups, storage, n))
        },
    decreases n,
{
    if n == 0 {
        assert(past + uses_of_groups(kind, groups, storage, n) =~= past);
    } else {
        lemma_merged_groups_are_free(kind, scope, past, groups, storage, (n - 1) as nat);
        if let Merge::Merged(after) = state::merge_groups(scope, groups, storage, n) {
            let before = state::merge_groups(scope, groups, storage, (n - 1) as nat)->Merged_0;
            let fewer = past + uses_of_groups(kind, groups, storage, (n - 1) as nat);
            let added = barrier::group_uses(kind, groups, storage, n - 1);
            lemma_merged_uses_are_free(barrier::scope_of(kind, before), kind, fewer, added);
            assert(fewer + added =~= past + uses_of_groups(kind, groups, storage, n));
        }
    }
}

proof fn lemma_free_part(kind: ResourceKind, part: Seq<ResourceUse>, more: Seq<ResourceUse>)
    requires
        usage::is_free_of_clashes(kind, part + more),
    ensures
        usage::is_free_of_clashes(kind, part),
{
    let all = part + more;
    assert forall|i: int, j: int| 0 <= i < j < part.len() implies !(#[trigger] usage::clash(
        kind,
        part[i],
        part[j],
    )) by {
        assert(!usage::clash(kind, all[i], all[j]));
    }
}

proof fn lemma_free_groups_merge(
    scope: ScopeView,
    groups: Seq<Arc<BindGroup>>,
    storage: Storage<BindGroup>,
    n: nat,
)
    requires
        n <= groups.len(),
        groups_exist(groups, storage),
        scope.buffers.len() == 0,
        scope.textures.len() == 0,
        usage::is_free_of_clashes(
            ResourceKind::Buffer,
            uses_of_groups(ResourceKind::Buffer, groups, storage, n),
        ),
        usage::is_free_of_clashes(
            ResourceKind::Texture,
            uses_of_groups(ResourceKind::Texture, groups, storage, n),
        ),
    ensures
        state::merge_groups(scope, groups, storage, n) matches Merge::Merged(after) && {
            &&& usage::stems_from(
                after.buffers,
                uses_of_groups(ResourceKind::Buffer, groups, storage, n),
            )
            &&& usage::stems_from(
                after.textures,
                uses_of_groups(ResourceKind::Texture, groups, storage, n),
            )
        },
    decreases n,
{
    if n == 0 {
        usage::lemma_nothing_stems(scope.buffers);
        usage::lemma_nothing_stems(scope.textures);
    } else {
        let buffers = uses_of_groups(ResourceKind::Buffer, groups, storage, (n - 1) as nat);
        let textures = uses_of_groups(ResourceKind::Texture, groups, storage, (n - 1) as nat);
        let more_buffers = barrier::group_uses(ResourceKind::Buffer, groups, storage, n - 1);
        let more_textures = barrier::group_uses(ResourceKind::Texture, groups, storage, n - 1);
        lemma_free_part(ResourceKind::Buffer, buffers, more_buffers);
        lemma_free_part(ResourceKind::Texture, textures, more_textures);
        lemma_free_groups_merge(scope, groups, storage, (n - 1) as nat);
        let before = state::merge_groups(scope, groups, storage, (n - 1) as nat)->Merged_0;
        assert(storage.object(groups[n - 1].id.0) is Some);
        assert(more_buffers.take(more_buffers.len() as int) =~= more_buffers);
        assert(more_textures.take(more_textures.len() as int) =~= more_textures);
        usage::lemma_free_uses_merge(
            before.buffers,
            ResourceKind::Buffer,
            buffers,
            more_buffers,
            more_buffers.len(),
        );
        usage::lemma_free_uses_merge(
            before.textures,
            ResourceKind::Texture,
            textures,
            more_textures,
            more_textures.len(),
        );
    }
}

proof fn lemma_existing_groups_are_found(
    scope: ScopeView,
    groups: Seq<Arc<BindGroup>>,
    storage: Storage<BindGroup>,
    n: nat,
)
    requires
        n <= groups.len(),
        groups_exist(groups, storage),
    ensures
        !(state::merge_groups(scope, groups, storage, n) is Gone),
    decreases n,
{
    if n > 0 {
        lemma_existing_groups_are_found(scope, groups, storage, (n - 1) as nat);
        assert(storage.object(groups[n - 1].id.0) is Some);
    }
}

/// Flushing the state from an empty scope succeeds exactly where no two uses of one resource clash that
/// the groups bound to used slots make, and is a conflict everywhere else. Where it succeeds, the scope is
/// empty again.
pub proof fn only_clashes_are_conflicts(
    binder: BinderView,
    storage: Storage<BindGroup>,
    before: FlushView,
)
    requires
        before.scope.buffers.len() == 0,
        before.scope.textures.len() == 0,
        groups_exist(binder.active_groups(MAX_BIND_GROUPS as nat), storage),
    ensures
        match state::flush(binder, storage, None, before) {
            Flush::Done(after) => {
                &&& groups_are_free_of_clashes(
                    binder.active_groups(MAX_BIND_GROUPS as nat),
                    storage,
                )
                &&& after.scope.buffers.len() == 0
                &&& after.scope.textures.len() == 0
            },
            Flush::Conflict(_, _) => !groups_are_free_of_clashes(
                binder.active_groups(MAX_BIND_GROUPS as nat),
                storage,
            ),
            Flush::Gone => false,
        },
{
    let groups = binder.active_groups(MAX_BIND_GROUPS as nat);
    let n = groups.len();
    let none = Seq::<ResourceUse>::empty();
    lemma_existing_groups_are_found(before.scope, groups, storage, n);
    if groups_are_free_of_clashes(groups, storage) {
        lemma_free_groups_merge(before.scope, groups, storage, n);
    }
    lemma_merged_groups_are_free(ResourceKind::Buffer, before.scope, none, groups, storage, n);
    lemma_merged_groups_are_free(ResourceKind::Texture, before.scope, none, groups, storage, n);
    let buffers = uses_of_groups(ResourceKind::Buffer, groups, storage, n);
    let textures = uses_of_groups(ResourceKind::Texture, groups, storage, n);
    assert(none + buffers =~= buffers);
    assert(none + textures =~= textures);
    assert forall|slot| (#[trigger] usage::use_of(before.scope.buffers, slot)) is None by {
        usage::lemma_use_of_none(before.scope.buffers, slot);
    }
    barrier::lemma_flush_empties(binder, storage, None, before);
}

proof fn lemma_use_in_list(
    kind: ResourceKind,
    groups: Seq<Arc<BindGroup>>,
    storage: Storage<BindGroup>,
    p: int,
    i: int,
    n: nat,
)
    requires
        0 <= p < n,
        0 <= i < barrier::group_uses(kind, groups, storage, p).len(),
    ensures
        ({
            let start = uses_of_groups(kind, groups, storage, p as nat).len();
            let list = uses_of_groups(kind, groups, storage, n);
            &&& start + barrier::group_uses(kind, groups, storage, p).len() <= list.len()
            &&& list[start + i] == barrier::group_uses(kind, groups, storage, p)[i]
        }),
    decreases n,
{
    if p < n - 1 {
        lemma_use_in_list(kind, groups, storage, p, i, (n - 1) as nat);
    }
}

proof fn lemma_clash_of_groups(
    kind: ResourceKind,
    groups: Seq<Arc<BindGroup>>,
    storage: Storage<BindGroup>,
    p: int,
    i: int,
    q: int,
    j: int,
)
    requires
        0 <= p < q < groups.len(),
        0 <= i < barrier::group_uses(kind, groups, storage, p).len(),
        0 <= j < barrier::group_uses(kind, groups, storage, q).len(),
        usage::clash(
            kind,
            barrier::group_uses(kind, groups, storage, p)[i],
            barrier::group_uses(kind, groups, storage, q)[j],
        ),
    ensures
        !groups_are_free_of_clashes(groups, storage),
{
    let n = groups.len();
    lemma_use_in_list(kind, groups, storage, p, i, n);
    lemma_use_in_list(kind, groups, storage, q, j, n);
    lemma_use_in_list(kind, groups, storage, p, i, q as nat);
    let x = uses_of_groups(kind, groups, storage, p as nat).len() + i;
    let y = uses_of_groups(kind, groups, storage, q as nat).len() + j;
    let list = uses_of_groups(kind, groups, storage, n);
    assert(usage::clash(kind, list[x], list[y]));
}

/// Each dispatch is a usage scope of its own. Of two groups, each free of clashes in itself, that clash
/// with each other, the one can be flushed after the other. Where both are bound at once, in whatever order
/// and beside whatever other groups, it is a conflict.
pub proof fn clashing_groups_need_two_dispatches(
    kind: ResourceKind,
    storage: Storage<BindGroup>,
    before: FlushView,
    only_first: BinderView,
    only_second: BinderView,
    both: BinderView,
    p: int,
    i: int,
    q: int,
    j: int,
)
    requires
        before.scope.buffers.len() == 0,
        before.scope.textures.len() == 0,
        ({
            let first = only_first.active_groups(MAX_BIND_GROUPS as nat);
            let second = only_second.active_groups(MAX_BIND_GROUPS as nat);
            let groups = both.active_groups(MAX_BIND_GROUPS as nat);
            &&& groups_exist(groups, storage)
            &&& 0 <= p < groups.len()
            &&& 0 <= q < groups.len()
            &&& p != q
            &&& first == seq![groups[p]]
            &&& second == seq![groups[q]]
            &&& groups_are_free_of_clashes(first, storage)
            &&& groups_are_free_of_clashes(second, storage)
            &&& 0 <= i < barrier::group_uses(kind, groups, storage, p).len()
            &&& 0 <= j < barrier::group_uses(kind, groups, storage, q).len()
            &&& usage::clash(
                kind,
                barrier::group_uses(kind, groups, storage, p)[i],
                barrier::group_uses(kind, groups, storage, q)[j],
            )
        }),
    ensures
        state::flush(only_first, storage, None, before) matches Flush::Done(after) && state::flush(
            only_second,
            storage,
            None,
            after,
        ) is Done,
        state::flush(both, storage, None, before) is Conflict,
{
    let groups = both.active_groups(MAX_BIND_GROUPS as nat);
    assert(storage.object(groups[p].id.0) is Some);
    assert(storage.object(groups[q].id.0) is Some);
    only_clashes_are_conflicts(only_first, storage, before);
    let after = state::flush(only_first, storage, None, before)->Done_0;
    only_clashes_are_conflicts(only_second, storage, after);
    only_clashes_are_conflicts(both, storage, before);
    if p < q {
        lemma_clash_of_groups(kind, groups, storage, p, i, q, j);
    } else {
        let one = barrier::group_uses(kind, groups, storage, p)[i].uses;
        let other = barrier::group_uses(kind, groups, storage, q)[j].uses;
        assert(one | other == other | one) by (bit_vector);
        lemma_clash_of_groups(kind, groups, storage, q, j, p, i);
    }
}

/// A dispatch reaches the backend only where no two uses of one resource clash that the groups bound to
/// used slots make, nor one of them with the use of the buffer that holds the arguments of an indirect
/// dispatch.
pub proof fn dispatch_is_free_of_clashes(
    start: RunView,
    env: PassEnv,
    commands: Seq<ArcComputeCommand>,
    n: nat,
)
    requires
        n < commands.len(),
        start.intermediate == TrackerView::empty(),
        start.scope.buffers.len() == 0,
        start.scope.textures.len() == 0,
        binding::is_dispatch(commands[n as int]),
        start.steps(env, commands, n + 1) is Done,
    ensures
        ({
            let s = start.steps(env, commands, n)->Done_0;
            let groups = s.binder.active_groups(MAX_BIND_GROUPS as nat);
            &&& start.steps(env, commands, n) is Done
            &&& groups_are_free_of_clashes(groups, *env.bind_groups)
            &&& commands[n as int] matches ArcComputeCommand::DispatchIndirect { buffer, .. }
                ==> usage::is_free_of_clashes(
                ResourceKind::Buffer,
                seq![barrier::argument_use(buffer)] + uses_of_groups(
                    ResourceKind::Buffer,
                    groups,
                    *env.bind_groups,
                    groups.len(),
                ),
            )
        }),
{
    let s = start.steps(env, commands, n)->Done_0;
    let groups = s.binder.active_groups(MAX_BIND_GROUPS as nat);
    let storage = *env.bind_groups;
    let none = Seq::<ResourceUse>::empty();
    barrier::commands_begin_with_an_empty_scope(start, env, commands, n);
    let buffers = uses_of_groups(ResourceKind::Buffer, groups, storage, groups.len());
    let textures = uses_of_groups(ResourceKind::Texture, groups, storage, groups.len());
    let scope = match commands[n as int] {
        ArcComputeCommand::DispatchIndirect { buffer, .. } => {
            let wanted = barrier::argument_use(buffer);
            let past = seq![wanted];
            usage::merging_widens(s.scope.buffers, ResourceKind::Buffer, wanted);
            let merged = track::merge_use(s.scope.buffers, ResourceKind::Buffer, wanted)->Ok_0;
            let scope = ScopeView { buffers: merged, ..s.scope };
            lemma_merged_groups_are_free(
                ResourceKind::Buffer,
                scope,
                past,
                groups,
                storage,
                groups.len(),
            );
            let all = past + buffers;
            if usage::is_free_of_clashes(ResourceKind::Buffer, all) {
                assert forall|i: int, j: int| 0 <= i < j < buffers.len() implies !(
                #[trigger] usage::clash(ResourceKind::Buffer, buffers[i], buffers[j])) by {
                    assert(!usage::clash(ResourceKind::Buffer, all[i + 1], all[j + 1]));
                }
            }
            scope
        },
        _ => s.scope,
    };
    assert(state::merge_groups(scope, groups, storage, groups.len()) is Merged);
    if commands[n as int] is Dispatch {
        lemma_merged_groups_are_free(
            ResourceKind::Buffer,
            scope,
            none,
            groups,
            storage,
            groups.len(),
        );
        assert(none + buffers =~= buffers);
    }
    lemma_merged_groups_are_free(
        ResourceKind::Texture,
        scope,
        none,
        groups,
        storage,
        groups.len(),
    );
    assert(none + textures =~= textures);
}

/// The conflict is about the use: it names its resource, and what is to be done with it.
pub open spec fn is_about(conflict: UsageConflict, kind: ResourceKind, new: ResourceUse) -> bool {
    match conflict {
        UsageConflict::Buffer { buffer, invalid_use } => {
            &&& kind == ResourceKind::Buffer
            &&& buffer.0 == new.id
            &&& invalid_use.new_state == new.uses
        },
        UsageConflict::Texture { texture, invalid_use } => {
            &&& kind == ResourceKind::Texture
            &&& texture.0 == new.id
            &&& invalid_use.new_state == new.uses
        },
    }
}

proof fn lemma_conflict_is_about(
    uses: Seq<ResourceUse>,
    kind: ResourceKind,
    added: Seq<ResourceUse>,
    n: nat,
)
    requires
        n <= added.len(),
    ensures
        track::merge_uses(uses, kind, added, n).1 matches Some(e) ==> exists|j: int|
            0 <= j < n && is_about(e, kind, #[trigger] added[j]),
    decreases n,
{
    if n > 0 {
        lemma_conflict_is_about(uses, kind, added, (n - 1) as nat);
        let before = track::merge_uses(uses, kind, added, (n - 1) as nat);
        if before.1 is None && track::merge_uses(uses, kind, added, n).1 is Some {
            assert(is_about(
                track::merge_uses(uses, kind, added, n).1->0,
                kind,
                added[n - 1],
            ));
        }
    }
}

proof fn lemma_group_conflict_is_about(
    scope: ScopeView,
    groups: Seq<Arc<BindGroup>>,
    storage: Storage<BindGroup>,
    n: nat,
)
    requires
        n <= groups.len(),
    ensures
        state::merge_groups(scope, groups, storage, n) matches Merge::Conflict(_, e) ==> exists|
            kind: ResourceKind,
            p: int,
            j: int,
        |
            {
                &&& 0 <= p < n
                &&& 0 <= j < barrier::group_uses(kind, groups, storage, p).len()
                &&& is_about(e, kind, #[trigger] barrier::group_uses(kind, groups, storage, p)[j])
            },
    decreases n,
{
    if n > 0 {
        lemma_group_conflict_is_about(scope, groups, storage, (n - 1) as nat);
        if let Merge::Merged(before) = state::merge_groups(scope, groups, storage, (n - 1) as nat) {
            if let Merge::Conflict(_, e) = state::merge_groups(scope, groups, storage, n) {
                let buffers = barrier::group_uses(ResourceKind::Buffer, groups, storage, n - 1);
                let textures = barrier::group_uses(ResourceKind::Texture, groups, storage, n - 1);
                lemma_conflict_is_about(
                    before.buffers,
                    ResourceKind::Buffer,
                    buffers,
                    buffers.len(),
                );
                lemma_conflict_is_about(
                    before.textures,
                    ResourceKind::Texture,
                    textures,
                    textures.len(),
                );
            }
        }
    }
}

/// A conflict of a flush is about a use that one of the groups bound to used slots makes.
pub proof fn conflicts_are_about_bound_groups(
    binder: BinderView,
    storage: Storage<BindGroup>,
    indirect_buffer: Option<TrackerIndex>,
    before: FlushView,
)
    ensures
        state::flush(binder, storage, indirect_buffer, before) matches Flush::Conflict(after, e) ==> {
            let groups = binder.active_groups(MAX_BIND_GROUPS as nat);
            &&& after.trackers == before.trackers
            &&& after.raw == before.raw
            &&& exists|kind: ResourceKind, p: int, j: int|
                {
                    &&& 0 <= p < groups.len()
                    &&& 0 <= j < barrier::group_uses(kind, groups, storage, p).len()
                    &&& is_about(
                        e,
                        kind,
                        #[trigger] barrier::group_uses(kind, groups, storage, p)[j],
                    )
                }
        },
{
    let groups = binder.active_groups(MAX_BIND_GROUPS as nat);
    lemma_group_conflict_is_about(before.scope, groups, storage, groups.len());
}

} // verus!
