//! Memory that was never written, or whose contents were thrown away, is taken care of before it is
//! read.
use crate::init_tracker;
use crate::init_tracker::{InitRange, MemoryInitKind};
use crate::memory_init;
use crate::memory_init::{
    BufferInitTrackerAction, TextureInitRange, TextureInitTrackerAction, TextureMemoryView,
    TextureSurfaceDiscard,
};
use crate::raw::RawView;
use crate::resource::{BindGroup, Buffer, Texture};
use crate::run::{PassEnv, RecordingView, RunView, Step};
use crate::track::{ResourceKind, TrackerView};
use crate::types::{BufferAddress, DISPATCH_INDIRECT_ARGS_SIZE};
use crate::usage;
use crate::warrant;
use std::sync::Arc;
use vstd::prelude::*;

verus! {

proof fn lemma_touched_surfaces(
    surfaces: Seq<TextureSurfaceDiscard>,
    action: TextureInitTrackerAction,
    n: nat,
    surface: TextureSurfaceDiscard,
)
    requires
        n <= surfaces.len(),
    ensures
        memory_init::touched_surfaces(surfaces, action, n).contains(surface) == (surfaces.take(
            n as int,
        ).contains(surface) && memory_init::touches(action, surface)),
        memory_init::untouched_surfaces(surfaces, action, n).contains(surface) == (surfaces.take(
            n as int,
        ).contains(surface) && !memory_init::touches(action, surface)),
    decreases n,
{
    if n > 0 {
        lemma_touched_surfaces(surfaces, action, (n - 1) as nat, surface);
        let last = surfaces[n - 1];
        assert(surfaces.take(n as int) =~= surfaces.take(n - 1).push(last));
        lemma_push_contains(surfaces.take(n - 1), last, surface);
        lemma_push_contains(
            memory_init::touched_surfaces(surfaces, action, (n - 1) as nat),
            last,
            surface,
        );
        lemma_push_contains(
            memory_init::untouched_surfaces(surfaces, action, (n - 1) as nat),
            last,
            surface,
        );
    }
}

proof fn lemma_push_contains<T>(items: Seq<T>, last: T, item: T)
    ensures
        items.push(last).contains(item) == (items.contains(item) || last == item),
{
    let after = items.push(last);
    if items.contains(item) {
        let k = choose|k: int| 0 <= k < items.len() && items[k] == item;
        assert(after[k] == item);
    }
    if last == item {
        assert(after[items.len() as int] == item);
    }
    if after.contains(item) && last != item {
        let k = choose|k: int| 0 <= k < after.len() && after[k] == item;
        assert(items[k] == item);
    }
}

/// An action that touches a discarded surface settles its fate: where the action reads, the surface
/// is to be cleared at once, and in any case it is not discarded any more. All other discarded
/// surfaces stay discarded, and nothing else is cleared.
pub proof fn touching_settles_discards(
    memory: TextureMemoryView,
    action: TextureInitTrackerAction,
    surface: TextureSurfaceDiscard,
)
    ensures
        memory.register_init_action(action).0.discards.contains(surface) == (
        memory.discards.contains(surface) && !memory_init::touches(action, surface)),
        memory.register_init_action(action).1.contains(surface) == (memory.discards.contains(
            surface,
        ) && memory_init::touches(action, surface) && action.kind
            == MemoryInitKind::NeedsInitializedMemory),
{
    lemma_touched_surfaces(memory.discards, action, memory.discards.len(), surface);
    assert(memory.discards.take(memory.discards.len() as int) =~= memory.discards);
}

/// The call clears the surface.
pub open spec fn clears_surface(call: RawView, surface: TextureSurfaceDiscard) -> bool {
    call == (RawView::ClearSurface {
        texture: surface.texture.id,
        mip_level: surface.mip_level,
        layer: surface.layer,
    })
}

proof fn lemma_clear_surfaces(
    before: RecordingView,
    surfaces: Seq<TextureSurfaceDiscard>,
    n: nat,
)
    requires
        n <= surfaces.len(),
    ensures
        warrant::extends(before.raw, before.clear_surfaces(surfaces, n).raw),
        forall|i: int|
            0 <= i < n ==> is_cleared(
                before.raw.len(),
                before.clear_surfaces(surfaces, n).raw,
                #[trigger] surfaces[i],
            ),
    decreases n,
{
    if n > 0 {
        lemma_clear_surfaces(before, surfaces, (n - 1) as nat);
        let mid = before.clear_surfaces(surfaces, (n - 1) as nat).raw;
        let after = before.clear_surfaces(surfaces, n).raw;
        assert forall|i: int| 0 <= i < n implies is_cleared(
            before.raw.len(),
            after,
            #[trigger] surfaces[i],
        ) by {
            if i < n - 1 {
                let p = choose|p: int|
                    before.raw.len() <= p < mid.len() && clears_surface(
                        #[trigger] mid[p],
                        surfaces[i],
                    );
                assert(after[p] == mid[p]);
            } else {
                assert(clears_surface(after[mid.len() as int + 1], surfaces[i]));
            }
        }
    }
}

/// One of the calls from `from` on clears the surface.
pub open spec fn is_cleared(from: nat, calls: Seq<RawView>, surface: TextureSurfaceDiscard) -> bool {
    exists|p: int| from <= p < calls.len() && clears_surface(#[trigger] calls[p], surface)
}

/// What happens before a pass includes that each surface that the pass needs cleared is cleared.
pub proof fn surfaces_are_cleared_before_the_pass(
    before: RecordingView,
    pass: TrackerView,
    surfaces: Seq<TextureSurfaceDiscard>,
    i: int,
)
    requires
        0 <= i < surfaces.len(),
    ensures
        is_cleared(before.raw.len(), before.transit(pass, surfaces).raw, surfaces[i]),
{
    lemma_clear_surfaces(before, surfaces, surfaces.len());
    let cleared = before.clear_surfaces(surfaces, surfaces.len()).raw;
    let after = before.transit(pass, surfaces).raw;
    let p = choose|p: int|
        before.raw.len() <= p < cleared.len() && clears_surface(
            #[trigger] cleared[p],
            surfaces[i],
        );
    assert(after[p] == cleared[p]);
}

/// One of the actions takes care of the position of the buffer.
pub open spec fn is_noted(
    actions: Seq<BufferInitTrackerAction>,
    buffer: Arc<Buffer>,
    kind: MemoryInitKind,
    position: int,
) -> bool {
    exists|k: int|
        0 <= k < actions.len() && (#[trigger] actions[k]).buffer == buffer && actions[k].kind
            == kind && actions[k].range.has(position)
}

/// The position of the buffer was never written.
pub open spec fn is_unwritten(buffer: Arc<Buffer>, position: int) -> bool {
    exists|i: int|
        0 <= i < buffer.initialization_status.uninitialized_ranges@.len()
            && #[trigger] buffer.initialization_status.uninitialized_ranges@[i].has(position)
}

proof fn lemma_action_covers(
    buffer: Arc<Buffer>,
    range: InitRange,
    kind: MemoryInitKind,
    position: int,
)
    requires
        init_tracker::ranges_ascend(buffer.initialization_status.uninitialized_ranges@),
        is_unwritten(buffer, position),
        range.has(position),
    ensures
        memory_init::buffer_action_needed(buffer, range, kind) is Some,
        memory_init::buffer_action_needed(buffer, range, kind)->0.range.has(position),
{
    let ranges = buffer.initialization_status.uninitialized_ranges@;
    init_tracker::uninitialized_part_covers(ranges, range);
    let i = choose|i: int| 0 <= i < ranges.len() && #[trigger] ranges[i].has(position);
    assert(ranges[i].has(position));
}

proof fn lemma_actions_cover(
    touched: Seq<BufferInitTrackerAction>,
    n: nat,
    j: int,
    position: int,
)
    requires
        0 <= j < n <= touched.len(),
        init_tracker::ranges_ascend(
            touched[j].buffer.initialization_status.uninitialized_ranges@,
        ),
        is_unwritten(touched[j].buffer, position),
        touched[j].range.has(position),
    ensures
        is_noted(
            memory_init::buffer_actions_needed(touched, n),
            touched[j].buffer,
            touched[j].kind,
            position,
        ),
    decreases n,
{
    let before = memory_init::buffer_actions_needed(touched, (n - 1) as nat);
    let after = memory_init::buffer_actions_needed(touched, n);
    if j < n - 1 {
        lemma_actions_cover(touched, (n - 1) as nat, j, position);
        let k = choose|k: int|
            0 <= k < before.len() && (#[trigger] before[k]).buffer == touched[j].buffer
                && before[k].kind == touched[j].kind && before[k].range.has(position);
        assert(after[k] == before[k]);
    } else {
        lemma_action_covers(touched[j].buffer, touched[j].range, touched[j].kind, position);
        assert(after[before.len() as int].range.has(position));
    }
}

/// Once a group is bound, each position of a buffer that the group touches and that was never written
/// is noted to be taken care of.
pub proof fn unwritten_memory_of_groups_is_noted(
    s: RunView,
    env: PassEnv,
    index: u32,
    num_dynamic_offsets: usize,
    group: Arc<BindGroup>,
    j: int,
    position: int,
)
    requires
        0 <= j < group.used_buffer_ranges@.len(),
        init_tracker::ranges_ascend(
            group.used_buffer_ranges@[j].buffer.initialization_status.uninitialized_ranges@,
        ),
        is_unwritten(group.used_buffer_ranges@[j].buffer, position),
        group.used_buffer_ranges@[j].range.has(position),
    ensures
        s.set_bind_group(env, index, num_dynamic_offsets, group) matches Step::Done(t) ==> is_noted(
            t.out.buffer_inits,
            group.used_buffer_ranges@[j].buffer,
            group.used_buffer_ranges@[j].kind,
            position,
        ),
{
    let touched = group.used_buffer_ranges@;
    lemma_actions_cover(touched, touched.len(), j, position);
    let needed = memory_init::buffer_actions_needed(touched, touched.len());
    let k = choose|k: int|
        0 <= k < needed.len() && (#[trigger] needed[k]).buffer == touched[j].buffer
            && needed[k].kind == touched[j].kind && needed[k].range.has(position);
    if let Step::Done(t) = s.set_bind_group(env, index, num_dynamic_offsets, group) {
        assert(t.out.buffer_inits == s.out.buffer_inits + needed);
        assert(t.out.buffer_inits[s.out.buffer_inits.len() + k] == needed[k]);
    }
}

/// An indirect dispatch notes each byte of its arguments that was never written.
pub proof fn unwritten_arguments_are_noted(
    s: RunView,
    env: PassEnv,
    buffer: Arc<Buffer>,
    offset: BufferAddress,
    position: int,
)
    requires
        init_tracker::ranges_ascend(buffer.initialization_status.uninitialized_ranges@),
        is_unwritten(buffer, position),
        offset <= position < offset + DISPATCH_INDIRECT_ARGS_SIZE,
    ensures
        s.dispatch_indirect(env, buffer, offset) matches Step::Done(t) ==> is_noted(
            t.out.buffer_inits,
            buffer,
            MemoryInitKind::NeedsInitializedMemory,
            position,
        ),
{
    if let Step::Done(t) = s.dispatch_indirect(env, buffer, offset) {
        let range = InitRange {
            start: offset,
            end: (offset + DISPATCH_INDIRECT_ARGS_SIZE) as u64,
        };
        lemma_action_covers(buffer, range, MemoryInitKind::NeedsInitializedMemory, position);
        let k = s.out.buffer_inits.len() as int;
        assert(t.out.buffer_inits[k].range.has(position));
    }
}

/// The surface is among the layers and mip levels that the action touches.
pub open spec fn reaches(action: TextureInitTrackerAction, surface: TextureSurfaceDiscard) -> bool {
    &&& action.texture.id == surface.texture.id
    &&& action.range.mip_start <= surface.mip_level
    &&& surface.mip_level < action.range.mip_end
    &&& action.range.layer_start <= surface.layer
    &&& surface.layer < action.range.layer_end
}

/// One of the first `n` actions reaches the surface.
pub open spec fn is_reached(
    actions: Seq<TextureInitTrackerAction>,
    surface: TextureSurfaceDiscard,
    n: nat,
) -> bool {
    exists|j: int| 0 <= j < n && reaches(#[trigger] actions[j], surface)
}

/// The first of the first `n` actions that reaches the surface reads it.
pub open spec fn is_read_first(
    actions: Seq<TextureInitTrackerAction>,
    surface: TextureSurfaceDiscard,
    n: nat,
) -> bool {
    exists|j: int|
        {
            &&& 0 <= j < n
            &&& reaches(#[trigger] actions[j], surface)
            &&& actions[j].kind == MemoryInitKind::NeedsInitializedMemory
            &&& !is_reached(actions, surface, j as nat)
        }
}

proof fn lemma_add_contains<T>(left: Seq<T>, right: Seq<T>, item: T)
    ensures
        (left + right).contains(item) == (left.contains(item) || right.contains(item)),
{
    let all = left + right;
    if left.contains(item) {
        let k = choose|k: int| 0 <= k < left.len() && left[k] == item;
        assert(all[k] == item);
    }
    if right.contains(item) {
        let k = choose|k: int| 0 <= k < right.len() && right[k] == item;
        assert(all[left.len() + k] == item);
    }
    if all.contains(item) {
        let k = choose|k: int| 0 <= k < all.len() && all[k] == item;
        if k < left.len() {
            assert(left[k] == item);
        } else {
            assert(right[k - left.len()] == item);
        }
    }
}

proof fn lemma_actions_settle(
    memory: TextureMemoryView,
    actions: Seq<TextureInitTrackerAction>,
    fixups: Seq<TextureSurfaceDiscard>,
    n: nat,
    surface: TextureSurfaceDiscard,
)
    requires
        n <= actions.len(),
    ensures
        memory.register_init_actions(actions, fixups, n).0.discards.contains(surface) == (
        memory.discards.contains(surface) && !is_reached(actions, surface, n)),
        memory.register_init_actions(actions, fixups, n).1.contains(surface) == (
        fixups.contains(surface) || memory.discards.contains(surface) && is_read_first(
            actions,
            surface,
            n,
        )),
    decreases n,
{
    if n > 0 {
        let m = (n - 1) as nat;
        lemma_actions_settle(memory, actions, fixups, m, surface);
        let (before, sofar) = memory.register_init_actions(actions, fixups, m);
        let action = actions[n - 1];
        touching_settles_discards(before, action, surface);
        lemma_add_contains(sofar, before.register_init_action(action).1, surface);
        assert(memory_init::touches(action, surface) == reaches(action, surface));
        if is_reached(actions, surface, m) {
            let j = choose|j: int| 0 <= j < m && reaches(#[trigger] actions[j], surface);
            assert(reaches(actions[j], surface) && j < n);
        }
        if is_read_first(actions, surface, m) {
            let j = choose|j: int|
                {
                    &&& 0 <= j < m
                    &&& reaches(#[trigger] actions[j], surface)
                    &&& actions[j].kind == MemoryInitKind::NeedsInitializedMemory
                    &&& !is_reached(actions, surface, j as nat)
                };
            assert(reaches(actions[j], surface) && j < n);
        }
    }
}

/// Once a group is bound, no surface that one of its actions reaches is discarded any more, and all others
/// are as before. Each of them that is read before it is written has to be cleared before the pass, and
/// nothing else.
pub proof fn discards_of_groups_are_settled(
    s: RunView,
    env: PassEnv,
    index: u32,
    num_dynamic_offsets: usize,
    group: Arc<BindGroup>,
    surface: TextureSurfaceDiscard,
)
    ensures
        s.set_bind_group(env, index, num_dynamic_offsets, group) matches Step::Done(t) ==> {
            let actions = group.used_texture_ranges@;
            &&& t.out.texture_memory.discards.contains(surface) == (
            s.out.texture_memory.discards.contains(surface) && !is_reached(
                actions,
                surface,
                actions.len(),
            ))
            &&& t.fixups.contains(surface) == (s.fixups.contains(surface) || (
            s.out.texture_memory.discards.contains(surface) && is_read_first(
                actions,
                surface,
                actions.len(),
            )))
        },
{
    let actions = group.used_texture_ranges@;
    lemma_actions_settle(s.out.texture_memory, actions, s.fixups, actions.len(), surface);
}

/// The layer of the mip level of the texture was never written.
pub open spec fn is_layer_unwritten(texture: Arc<Texture>, mip: int, layer: int) -> bool {
    &&& 0 <= mip < texture.initialization_status@.len()
    &&& exists|i: int|
        0 <= i < texture.initialization_status@[mip].uninitialized_ranges@.len() && (
        #[trigger] texture.initialization_status@[mip].uninitialized_ranges@[i]).start <= layer
            && layer < texture.initialization_status@[mip].uninitialized_ranges@[i].end
}

/// The range holds the layer of the mip level.
pub open spec fn range_has(range: TextureInitRange, mip: int, layer: int) -> bool {
    &&& range.mip_start <= mip < range.mip_end
    &&& range.layer_start <= layer < range.layer_end
}

proof fn lemma_unwritten_mips(
    texture: Arc<Texture>,
    range: TextureInitRange,
    n: nat,
    mip: int,
    layer: int,
)
    requires
        n <= texture.initialization_status@.len(),
    ensures
        memory_init::uninitialized_mips(texture.initialization_status@, range, n) matches Some(
            found,
        ) ==> {
            &&& range.mip_start <= found.mip_start < found.mip_end <= range.mip_end
            &&& found.mip_end <= n
            &&& found.layer_end <= range.layer_end
        },
        range_has(range, mip, layer) && is_layer_unwritten(texture, mip, layer) && mip < n
            && init_tracker::ranges_ascend(
            texture.initialization_status@[mip].uninitialized_ranges@,
        ) ==> (memory_init::uninitialized_mips(texture.initialization_status@, range, n) matches Some(
            found,
        ) && range_has(found, mip, layer)),
    decreases n,
{
    if n > 0 {
        let mips = texture.initialization_status@;
        lemma_unwritten_mips(texture, range, (n - 1) as nat, mip, layer);
        if range.mip_start <= n - 1 < range.mip_end {
            let ranges = mips[n - 1].uninitialized_ranges@;
            let query = InitRange { start: range.layer_start as u64, end: range.layer_end as u64 };
            if init_tracker::ranges_ascend(ranges) && mip == n - 1 && is_layer_unwritten(
                texture,
                mip,
                layer,
            ) && range_has(range, mip, layer) {
                init_tracker::uninitialized_part_covers(ranges, query);
                let i = choose|i: int|
                    0 <= i < ranges.len() && (#[trigger] ranges[i]).start <= layer && layer
                        < ranges[i].end;
                assert(ranges[i].has(layer));
            }
        }
    }
}

proof fn lemma_registering_appends(
    memory: TextureMemoryView,
    actions: Seq<TextureInitTrackerAction>,
    fixups: Seq<TextureSurfaceDiscard>,
    n: nat,
    m: nat,
)
    requires
        n <= m,
    ensures
        ({
            let before = memory.register_init_actions(actions, fixups, n).0.init_actions;
            let after = memory.register_init_actions(actions, fixups, m).0.init_actions;
            &&& before.len() <= after.len()
            &&& forall|k: int| 0 <= k < before.len() ==> #[trigger] after[k] == before[k]
        }),
    decreases m,
{
    if n < m {
        lemma_registering_appends(memory, actions, fixups, n, (m - 1) as nat);
    }
}

/// Once a group is bound, each layer of a texture that one of its actions touches and that was never written
/// is noted to be taken care of.
pub proof fn unwritten_layers_of_groups_are_noted(
    s: RunView,
    env: PassEnv,
    index: u32,
    num_dynamic_offsets: usize,
    group: Arc<BindGroup>,
    j: int,
    mip: int,
    layer: int,
)
    requires
        0 <= j < group.used_texture_ranges@.len(),
        range_has(group.used_texture_ranges@[j].range, mip, layer),
        is_layer_unwritten(group.used_texture_ranges@[j].texture, mip, layer),
        init_tracker::ranges_ascend(
            group.used_texture_ranges@[j].texture.initialization_status@[mip].uninitialized_ranges@,
        ),
    ensures
        s.set_bind_group(env, index, num_dynamic_offsets, group) matches Step::Done(t) ==> exists|
            k: int,
        |
            {
                &&& 0 <= k < t.out.texture_memory.init_actions.len()
                &&& (#[trigger] t.out.texture_memory.init_actions[k]).texture
                    == group.used_texture_ranges@[j].texture
                &&& t.out.texture_memory.init_actions[k].kind == group.used_texture_ranges@[j].kind
                &&& range_has(t.out.texture_memory.init_actions[k].range, mip, layer)
            },
{
    if let Step::Done(t) = s.set_bind_group(env, index, num_dynamic_offsets, group) {
        let actions = group.used_texture_ranges@;
        let action = actions[j];
        let memory = s.out.texture_memory;
        let mips = action.texture.initialization_status@;
        lemma_unwritten_mips(action.texture, action.range, mips.len(), mip, layer);
        let before = memory.register_init_actions(actions, s.fixups, j as nat).0;
        let after = memory.register_init_actions(actions, s.fixups, (j + 1) as nat).0;
        let k = before.init_actions.len() as int;
        assert(range_has(after.init_actions[k].range, mip, layer));
        lemma_registering_appends(memory, actions, s.fixups, (j + 1) as nat, actions.len());
        assert(t.out.texture_memory == memory.register_init_actions(
            actions,
            s.fixups,
            actions.len(),
        ).0);
        assert(t.out.texture_memory.init_actions[k] == after.init_actions[k]);
    }
}

/// The action on a texture was called for: it is within what one of the actions of the group touches, or says
/// of a discarded surface that is cleared that it counts as written.
pub open spec fn is_called_for(
    noted: TextureInitTrackerAction,
    actions: Seq<TextureInitTrackerAction>,
    discards: Seq<TextureSurfaceDiscard>,
) -> bool {
    ||| exists|j: int|
        {
            &&& 0 <= j < actions.len()
            &&& noted.texture == (#[trigger] actions[j]).texture
            &&& noted.kind == actions[j].kind
            &&& actions[j].range.mip_start <= noted.range.mip_start
            &&& noted.range.mip_end <= actions[j].range.mip_end
            &&& noted.range.layer_end <= actions[j].range.layer_end
            &&& noted.range.mip_start < noted.range.mip_end
            &&& noted.range.layer_start < noted.range.layer_end
        }
    ||| exists|k: int|
        {
            &&& 0 <= k < discards.len()
            &&& noted.texture == (#[trigger] discards[k]).texture
            &&& noted.kind == MemoryInitKind::ImplicitlyInitialized
            &&& is_read_first(actions, discards[k], actions.len())
            &&& noted.range.mip_start == discards[k].mip_level
            &&& noted.range.mip_end == discards[k].mip_level + 1
            &&& noted.range.layer_start == discards[k].layer
            &&& noted.range.layer_end == discards[k].layer + 1
        }
}

proof fn lemma_registered_is_called_for(
    memory: TextureMemoryView,
    actions: Seq<TextureInitTrackerAction>,
    fixups: Seq<TextureSurfaceDiscard>,
    n: nat,
)
    requires
        n <= actions.len(),
    ensures
        forall|p: int|
            memory.init_actions.len() <= p < memory.register_init_actions(
                actions,
                fixups,
                n,
            ).0.init_actions.len() ==> is_called_for(
                #[trigger] memory.register_init_actions(actions, fixups, n).0.init_actions[p],
                actions,
                memory.discards,
            ),
    decreases n,
{
    if n > 0 {
        let m = (n - 1) as nat;
        lemma_registered_is_called_for(memory, actions, fixups, m);
        lemma_registering_appends(memory, actions, fixups, 0, m);
        lemma_registering_appends(memory, actions, fixups, m, n);
        let before = memory.register_init_actions(actions, fixups, m).0;
        let after = memory.register_init_actions(actions, fixups, n).0;
        let action = actions[n - 1];
        let touched = memory_init::touched_surfaces(
            before.discards,
            action,
            before.discards.len(),
        );
        let mips = action.texture.initialization_status@;
        lemma_unwritten_mips(action.texture, action.range, mips.len(), 0, 0);
        let checked: int = if memory_init::texture_action_needed(
            action.texture,
            action.range,
            action.kind,
        ) is Some {
            1
        } else {
            0
        };
        assert forall|p: int| memory.init_actions.len() <= p < after.init_actions.len() implies
            is_called_for(#[trigger] after.init_actions[p], actions, memory.discards) by {
            let noted = after.init_actions[p];
            if p < before.init_actions.len() {
                assert(noted == before.init_actions[p]);
            } else if p < before.init_actions.len() + checked {
                assert(noted.texture == actions[n - 1].texture);
            } else {
                let q = p - before.init_actions.len() - checked;
                let surface = touched[q];
                assert(touched.contains(surface));
                assert(noted == memory_init::marks_initialized(surface));
                touching_settles_discards(before, action, surface);
                lemma_actions_settle(memory, actions, fixups, m, surface);
                assert(memory.discards.contains(surface));
                let k = choose|k: int| 0 <= k < memory.discards.len() && memory.discards[k]
                    == surface;
                assert(reaches(actions[n - 1], surface));
                assert(is_read_first(actions, surface, actions.len()));
                assert(memory.discards[k].texture == noted.texture);
            }
        }
    }
}

/// Binding a group notes nothing about textures that is not called for, and forgets nothing that was noted.
pub proof fn only_what_is_called_for_is_noted(
    s: RunView,
    env: PassEnv,
    index: u32,
    num_dynamic_offsets: usize,
    group: Arc<BindGroup>,
)
    ensures
        s.set_bind_group(env, index, num_dynamic_offsets, group) matches Step::Done(t) ==> {
            let before = s.out.texture_memory.init_actions;
            let after = t.out.texture_memory.init_actions;
            &&& before.len() <= after.len()
            &&& forall|p: int| 0 <= p < before.len() ==> #[trigger] after[p] == before[p]
            &&& forall|p: int|
                before.len() <= p < after.len() ==> is_called_for(
                    #[trigger] after[p],
                    group.used_texture_ranges@,
                    s.out.texture_memory.discards,
                )
        },
{
    let actions = group.used_texture_ranges@;
    lemma_registered_is_called_for(s.out.texture_memory, actions, s.fixups, actions.len());
    lemma_registering_appends(s.out.texture_memory, actions, s.fixups, 0, actions.len());
}

/// The action on a buffer was called for: it is within what one of the actions of the group touches, and
/// begins where the buffer was never written.
pub open spec fn is_buffer_called_for(
    noted: BufferInitTrackerAction,
    touched: Seq<BufferInitTrackerAction>,
) -> bool {
    exists|j: int|
        {
            &&& 0 <= j < touched.len()
            &&& noted.buffer == (#[trigger] touched[j]).buffer
            &&& noted.kind == touched[j].kind
            &&& touched[j].range.start <= noted.range.start
            &&& noted.range.start < noted.range.end
            &&& noted.range.end <= touched[j].range.end
            &&& is_unwritten(noted.buffer, noted.range.start as int)
        }
}

/// What is touched is not empty, and the unwritten parts of the buffers are in order.
pub open spec fn is_orderly(touched: Seq<BufferInitTrackerAction>) -> bool {
    forall|j: int|
        0 <= j < touched.len() ==> (#[trigger] touched[j]).range.start < touched[j].range.end
            && init_tracker::ranges_ascend(
            touched[j].buffer.initialization_status.uninitialized_ranges@,
        )
}

proof fn lemma_needed_is_called_for(touched: Seq<BufferInitTrackerAction>, n: nat)
    requires
        n <= touched.len(),
        is_orderly(touched),
    ensures
        forall|p: int|
            0 <= p < memory_init::buffer_actions_needed(touched, n).len() ==> is_buffer_called_for(
                #[trigger] memory_init::buffer_actions_needed(touched, n)[p],
                touched,
            ),
    decreases n,
{
    if n > 0 {
        lemma_needed_is_called_for(touched, (n - 1) as nat);
        let before = memory_init::buffer_actions_needed(touched, (n - 1) as nat);
        let after = memory_init::buffer_actions_needed(touched, n);
        let last = touched[n - 1];
        let ranges = last.buffer.initialization_status.uninitialized_ranges@;
        init_tracker::uninitialized_part_covers(ranges, last.range);
        assert forall|p: int| 0 <= p < after.len() implies is_buffer_called_for(
            #[trigger] after[p],
            touched,
        ) by {
            if p < before.len() {
                assert(after[p] == before[p]);
            } else {
                assert(after[p].buffer == touched[n - 1].buffer);
            }
        }
    }
}

/// Binding a group notes nothing about buffers that is not called for, and forgets nothing that was noted.
pub proof fn only_buffers_called_for_are_noted(
    s: RunView,
    env: PassEnv,
    index: u32,
    num_dynamic_offsets: usize,
    group: Arc<BindGroup>,
)
    requires
        is_orderly(group.used_buffer_ranges@),
    ensures
        s.set_bind_group(env, index, num_dynamic_offsets, group) matches Step::Done(t) ==> {
            let before = s.out.buffer_inits;
            let after = t.out.buffer_inits;
            &&& before.len() <= after.len()
            &&& forall|p: int| 0 <= p < before.len() ==> #[trigger] after[p] == before[p]
            &&& forall|p: int|
                before.len() <= p < after.len() ==> is_buffer_called_for(
                    #[trigger] after[p],
                    group.used_buffer_ranges@,
                )
        },
{
    let touched = group.used_buffer_ranges@;
    let needed = memory_init::buffer_actions_needed(touched, touched.len());
    lemma_needed_is_called_for(touched, touched.len());
    if let Step::Done(t) = s.set_bind_group(env, index, num_dynamic_offsets, group) {
        let before = s.out.buffer_inits;
        let after = t.out.buffer_inits;
        assert(after == before + needed);
        assert forall|p: int| before.len() <= p < after.len() implies is_buffer_called_for(
            #[trigger] after[p],
            touched,
        ) by {
            assert(after[p] == needed[p - before.len()]);
        }
    }
}

/// Each discarded surface that is read before it is written counts as written once it is cleared.
pub proof fn cleared_surfaces_count_as_written(
    memory: TextureMemoryView,
    actions: Seq<TextureInitTrackerAction>,
    fixups: Seq<TextureSurfaceDiscard>,
    n: nat,
    surface: TextureSurfaceDiscard,
)
    requires
        n <= actions.len(),
        memory.discards.contains(surface),
        is_read_first(actions, surface, n),
    ensures
        ({
            let noted = memory.register_init_actions(actions, fixups, n).0.init_actions;
            exists|k: int|
                {
                    &&& 0 <= k < noted.len()
                    &&& (#[trigger] noted[k]).texture == surface.texture
                    &&& noted[k].kind == MemoryInitKind::ImplicitlyInitialized
                    &&& noted[k].range.mip_start == surface.mip_level
                    &&& noted[k].range.mip_end == surface.mip_level + 1
                    &&& noted[k].range.layer_start == surface.layer
                    &&& noted[k].range.layer_end == surface.layer + 1
                }
        }),
{
    let j = choose|j: int|
        {
            &&& 0 <= j < n
            &&& reaches(#[trigger] actions[j], surface)
            &&& actions[j].kind == MemoryInitKind::NeedsInitializedMemory
            &&& !is_reached(actions, surface, j as nat)
        };
    let before = memory.register_init_actions(actions, fixups, j as nat).0;
    let after = memory.register_init_actions(actions, fixups, (j + 1) as nat).0;
    lemma_actions_settle(memory, actions, fixups, j as nat, surface);
    touching_settles_discards(before, actions[j], surface);
    let touched = memory_init::touched_surfaces(
        before.discards,
        actions[j],
        before.discards.len(),
    );
    assert(touched.contains(surface));
    let q = choose|q: int| 0 <= q < touched.len() && touched[q] == surface;
    let k = after.init_actions.len() - touched.len() + q;
    assert(after.init_actions[k] == memory_init::marks_initialized(surface));
    lemma_registering_appends(memory, actions, fixups, (j + 1) as nat, n);
    let noted = memory.register_init_actions(actions, fixups, n).0.init_actions;
    assert(noted[k] == after.init_actions[k]);
}

/// An indirect dispatch notes nothing but unwritten bytes of its arguments, and forgets nothing that was noted.
pub proof fn only_arguments_are_noted(
    s: RunView,
    env: PassEnv,
    buffer: Arc<Buffer>,
    offset: BufferAddress,
)
    requires
        init_tracker::ranges_ascend(buffer.initialization_status.uninitialized_ranges@),
    ensures
        s.dispatch_indirect(env, buffer, offset) matches Step::Done(t) ==> {
            let before = s.out.buffer_inits;
            let after = t.out.buffer_inits;
            ||| after == before
            ||| {
                &&& after == before.push(after.last())
                &&& after.last().buffer == buffer
                &&& after.last().kind == MemoryInitKind::NeedsInitializedMemory
                &&& offset <= after.last().range.start
                &&& after.last().range.start < after.last().range.end
                &&& after.last().range.end <= offset + 12
                &&& is_unwritten(buffer, after.last().range.start as int)
            }
        },
{
    let range = InitRange { start: offset, end: (offset + DISPATCH_INDIRECT_ARGS_SIZE) as u64 };
    init_tracker::uninitialized_part_covers(
        buffer.initialization_status.uninitialized_ranges@,
        range,
    );
}

/// At `p` transitions are made, and behind them the surface is cleared.
pub open spec fn clears_at(calls: Seq<RawView>, p: int, surface: TextureSurfaceDiscard) -> bool {
    &&& calls[p] is TransitionTextures
    &&& clears_surface(calls[p + 1], surface)
}

/// The surfaces that have to be cleared before a pass are cleared one after the other, each once, each behind the
/// transitions that bring it into the state to be cleared in. Nothing else is cleared.
pub proof fn surfaces_are_cleared_one_by_one(
    before: RecordingView,
    surfaces: Seq<TextureSurfaceDiscard>,
    n: nat,
)
    requires
        n <= surfaces.len(),
    ensures
        ({
            let after = before.clear_surfaces(surfaces, n);
            &&& after.raw.len() == before.raw.len() + 2 * n
            &&& warrant::extends(before.raw, after.raw)
            &&& forall|i: int|
                0 <= i < n ==> clears_at(
                    after.raw,
                    before.raw.len() + 2 * i,
                    #[trigger] surfaces[i],
                )
            &&& n > 0 ==> after.trackers.textures.pending.len() == 0
            &&& n > 0 ==> usage::last_use(after.trackers.textures.uses, surfaces[n - 1].slot)
                == Some(surfaces[n - 1].clear_uses)
            &&& after.trackers.buffers == before.trackers.buffers
            &&& after.buffer_inits == before.buffer_inits
            &&& after.texture_memory == before.texture_memory
        }),
    decreases n,
{
    if n > 0 {
        surfaces_are_cleared_one_by_one(before, surfaces, (n - 1) as nat);
        let mid = before.clear_surfaces(surfaces, (n - 1) as nat);
        let after = before.clear_surfaces(surfaces, n);
        let surface = surfaces[n - 1];
        assert forall|i: int| 0 <= i < n implies clears_at(
            after.raw,
            before.raw.len() + 2 * i,
            #[trigger] surfaces[i],
        ) by {
            if i < n - 1 {
                assert(clears_at(mid.raw, before.raw.len() + 2 * i, surfaces[i]));
            }
        }
        usage::lemma_set_uses(
            mid.trackers.textures,
            ResourceKind::Texture,
            surface.slot,
            surface.clear_uses,
            surface.clear_uses,
            surface.slot,
        );
    }
}

/// One of the layers `start..end` of the mip level was never written.
pub open spec fn has_unwritten_layer(texture: Arc<Texture>, mip: int, start: int, end: int) -> bool {
    exists|layer: int| start <= layer < end && #[trigger] is_layer_unwritten(texture, mip, layer)
}

/// The layer was never written in one of the mip levels.
pub open spec fn is_unwritten_somewhere(
    texture: Arc<Texture>,
    mip_start: int,
    mip_end: int,
    layer: int,
) -> bool {
    exists|mip: int|
        mip_start <= mip < mip_end && #[trigger] is_layer_unwritten(texture, mip, layer)
}

/// The ranges of the texture that were never written are in order.
pub open spec fn is_texture_orderly(texture: Arc<Texture>) -> bool {
    forall|mip: int|
        0 <= mip < texture.initialization_status@.len() ==> init_tracker::ranges_ascend(
            (#[trigger] texture.initialization_status@[mip]).uninitialized_ranges@,
        )
}

/// The found range holds an unwritten layer in its first and its last mip level, and begins with one.
pub open spec fn is_tight(texture: Arc<Texture>, range: TextureInitRange, found: TextureInitRange) -> bool {
    &&& range.layer_start <= found.layer_start < found.layer_end <= range.layer_end
    &&& range.mip_start <= found.mip_start < found.mip_end <= range.mip_end
    &&& has_unwritten_layer(
        texture,
        found.mip_start as int,
        found.layer_start as int,
        found.layer_end as int,
    )
    &&& has_unwritten_layer(
        texture,
        found.mip_end - 1,
        found.layer_start as int,
        found.layer_end as int,
    )
    &&& is_unwritten_somewhere(
        texture,
        found.mip_start as int,
        found.mip_end as int,
        found.layer_start as int,
    )
}

proof fn lemma_found_mips_are_tight(texture: Arc<Texture>, range: TextureInitRange, n: nat)
    requires
        is_texture_orderly(texture),
        range.layer_start < range.layer_end,
        n <= texture.initialization_status@.len(),
    ensures
        memory_init::uninitialized_mips(texture.initialization_status@, range, n) matches Some(
            found,
        ) ==> is_tight(texture, range, found) && found.mip_end <= n,
    decreases n,
{
    if n > 0 {
        let mips = texture.initialization_status@;
        let query = InitRange { start: range.layer_start as u64, end: range.layer_end as u64 };
        lemma_found_mips_are_tight(texture, range, (n - 1) as nat);
        let before = memory_init::uninitialized_mips(mips, range, (n - 1) as nat);
        let after = memory_init::uninitialized_mips(mips, range, n);
        let ranges = mips[n - 1].uninitialized_ranges@;
        init_tracker::uninitialized_part_covers(ranges, query);
        if range.mip_start <= n - 1 < range.mip_end {
            if let Some(part) = init_tracker::uninitialized_part(ranges, query) {
                let i = choose|i: int|
                    0 <= i < ranges.len() && #[trigger] ranges[i].has(part.start as int);
                assert(texture.initialization_status@[n - 1].uninitialized_ranges@[i] == ranges[i]);
                assert(is_layer_unwritten(texture, n - 1, part.start as int));
                if let Some(earlier) = before {
                    let found = after->0;
                    let layer = choose|layer: int|
                        earlier.layer_start <= layer < earlier.layer_end
                            && #[trigger] is_layer_unwritten(
                            texture,
                            earlier.mip_start as int,
                            layer,
                        );
                    assert(is_layer_unwritten(texture, found.mip_start as int, layer));
                    let mip = choose|mip: int|
                        earlier.mip_start <= mip < earlier.mip_end && #[trigger] is_layer_unwritten(
                            texture,
                            mip,
                            earlier.layer_start as int,
                        );
                    if found.layer_start == earlier.layer_start {
                        assert(is_layer_unwritten(texture, mip, found.layer_start as int));
                    } else {
                        assert(is_layer_unwritten(texture, n - 1, found.layer_start as int));
                    }
                }
            }
        }
    }
}

/// What is noted of a texture is no more than it has to be: it lies within what is touched, its first and its last
/// mip level hold an unwritten layer, and its first layer is unwritten in one of them. Nothing is noted where all
/// that is touched was written.
pub proof fn noted_layers_are_needed(
    texture: Arc<Texture>,
    range: TextureInitRange,
    kind: MemoryInitKind,
)
    requires
        is_texture_orderly(texture),
        range.layer_start < range.layer_end,
    ensures
        memory_init::texture_action_needed(texture, range, kind) matches Some(action) ==> {
            &&& action.texture == texture
            &&& action.kind == kind
            &&& is_tight(texture, range, action.range)
        },
{
    lemma_found_mips_are_tight(texture, range, texture.initialization_status@.len());
}

} // verus!
