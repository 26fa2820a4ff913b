//! The memory that has to be zeroed before, or in the middle of, the commands of a command buffer.
use crate::id::TrackerIndex;
use crate::init_tracker;
use crate::init_tracker::{InitRange, InitTracker, MemoryInitKind};
use crate::resource::{share, Buffer, Texture};
use std::sync::Arc;
use vstd::prelude::*;

verus! {

/// A command touches a range of a buffer.
#[derive(Debug)]
pub struct BufferInitTrackerAction {
    pub buffer: Arc<Buffer>,
    pub range: InitRange,
    pub kind: MemoryInitKind,
}

/// What has to be done before a command touches `range` of `buffer`, if anything.
pub open spec fn buffer_action_needed(
    buffer: Arc<Buffer>,
    range: InitRange,
    kind: MemoryInitKind,
) -> Option<BufferInitTrackerAction> {
    match init_tracker::uninitialized_part(buffer.initialization_status.uninitialized_ranges@, range) {
        Some(part) => Some(BufferInitTrackerAction { buffer, range: part, kind }),
        None => None,
    }
}

/// What has to be done before a command touches `range` of `buffer`, if anything.
pub fn create_buffer_action(buffer: &Arc<Buffer>, range: InitRange, kind: MemoryInitKind) -> (r:
    Option<BufferInitTrackerAction>)
    ensures
        r == buffer_action_needed(*buffer, range, kind),
{
    match buffer.initialization_status.check(range) {
        Some(part) => Some(BufferInitTrackerAction { buffer: share(buffer), range: part, kind }),
        None => None,
    }
}

/// The actions that the first `n` of `touched` call for.
pub open spec fn buffer_actions_needed(touched: Seq<BufferInitTrackerAction>, n: nat) -> Seq<
    BufferInitTrackerAction,
>
    decreases n,
{
    if n == 0 {
        Seq::empty()
    } else {
        let before = buffer_actions_needed(touched, (n - 1) as nat);
        let last = touched[n - 1];
        match buffer_action_needed(last.buffer, last.range, last.kind) {
            Some(action) => before.push(action),
            None => before,
        }
    }
}

/// Appends to `actions` what the ranges in `touched` call for.
pub fn extend_buffer_actions(
    actions: &mut Vec<BufferInitTrackerAction>,
    touched: &Vec<BufferInitTrackerAction>,
)
    ensures
        final(actions)@ == old(actions)@ + buffer_actions_needed(touched@, touched@.len()),
{
    let ghost start = actions@;
    assert(actions@ =~= start + buffer_actions_needed(touched@, 0));
    let mut i: usize = 0;
    while i < touched.len()
        invariant
            i <= touched.len(),
            actions@ == start + buffer_actions_needed(touched@, i as nat),
        decreases touched.len() - i,
    {
        let action: &BufferInitTrackerAction = &touched[i];
        match create_buffer_action(&action.buffer, action.range, action.kind) {
            Some(needed) => {
                actions.push(needed);
            },
            None => {},
        }
        i = i + 1;
        assert(actions@ =~= start + buffer_actions_needed(touched@, i as nat));
    }
}

/// Mip levels and layers of a texture.
#[derive(Clone, Copy, Debug, PartialEq, Eq, Structural)]
pub struct TextureInitRange {
    pub mip_start: u32,
    pub mip_end: u32,
    pub layer_start: u32,
    pub layer_end: u32,
}

/// A command touches a range of a texture.
#[derive(Debug)]
pub struct TextureInitTrackerAction {
    pub texture: Arc<Texture>,
    pub range: TextureInitRange,
    pub kind: MemoryInitKind,
}

/// A surface whose contents were thrown away earlier in the command buffer.
#[derive(Debug)]
pub struct TextureSurfaceDiscard {
    pub texture: Arc<Texture>,
    pub mip_level: u32,
    pub layer: u32,
    /// The slot of the surface in the usage trackers.
    pub slot: TrackerIndex,
    /// How the surface is used while it is being cleared.
    pub clear_uses: u16,
}

/// The smallest range that holds `sofar` and the layers `found` of mip level `mip`.
pub open spec fn widen(sofar: Option<TextureInitRange>, mip: int, found: InitRange) -> TextureInitRange {
    match sofar {
        None => TextureInitRange {
            mip_start: mip as u32,
            mip_end: (mip + 1) as u32,
            layer_start: found.start as u32,
            layer_end: found.end as u32,
        },
        Some(range) => TextureInitRange {
            mip_start: range.mip_start,
            mip_end: (mip + 1) as u32,
            layer_start: if found.start < range.layer_start {
                found.start as u32
            } else {
                range.layer_start
            },
            layer_end: if found.end > range.layer_end {
                found.end as u32
            } else {
                range.layer_end
            },
        },
    }
}

/// The unwritten layers of `range`, over those of the first `n` mip levels that are in it.
pub open spec fn uninitialized_mips(mips: Seq<InitTracker>, range: TextureInitRange, n: nat) -> Option<
    TextureInitRange,
>
    decreases n,
{
    if n == 0 {
        None
    } else {
        let before = uninitialized_mips(mips, range, (n - 1) as nat);
        if range.mip_start <= n - 1 < range.mip_end {
            match init_tracker::uninitialized_part(
                mips[n - 1].uninitialized_ranges@,
                InitRange { start: range.layer_start as u64, end: range.layer_end as u64 },
            ) {
                Some(found) => Some(widen(before, n - 1, found)),
                None => before,
            }
        } else {
            before
        }
    }
}

/// What has to be done before a command touches `range` of `texture`, if anything.
pub open spec fn texture_action_needed(
    texture: Arc<Texture>,
    range: TextureInitRange,
    kind: MemoryInitKind,
) -> Option<TextureInitTrackerAction> {
    let mips = texture.initialization_status@;
    match uninitialized_mips(mips, range, mips.len()) {
        Some(found) => if found.layer_start < found.layer_end {
            Some(TextureInitTrackerAction { texture, range: found, kind })
        } else {
            None
        },
        None => None,
    }
}

/// What has to be done before a command performs `action`, if anything.
pub fn check_texture_action(action: &TextureInitTrackerAction) -> (r: Option<
    TextureInitTrackerAction,
>)
    ensures
        r == texture_action_needed(action.texture, action.range, action.kind),
{
    let range: TextureInitRange = action.range;
    let ghost mips = action.texture.initialization_status@;
    let query: InitRange = InitRange {
        start: range.layer_start as u64,
        end: range.layer_end as u64,
    };
    let mut found: Option<TextureInitRange> = None;
    let mut i: usize = 0;
    while i < action.texture.initialization_status.len()
        invariant
            i <= action.texture.initialization_status.len(),
            mips == action.texture.initialization_status@,
            query == (InitRange { start: range.layer_start as u64, end: range.layer_end as u64 }),
            found == uninitialized_mips(mips, range, i as nat),
        decreases action.texture.initialization_status.len() - i,
    {
        if range.mip_start as usize <= i && i < range.mip_end as usize {
            match action.texture.initialization_status[i].check(query) {
                Some(part) => {
                    let mip: u32 = i as u32;
                    let start: u32 = part.start as u32;
                    let end: u32 = part.end as u32;
                    found =
                    Some(
                        match found {
                            None => TextureInitRange {
                                mip_start: mip,
                                mip_end: mip + 1,
                                layer_start: start,
                                layer_end: end,
                            },
                            Some(sofar) => TextureInitRange {
                                mip_start: sofar.mip_start,
                                mip_end: mip + 1,
                                layer_start: if start < sofar.layer_start {
                                    start
                                } else {
                                    sofar.layer_start
                                },
                                layer_end: if end > sofar.layer_end {
                                    end
                                } else {
                                    sofar.layer_end
                                },
                            },
                        },
                    );
                },
                None => {},
            }
        }
        i = i + 1;
    }
    match found {
        Some(part) => if part.layer_start < part.layer_end {
            Some(
                TextureInitTrackerAction {
                    texture: share(&action.texture),
                    range: part,
                    kind: action.kind,
                },
            )
        } else {
            None
        },
        None => None,
    }
}

/// The action touches the discarded surface.
pub open spec fn touches(action: TextureInitTrackerAction, surface: TextureSurfaceDiscard) -> bool {
    &&& surface.texture.id == action.texture.id
    &&& action.range.layer_start <= surface.layer < action.range.layer_end
    &&& action.range.mip_start <= surface.mip_level < action.range.mip_end
}

/// The surfaces, among the first `n`, that the action touches.
pub open spec fn touched_surfaces(
    surfaces: Seq<TextureSurfaceDiscard>,
    action: TextureInitTrackerAction,
    n: nat,
) -> Seq<TextureSurfaceDiscard>
    decreases n,
{
    if n == 0 {
        Seq::empty()
    } else {
        let before = touched_surfaces(surfaces, action, (n - 1) as nat);
        if touches(action, surfaces[n - 1]) {
            before.push(surfaces[n - 1])
        } else {
            before
        }
    }
}

/// The surfaces, among the first `n`, that the action leaves alone.
pub open spec fn untouched_surfaces(
    surfaces: Seq<TextureSurfaceDiscard>,
    action: TextureInitTrackerAction,
    n: nat,
) -> Seq<TextureSurfaceDiscard>
    decreases n,
{
    if n == 0 {
        Seq::empty()
    } else {
        let before = untouched_surfaces(surfaces, action, (n - 1) as nat);
        if touches(action, surfaces[n - 1]) {
            before
        } else {
            before.push(surfaces[n - 1])
        }
    }
}

/// Notes that a surface counts as written.
pub open spec fn marks_initialized(surface: TextureSurfaceDiscard) -> TextureInitTrackerAction {
    TextureInitTrackerAction {
        texture: surface.texture,
        range: TextureInitRange {
            mip_start: surface.mip_level,
            mip_end: (surface.mip_level + 1) as u32,
            layer_start: surface.layer,
            layer_end: (surface.layer + 1) as u32,
        },
        kind: MemoryInitKind::ImplicitlyInitialized,
    }
}

/// The texture memory that a command buffer relies on.
#[derive(Debug)]
pub struct CommandBufferTextureMemoryActions {
    pub init_actions: Vec<TextureInitTrackerAction>,
    pub discards: Vec<TextureSurfaceDiscard>,
}

/// The contents of [`CommandBufferTextureMemoryActions`].
#[verifier::ext_equal]
pub struct TextureMemoryView {
    pub init_actions: Seq<TextureInitTrackerAction>,
    pub discards: Seq<TextureSurfaceDiscard>,
}

impl View for CommandBufferTextureMemoryActions {
    type V = TextureMemoryView;

    open spec fn view(&self) -> TextureMemoryView {
        TextureMemoryView { init_actions: self.init_actions@, discards: self.discards@ }
    }
}

impl TextureMemoryView {
    /// Registers that a command performs `action`. Surfaces that were discarded earlier and that the
    /// action touches are forgotten. Where the action reads, they are returned, as they have to be
    /// cleared at once, and count as written from there on.
    pub open spec fn register_init_action(self, action: TextureInitTrackerAction) -> (
        TextureMemoryView,
        Seq<TextureSurfaceDiscard>,
    ) {
        let touched = touched_surfaces(self.discards, action, self.discards.len());
        let checked = match texture_action_needed(action.texture, action.range, action.kind) {
            Some(needed) => self.init_actions.push(needed),
            None => self.init_actions,
        };
        let discards = untouched_surfaces(self.discards, action, self.discards.len());
        if action.kind == MemoryInitKind::NeedsInitializedMemory {
            (
                TextureMemoryView {
                    init_actions: checked + touched.map_values(
                        |s: TextureSurfaceDiscard| marks_initialized(s),
                    ),
                    discards,
                },
                touched,
            )
        } else {
            (TextureMemoryView { init_actions: checked, discards }, Seq::empty())
        }
    }

    /// Registers the first `n` of `actions` one after the other, collecting the surfaces that have
    /// to be cleared at once behind `fixups`.
    pub open spec fn register_init_actions(
        self,
        actions: Seq<TextureInitTrackerAction>,
        fixups: Seq<TextureSurfaceDiscard>,
        n: nat,
    ) -> (TextureMemoryView, Seq<TextureSurfaceDiscard>)
        decreases n,
    {
        if n == 0 {
            (self, fixups)
        } else {
            let (before, sofar) = self.register_init_actions(actions, fixups, (n - 1) as nat);
            let (after, touched) = before.register_init_action(actions[n - 1]);
            (after, sofar + touched)
        }
    }
}

fn share_surface(surface: &TextureSurfaceDiscard) -> (r: TextureSurfaceDiscard)
    ensures
        r == *surface,
{
    TextureSurfaceDiscard {
        texture: share(&surface.texture),
        mip_level: surface.mip_level,
        layer: surface.layer,
        slot: surface.slot,
        clear_uses: surface.clear_uses,
    }
}

impl CommandBufferTextureMemoryActions {
    /// No action is pending and no surface discarded.
    pub fn new() -> (r: Self)
        ensures
            r@.init_actions == Seq::<TextureInitTrackerAction>::empty(),
            r@.discards == Seq::<TextureSurfaceDiscard>::empty(),
    {
        CommandBufferTextureMemoryActions { init_actions: Vec::new(), discards: Vec::new() }
    }

    /// Registers that a command performs `action`, and appends to `fixups` the surfaces that have to
    /// be cleared at once.
    pub fn register_init_action(
        &mut self,
        action: &TextureInitTrackerAction,
        fixups: &mut Vec<TextureSurfaceDiscard>,
    )
        ensures
            final(self)@ == old(self)@.register_init_action(*action).0,
            final(fixups)@ == old(fixups)@ + old(self)@.register_init_action(*action).1,
    {
        let ghost before = self@;
        let ghost sofar = fixups@;
        let reads: bool = action.kind == MemoryInitKind::NeedsInitializedMemory;
        match check_texture_action(action) {
            Some(needed) => {
                self.init_actions.push(needed);
            },
            None => {},
        }
        let ghost checked = self.init_actions@;
        let ghost mark = |s: TextureSurfaceDiscard| marks_initialized(s);
        let mut kept: Vec<TextureSurfaceDiscard> = Vec::new();
        let mut i: usize = 0;
        proof {
            let none = touched_surfaces(before.discards, *action, 0);
            assert(checked =~= checked + none.map_values(mark));
            assert(sofar =~= sofar + none);
        }
        while i < self.discards.len()
            invariant
                i <= self.discards.len(),
                self.discards@ == before.discards,
                reads == (action.kind == MemoryInitKind::NeedsInitializedMemory),
                mark == (|s: TextureSurfaceDiscard| marks_initialized(s)),
                kept@ == untouched_surfaces(before.discards, *action, i as nat),
                reads ==> {
                    &&& self.init_actions@ == checked + touched_surfaces(
                        before.discards,
                        *action,
                        i as nat,
                    ).map_values(mark)
                    &&& fixups@ == sofar + touched_surfaces(before.discards, *action, i as nat)
                },
                !reads ==> self.init_actions@ == checked && fixups@ == sofar,
            decreases self.discards.len() - i,
        {
            let surface: &TextureSurfaceDiscard = &self.discards[i];
            if surface.texture.id == action.texture.id && action.range.layer_start <= surface.layer
                && surface.layer < action.range.layer_end && action.range.mip_start
                <= surface.mip_level && surface.mip_level < action.range.mip_end {
                if reads {
                    let ghost hit = touched_surfaces(before.discards, *action, i as nat);
                    let cleared: TextureSurfaceDiscard = share_surface(surface);
                    let mark_action: TextureInitTrackerAction = TextureInitTrackerAction {
                        texture: share(&surface.texture),
                        range: TextureInitRange {
                            mip_start: surface.mip_level,
                            mip_end: surface.mip_level + 1,
                            layer_start: surface.layer,
                            layer_end: surface.layer + 1,
                        },
                        kind: MemoryInitKind::ImplicitlyInitialized,
                    };
                    proof {
                        assert(mark_action == mark(cleared));
                        assert((checked + hit.map_values(mark)).push(mark_action) =~= checked
                            + hit.push(cleared).map_values(mark));
                        assert((sofar + hit).push(cleared) =~= sofar + hit.push(cleared));
                    }
                    fixups.push(cleared);
                    self.init_actions.push(mark_action);
                }
            } else {
                kept.push(share_surface(surface));
            }
            i = i + 1;
        }
        self.discards = kept;
        proof {
            assert(sofar =~= sofar + Seq::<TextureSurfaceDiscard>::empty());
        }
    }

    /// Registers `actions` one after the other, and appends to `fixups` the surfaces that have to be
    /// cleared at once.
    pub fn register_init_actions(
        &mut self,
        actions: &Vec<TextureInitTrackerAction>,
        fixups: &mut Vec<TextureSurfaceDiscard>,
    )
        ensures
            (final(self)@, final(fixups)@) == old(self)@.register_init_actions(
                actions@,
                old(fixups)@,
                actions@.len(),
            ),
    {
        let ghost before = self@;
        let ghost sofar = fixups@;
        let mut i: usize = 0;
        while i < actions.len()
            invariant
                i <= actions.len(),
                (self@, fixups@) == before.register_init_actions(actions@, sofar, i as nat),
            decreases actions.len() - i,
        {
            self.register_init_action(&actions[i], fixups);
            i = i + 1;
        }
    }
}

} // verus!
