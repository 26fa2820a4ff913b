//! How the resources of a pass are used, and the transitions between one use and the next.
//!
//! A tracked resource occupies a slot: a buffer occupies one, a texture one for each of its
//! subresources. A *usage scope* collects the uses of the slots that one dispatch touches. A
//! *usage tracker* remembers, for each slot, the first and the last use of it in a stretch of
//! commands, and collects the transitions that have to happen in between.
use crate::id::{BufferId, TextureId, TrackerIndex};
use vstd::prelude::*;

verus! {

/// What occupies a slot.
#[derive(Clone, Copy, Debug, PartialEq, Eq, Structural)]
pub enum ResourceKind {
    Buffer,
    Texture,
}

/// A buffer is read by the host.
pub const BUFFER_MAP_READ: u16 = 0x1;

/// A buffer is written by the host.
pub const BUFFER_MAP_WRITE: u16 = 0x2;

/// A buffer is the source of a copy.
pub const BUFFER_COPY_SRC: u16 = 0x4;

/// A buffer is the destination of a copy.
pub const BUFFER_COPY_DST: u16 = 0x8;

/// A buffer is bound as a uniform.
pub const BUFFER_UNIFORM: u16 = 0x40;

/// A buffer is bound as read-only storage.
pub const BUFFER_STORAGE_READ: u16 = 0x80;

/// A buffer is bound as writable storage.
pub const BUFFER_STORAGE_READ_WRITE: u16 = 0x100;

/// A buffer holds the arguments of an indirect dispatch.
pub const BUFFER_INDIRECT: u16 = 0x200;

/// A texture is the destination of a copy.
pub const TEXTURE_COPY_DST: u16 = 0x8;

/// A texture is sampled.
pub const TEXTURE_RESOURCE: u16 = 0x10;

/// A texture is bound as writable storage.
pub const TEXTURE_STORAGE_READ_WRITE: u16 = 0x200;

/// The buffer uses that tolerate no other use beside them: host writes, copies into the buffer and
/// writable storage.
pub const BUFFER_EXCLUSIVE_USES: u16 = 0x10a;

/// The buffer uses that the hardware keeps in order by itself.
pub const BUFFER_ORDERED_USES: u16 = 0x2f7;

/// The texture uses that tolerate no other use beside them.
pub const TEXTURE_EXCLUSIVE_USES: u16 = 0x3aa;

/// The texture uses that the hardware keeps in order by itself.
pub const TEXTURE_ORDERED_USES: u16 = 0x1f4;

/// The uses of a resource of `kind` that tolerate no other use beside them.
pub open spec fn exclusive_uses(kind: ResourceKind) -> u16 {
    match kind {
        ResourceKind::Buffer => BUFFER_EXCLUSIVE_USES,
        ResourceKind::Texture => TEXTURE_EXCLUSIVE_USES,
    }
}

/// The uses of a resource of `kind` that the hardware keeps in order by itself.
pub open spec fn ordered_uses(kind: ResourceKind) -> u16 {
    match kind {
        ResourceKind::Buffer => BUFFER_ORDERED_USES,
        ResourceKind::Texture => TEXTURE_ORDERED_USES,
    }
}

/// Exactly one use is in the set.
pub open spec fn is_single_use(uses: u16) -> bool {
    uses != 0 && uses & ((uses - 1) as u16) == 0
}

/// An exclusive use has company.
pub open spec fn is_conflicting(kind: ResourceKind, uses: u16) -> bool {
    uses & exclusive_uses(kind) != 0 && !is_single_use(uses)
}

/// No transition is needed between the uses `from` and `to`: they are the same, and the hardware
/// keeps all of them in order.
pub open spec fn needs_no_transition(kind: ResourceKind, from: u16, to: u16) -> bool {
    from == to && from & !ordered_uses(kind) == 0
}

/// A slot, the object that occupies it, and how it is used.
#[derive(Clone, Copy, Debug, PartialEq, Eq, Structural)]
pub struct ResourceUse {
    pub index: TrackerIndex,
    pub id: u64,
    pub uses: u16,
}

/// The first and the last use of a slot in a stretch of commands.
#[derive(Clone, Copy, Debug, PartialEq, Eq, Structural)]
pub struct TrackedUse {
    pub index: TrackerIndex,
    pub start: u16,
    pub end: u16,
}

/// A change of the use of a slot that the graphics backend has to be told of.
#[derive(Clone, Copy, Debug, PartialEq, Eq, Structural)]
pub struct Transition {
    pub index: TrackerIndex,
    pub from: u16,
    pub to: u16,
}

/// Two uses of one slot that cannot be had at once.
#[derive(Clone, Copy, Debug, PartialEq, Eq, Structural)]
pub struct InvalidUse {
    pub current_state: u16,
    pub new_state: u16,
}

/// A resource is used in two ways that exclude each other.
#[derive(Clone, Copy, Debug, PartialEq, Eq, Structural)]
pub enum UsageConflict {
    Buffer { buffer: BufferId, invalid_use: InvalidUse },
    Texture { texture: TextureId, invalid_use: InvalidUse },
}

/// The conflict that a resource of `kind` causes.
pub open spec fn conflict_of(kind: ResourceKind, id: u64, invalid_use: InvalidUse) -> UsageConflict {
    match kind {
        ResourceKind::Buffer => UsageConflict::Buffer { buffer: BufferId(id), invalid_use },
        ResourceKind::Texture => UsageConflict::Texture { texture: TextureId(id), invalid_use },
    }
}

fn make_conflict(kind: ResourceKind, id: u64, invalid_use: InvalidUse) -> (r: UsageConflict)
    ensures
        r == conflict_of(kind, id, invalid_use),
{
    match kind {
        ResourceKind::Buffer => UsageConflict::Buffer { buffer: BufferId(id), invalid_use },
        ResourceKind::Texture => UsageConflict::Texture { texture: TextureId(id), invalid_use },
    }
}

fn conflicting(kind: ResourceKind, uses: u16) -> (r: bool)
    ensures
        r == is_conflicting(kind, uses),
{
    let exclusive: u16 = match kind {
        ResourceKind::Buffer => BUFFER_EXCLUSIVE_USES,
        ResourceKind::Texture => TEXTURE_EXCLUSIVE_USES,
    };
    uses & exclusive != 0 && (uses == 0 || uses & (uses - 1) != 0)
}

fn no_transition_needed(kind: ResourceKind, from: u16, to: u16) -> (r: bool)
    ensures
        r == needs_no_transition(kind, from, to),
{
    let ordered: u16 = match kind {
        ResourceKind::Buffer => BUFFER_ORDERED_USES,
        ResourceKind::Texture => TEXTURE_ORDERED_USES,
    };
    from == to && from & !ordered == 0
}

/// The position, among the first `n` entries, of the first that is about slot `index`.
pub open spec fn use_position(uses: Seq<ResourceUse>, index: TrackerIndex, n: nat) -> Option<int>
    decreases n,
{
    if n == 0 {
        None
    } else {
        match use_position(uses, index, (n - 1) as nat) {
            Some(k) => Some(k),
            None => if uses[n - 1].index == index {
                Some(n - 1)
            } else {
                None
            },
        }
    }
}

/// The position of the entry about slot `index`.
pub open spec fn find_use(uses: Seq<ResourceUse>, index: TrackerIndex) -> Option<int> {
    use_position(uses, index, uses.len())
}

pub(crate) proof fn lemma_use_position_stays(uses: Seq<ResourceUse>, index: TrackerIndex, n: nat, m: nat)
    requires
        n <= m,
        use_position(uses, index, n) is Some,
    ensures
        use_position(uses, index, m) == use_position(uses, index, n),
    decreases m,
{
    if n < m {
        lemma_use_position_stays(uses, index, n, (m - 1) as nat);
    }
}

/// What [`use_position`] means: the entry that it points at is about the slot and no earlier one is.
pub proof fn lemma_use_position(uses: Seq<ResourceUse>, index: TrackerIndex, n: nat)
    requires
        n <= uses.len(),
    ensures
        match use_position(uses, index, n) {
            Some(k) => 0 <= k < n && uses[k].index == index && forall|j: int|
                0 <= j < k ==> uses[j].index != index,
            None => forall|j: int| 0 <= j < n ==> uses[j].index != index,
        },
    decreases n,
{
    if n > 0 {
        lemma_use_position(uses, index, (n - 1) as nat);
    }
}

fn find_use_exec(uses: &Vec<ResourceUse>, index: TrackerIndex) -> (r: Option<usize>)
    ensures
        r is Some == find_use(uses@, index) is Some,
        r matches Some(k) ==> find_use(uses@, index) == Some(k as int) && k < uses.len(),
{
    let mut i: usize = 0;
    while i < uses.len()
        invariant
            i <= uses.len(),
            use_position(uses@, index, i as nat) is None,
        decreases uses.len() - i,
    {
        if uses[i].index == index {
            proof {
                lemma_use_position_stays(uses@, index, (i + 1) as nat, uses@.len());
            }
            return Some(i);
        }
        i = i + 1;
    }
    None
}

/// Adds one use to a scope: a new slot enters the scope as it is, the use of a slot that is there
/// already is widened, unless that puts an exclusive use beside another one.
pub open spec fn merge_use(uses: Seq<ResourceUse>, kind: ResourceKind, new: ResourceUse) -> Result<
    Seq<ResourceUse>,
    UsageConflict,
> {
    match find_use(uses, new.index) {
        None => Ok(uses.push(new)),
        Some(k) => {
            let merged = uses[k].uses | new.uses;
            if is_conflicting(kind, merged) {
                Err(
                    conflict_of(
                        kind,
                        new.id,
                        InvalidUse { current_state: uses[k].uses, new_state: new.uses },
                    ),
                )
            } else {
                Ok(uses.update(k, ResourceUse { uses: merged, ..uses[k] }))
            }
        },
    }
}

/// The scope after the first `n` of `added` were merged into it one by one, and the conflict that
/// put an end to this, if any.
pub open spec fn merge_uses(
    uses: Seq<ResourceUse>,
    kind: ResourceKind,
    added: Seq<ResourceUse>,
    n: nat,
) -> (Seq<ResourceUse>, Option<UsageConflict>)
    decreases n,
{
    if n == 0 {
        (uses, None)
    } else {
        let (before, conflict) = merge_uses(uses, kind, added, (n - 1) as nat);
        if conflict is Some {
            (before, conflict)
        } else {
            match merge_use(before, kind, added[n - 1]) {
                Ok(after) => (after, None),
                Err(e) => (before, Some(e)),
            }
        }
    }
}

pub(crate) proof fn lemma_merge_conflict_stays(
    uses: Seq<ResourceUse>,
    kind: ResourceKind,
    added: Seq<ResourceUse>,
    n: nat,
    m: nat,
)
    requires
        n <= m,
        merge_uses(uses, kind, added, n).1 is Some,
    ensures
        merge_uses(uses, kind, added, m) == merge_uses(uses, kind, added, n),
    decreases m,
{
    if n < m {
        lemma_merge_conflict_stays(uses, kind, added, n, (m - 1) as nat);
    }
}

fn merge_use_exec(uses: &mut Vec<ResourceUse>, kind: ResourceKind, new: ResourceUse) -> (r: Result<
    (),
    UsageConflict,
>)
    ensures
        match merge_use(old(uses)@, kind, new) {
            Ok(after) => r is Ok && final(uses)@ == after,
            Err(e) => r == Err::<(), UsageConflict>(e) && final(uses)@ == old(uses)@,
        },
{
    match find_use_exec(uses, new.index) {
        None => {
            uses.push(new);
            Ok(())
        },
        Some(k) => {
            let current: ResourceUse = uses[k];
            let merged: u16 = current.uses | new.uses;
            if conflicting(kind, merged) {
                return Err(
                    make_conflict(
                        kind,
                        new.id,
                        InvalidUse { current_state: current.uses, new_state: new.uses },
                    ),
                );
            }
            uses[k] = ResourceUse { index: current.index, id: current.id, uses: merged };
            Ok(())
        },
    }
}

fn merge_uses_exec(uses: &mut Vec<ResourceUse>, kind: ResourceKind, added: &Vec<ResourceUse>) -> (r:
    Result<(), UsageConflict>)
    ensures
        final(uses)@ == merge_uses(old(uses)@, kind, added@, added@.len()).0,
        match merge_uses(old(uses)@, kind, added@, added@.len()).1 {
            None => r is Ok,
            Some(e) => r == Err::<(), UsageConflict>(e),
        },
{
    let ghost start = uses@;
    let mut i: usize = 0;
    while i < added.len()
        invariant
            i <= added.len(),
            start == old(uses)@,
            merge_uses(start, kind, added@, i as nat) == (uses@, None::<UsageConflict>),
        decreases added.len() - i,
    {
        match merge_use_exec(uses, kind, added[i]) {
            Ok(()) => {},
            Err(e) => {
                proof {
                    lemma_merge_conflict_stays(start, kind, added@, (i + 1) as nat, added@.len());
                }
                return Err(e);
            },
        }
        i = i + 1;
    }
    Ok(())
}

/// The uses that a bind group makes of its resources.
#[derive(Debug)]
pub struct BindGroupStates {
    pub buffers: Vec<ResourceUse>,
    pub textures: Vec<ResourceUse>,
}

/// The uses of the slots that the next dispatch touches.
#[derive(Debug)]
pub struct UsageScope {
    pub buffers: Vec<ResourceUse>,
    pub textures: Vec<ResourceUse>,
}

/// The contents of a [`UsageScope`].
#[verifier::ext_equal]
pub struct ScopeView {
    pub buffers: Seq<ResourceUse>,
    pub textures: Seq<ResourceUse>,
}

impl View for UsageScope {
    type V = ScopeView;

    open spec fn view(&self) -> ScopeView {
        ScopeView { buffers: self.buffers@, textures: self.textures@ }
    }
}

impl ScopeView {
    /// Merges the uses of a bind group: its buffers first, and its textures where no buffer is in
    /// conflict.
    pub open spec fn merge_bind_group(self, added: BindGroupStates) -> (
        ScopeView,
        Option<UsageConflict>,
    ) {
        let (buffers, conflict) = merge_uses(
            self.buffers,
            ResourceKind::Buffer,
            added.buffers@,
            added.buffers@.len(),
        );
        if conflict is Some {
            (ScopeView { buffers, ..self }, conflict)
        } else {
            let (textures, conflict) = merge_uses(
                self.textures,
                ResourceKind::Texture,
                added.textures@,
                added.textures@.len(),
            );
            (ScopeView { buffers, textures }, conflict)
        }
    }
}

impl UsageScope {
    /// A scope that no slot is in.
    pub fn new() -> (r: Self)
        ensures
            r@.buffers == Seq::<ResourceUse>::empty(),
            r@.textures == Seq::<ResourceUse>::empty(),
    {
        UsageScope { buffers: Vec::new(), textures: Vec::new() }
    }

    /// Adds the uses that a bind group makes of its resources.
    pub fn merge_bind_group(&mut self, added: &BindGroupStates) -> (r: Result<(), UsageConflict>)
        ensures
            final(self)@ == old(self)@.merge_bind_group(*added).0,
            match old(self)@.merge_bind_group(*added).1 {
                None => r is Ok,
                Some(e) => r == Err::<(), UsageConflict>(e),
            },
    {
        match merge_uses_exec(&mut self.buffers, ResourceKind::Buffer, &added.buffers) {
            Ok(()) => {},
            Err(e) => {
                return Err(e);
            },
        }
        merge_uses_exec(&mut self.textures, ResourceKind::Texture, &added.textures)
    }

    /// Adds the use of one buffer.
    pub fn insert_merge_buffer(&mut self, new: ResourceUse) -> (r: Result<(), UsageConflict>)
        ensures
            final(self)@.textures == old(self)@.textures,
            match merge_use(old(self)@.buffers, ResourceKind::Buffer, new) {
                Ok(after) => r is Ok && final(self)@.buffers == after,
                Err(e) => r == Err::<(), UsageConflict>(e) && final(self)@.buffers == old(
                    self,
                )@.buffers,
            },
    {
        merge_use_exec(&mut self.buffers, ResourceKind::Buffer, new)
    }
}

/// The position, among the first `n` entries, of the first that is about slot `index`.
pub open spec fn tracked_position(uses: Seq<TrackedUse>, index: TrackerIndex, n: nat) -> Option<int>
    decreases n,
{
    if n == 0 {
        None
    } else {
        match tracked_position(uses, index, (n - 1) as nat) {
            Some(k) => Some(k),
            None => if uses[n - 1].index == index {
                Some(n - 1)
            } else {
                None
            },
        }
    }
}

/// The position of the entry about slot `index`.
pub open spec fn find_tracked(uses: Seq<TrackedUse>, index: TrackerIndex) -> Option<int> {
    tracked_position(uses, index, uses.len())
}

proof fn lemma_tracked_position_stays(uses: Seq<TrackedUse>, index: TrackerIndex, n: nat, m: nat)
    requires
        n <= m,
        tracked_position(uses, index, n) is Some,
    ensures
        tracked_position(uses, index, m) == tracked_position(uses, index, n),
    decreases m,
{
    if n < m {
        lemma_tracked_position_stays(uses, index, n, (m - 1) as nat);
    }
}

/// The uses of the slots of one kind in a stretch of commands.
#[derive(Debug)]
pub struct UsageTracker {
    pub uses: Vec<TrackedUse>,
    pub pending: Vec<Transition>,
}

/// The contents of a [`UsageTracker`].
#[verifier::ext_equal]
pub struct UsageTrackerView {
    pub uses: Seq<TrackedUse>,
    pub pending: Seq<Transition>,
}

impl View for UsageTracker {
    type V = UsageTrackerView;

    open spec fn view(&self) -> UsageTrackerView {
        UsageTrackerView { uses: self.uses@, pending: self.pending@ }
    }
}

impl UsageTrackerView {
    /// Nothing is tracked.
    pub open spec fn empty() -> Self {
        UsageTrackerView { uses: Seq::empty(), pending: Seq::empty() }
    }

    /// The slot `index` is used as `start` first and as `end` last. A new slot enters the tracker;
    /// one that is there already goes from its last use to `start`, by a transition where one is
    /// needed.
    pub open spec fn set(self, kind: ResourceKind, index: TrackerIndex, start: u16, end: u16) -> Self {
        match find_tracked(self.uses, index) {
            None => UsageTrackerView { uses: self.uses.push(TrackedUse { index, start, end }), ..self },
            Some(k) => {
                let from = self.uses[k].end;
                UsageTrackerView {
                    uses: self.uses.update(k, TrackedUse { end, ..self.uses[k] }),
                    pending: if needs_no_transition(kind, from, start) {
                        self.pending
                    } else {
                        self.pending.push(Transition { index, from, to: start })
                    },
                }
            },
        }
    }

    /// For each of the first `n` of `slots` that is in `scope`, moves its use from the scope into
    /// the tracker. Returns the tracker and what is left of the scope.
    pub open spec fn take_from_scope(
        self,
        kind: ResourceKind,
        scope: Seq<ResourceUse>,
        slots: Seq<TrackerIndex>,
        n: nat,
    ) -> (Self, Seq<ResourceUse>)
        decreases n,
    {
        if n == 0 {
            (self, scope)
        } else {
            let (tracker, left) = self.take_from_scope(kind, scope, slots, (n - 1) as nat);
            match find_use(left, slots[n - 1]) {
                None => (tracker, left),
                Some(k) => (
                    tracker.set(kind, slots[n - 1], left[k].uses, left[k].uses),
                    left.remove(k),
                ),
            }
        }
    }

    /// Appends the first `n` slots of another stretch of commands.
    pub open spec fn set_from_tracker(self, kind: ResourceKind, later: Seq<TrackedUse>, n: nat) -> Self
        decreases n,
    {
        if n == 0 {
            self
        } else {
            self.set_from_tracker(kind, later, (n - 1) as nat).set(
                kind,
                later[n - 1].index,
                later[n - 1].start,
                later[n - 1].end,
            )
        }
    }
}

/// The slots of a sequence of uses.
pub open spec fn slots_of(uses: Seq<ResourceUse>) -> Seq<TrackerIndex> {
    Seq::new(uses.len(), |i: int| uses[i].index)
}

impl UsageTracker {
    /// A tracker of nothing.
    pub fn new() -> (r: Self)
        ensures
            r@ == UsageTrackerView::empty(),
    {
        UsageTracker { uses: Vec::new(), pending: Vec::new() }
    }

    fn find(&self, index: TrackerIndex) -> (r: Option<usize>)
        ensures
            r is Some == find_tracked(self.uses@, index) is Some,
            r matches Some(k) ==> find_tracked(self.uses@, index) == Some(k as int) && k
                < self.uses.len(),
    {
        let mut i: usize = 0;
        while i < self.uses.len()
            invariant
                i <= self.uses.len(),
                tracked_position(self.uses@, index, i as nat) is None,
            decreases self.uses.len() - i,
        {
            if self.uses[i].index == index {
                proof {
                    lemma_tracked_position_stays(
                        self.uses@,
                        index,
                        (i + 1) as nat,
                        self.uses@.len(),
                    );
                }
                return Some(i);
            }
            i = i + 1;
        }
        None
    }

    /// Notes that the slot `index` is used as `start` first and as `end` last.
    pub fn set(&mut self, kind: ResourceKind, index: TrackerIndex, start: u16, end: u16)
        ensures
            final(self)@ == old(self)@.set(kind, index, start, end),
    {
        match self.find(index) {
            None => {
                self.uses.push(TrackedUse { index, start, end });
            },
            Some(k) => {
                let current: TrackedUse = self.uses[k];
                if !no_transition_needed(kind, current.end, start) {
                    self.pending.push(Transition { index, from: current.end, to: start });
                }
                self.uses[k] = TrackedUse { index: current.index, start: current.start, end };
            },
        }
    }

    /// Moves the use of the slot `index` from `scope` into the tracker, if it is in the scope.
    pub fn take_slot_from_scope(
        &mut self,
        kind: ResourceKind,
        scope: &mut Vec<ResourceUse>,
        index: TrackerIndex,
    )
        ensures
            (final(self)@, final(scope)@) == old(self)@.take_from_scope(
                kind,
                old(scope)@,
                seq![index],
                1,
            ),
    {
        proof {
            reveal_with_fuel(UsageTrackerView::take_from_scope, 2);
        }
        match find_use_exec(scope, index) {
            None => {},
            Some(k) => {
                let current: ResourceUse = scope[k];
                self.set(kind, index, current.uses, current.uses);
                scope.remove(k);
            },
        }
    }

    /// Moves the uses of the slots of `used` from `scope` into the tracker.
    pub fn take_from_scope(
        &mut self,
        kind: ResourceKind,
        scope: &mut Vec<ResourceUse>,
        used: &Vec<ResourceUse>,
    )
        ensures
            (final(self)@, final(scope)@) == old(self)@.take_from_scope(
                kind,
                old(scope)@,
                slots_of(used@),
                used@.len(),
            ),
    {
        let ghost tracker = self@;
        let ghost whole = scope@;
        let mut i: usize = 0;
        while i < used.len()
            invariant
                i <= used.len(),
                (self@, scope@) == tracker.take_from_scope(kind, whole, slots_of(used@), i as nat),
            decreases used.len() - i,
        {
            let index: TrackerIndex = used[i].index;
            match find_use_exec(scope, index) {
                None => {},
                Some(k) => {
                    let current: ResourceUse = scope[k];
                    self.set(kind, index, current.uses, current.uses);
                    scope.remove(k);
                },
            }
            i = i + 1;
        }
    }

    /// Appends the uses of a later stretch of commands.
    pub fn set_from_tracker(&mut self, kind: ResourceKind, later: &UsageTracker)
        ensures
            final(self)@ == old(self)@.set_from_tracker(kind, later.uses@, later.uses@.len()),
    {
        let ghost tracker = self@;
        let mut i: usize = 0;
        while i < later.uses.len()
            invariant
                i <= later.uses.len(),
                self@ == tracker.set_from_tracker(kind, later.uses@, i as nat),
            decreases later.uses.len() - i,
        {
            let entry: TrackedUse = later.uses[i];
            self.set(kind, entry.index, entry.start, entry.end);
            i = i + 1;
        }
    }

    /// Hands out the transitions that have piled up.
    pub fn drain_transitions(&mut self) -> (r: Vec<Transition>)
        ensures
            r@ == old(self)@.pending,
            final(self)@ == (UsageTrackerView { pending: Seq::empty(), ..old(self)@ }),
    {
        let mut drained: Vec<Transition> = Vec::new();
        drained.append(&mut self.pending);
        drained
    }
}

/// `ids` with `id` at the end, unless it is there already.
pub open spec fn insert_once(ids: Seq<u64>, id: u64) -> Seq<u64> {
    if ids.contains(id) {
        ids
    } else {
        ids.push(id)
    }
}

/// Objects that a command buffer has to keep alive.
#[derive(Debug)]
pub struct StatelessTracker {
    pub ids: Vec<u64>,
}

impl View for StatelessTracker {
    type V = Seq<u64>;

    open spec fn view(&self) -> Seq<u64> {
        self.ids@
    }
}

impl StatelessTracker {
    /// A tracker of nothing.
    pub fn new() -> (r: Self)
        ensures
            r@ == Seq::<u64>::empty(),
    {
        StatelessTracker { ids: Vec::new() }
    }

    /// Adds an object; one that is there already is not added again.
    pub fn insert_single(&mut self, id: u64)
        ensures
            final(self)@ == insert_once(old(self)@, id),
    {
        let mut i: usize = 0;
        while i < self.ids.len()
            invariant
                i <= self.ids.len(),
                self.ids@ == old(self).ids@,
                forall|j: int| 0 <= j < i ==> self.ids@[j] != id,
            decreases self.ids.len() - i,
        {
            if self.ids[i] == id {
                return;
            }
            i = i + 1;
        }
        self.ids.push(id);
    }
}

/// Everything that a command buffer tracks.
#[derive(Debug)]
pub struct Tracker {
    pub buffers: UsageTracker,
    pub textures: UsageTracker,
    pub bind_groups: StatelessTracker,
    pub compute_pipelines: StatelessTracker,
    pub query_sets: StatelessTracker,
}

/// The contents of a [`Tracker`].
#[verifier::ext_equal]
pub struct TrackerView {
    pub buffers: UsageTrackerView,
    pub textures: UsageTrackerView,
    pub bind_groups: Seq<u64>,
    pub compute_pipelines: Seq<u64>,
    pub query_sets: Seq<u64>,
}

impl View for Tracker {
    type V = TrackerView;

    open spec fn view(&self) -> TrackerView {
        TrackerView {
            buffers: self.buffers@,
            textures: self.textures@,
            bind_groups: self.bind_groups@,
            compute_pipelines: self.compute_pipelines@,
            query_sets: self.query_sets@,
        }
    }
}

impl TrackerView {
    /// Nothing is tracked.
    pub open spec fn empty() -> Self {
        TrackerView {
            buffers: UsageTrackerView::empty(),
            textures: UsageTrackerView::empty(),
            bind_groups: Seq::empty(),
            compute_pipelines: Seq::empty(),
            query_sets: Seq::empty(),
        }
    }
}

impl Tracker {
    /// A tracker of nothing.
    pub fn new() -> (r: Self)
        ensures
            r@ == TrackerView::empty(),
    {
        Tracker {
            buffers: UsageTracker::new(),
            textures: UsageTracker::new(),
            bind_groups: StatelessTracker::new(),
            compute_pipelines: StatelessTracker::new(),
            query_sets: StatelessTracker::new(),
        }
    }
}

} // verus!
