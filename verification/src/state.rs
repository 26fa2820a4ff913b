//! The state that the commands of a pass build up for its dispatches.
use crate::bind;
use crate::bind::{Binder, BinderView};
use crate::error::{ComputePassErrorInner, DispatchError, Fault};
use crate::id::{ComputePipelineId, TrackerIndex};
use crate::raw::{RawCommand, RawEncoder, RawView};
use crate::resource::BindGroup;
use crate::storage::Storage;
use crate::track;
use crate::track::{
    ResourceKind, Tracker, TrackerView, ScopeView, Transition, UsageConflict, UsageScope,
    UsageTrackerView,
};
use crate::types::MAX_BIND_GROUPS;
use std::sync::Arc;
use vstd::prelude::*;

verus! {

/// The state that the commands of a pass build up for its dispatches.
#[derive(Debug)]
pub struct State {
    pub binder: Binder,
    pub pipeline: Option<ComputePipelineId>,
    pub scope: UsageScope,
    pub debug_scope_depth: u32,
}

/// What keeps a dispatch from being possible: a slot whose group does not fit the pipeline, a pipeline
/// that was not set, or a buffer that is too small, in this order.
pub open spec fn not_ready(binder: BinderView, pipeline: Option<ComputePipelineId>) -> Option<Fault> {
    match bind::first_invalid_slot(binder.slots, binder.slots.len()) {
        Some(i) => Some(
            Fault::IncompatibleBindGroup {
                index: i as u32,
                diff: bind::layout_diff(binder.slots[i]),
            },
        ),
        None => if pipeline is None {
            Some(
                Fault::Other(ComputePassErrorInner::Dispatch(DispatchError::MissingPipeline)),
            )
        } else {
            match binder.late_buffer_error(MAX_BIND_GROUPS as nat) {
                Some(e) => Some(
                    Fault::Other(
                        ComputePassErrorInner::Dispatch(DispatchError::BindingSizeTooSmall(e)),
                    ),
                ),
                None => None,
            }
        },
    }
}

/// How far the uses of some groups have been merged into a scope.
pub enum Merge {
    /// All of them are in.
    Merged(ScopeView),
    /// One of them is in conflict with the scope.
    Conflict(ScopeView, UsageConflict),
    /// One of the groups is gone.
    Gone,
}

/// Merges the uses of the first `n` of some groups into a scope.
pub open spec fn merge_groups(
    scope: ScopeView,
    groups: Seq<Arc<BindGroup>>,
    storage: Storage<BindGroup>,
    n: nat,
) -> Merge
    decreases n,
{
    if n == 0 {
        Merge::Merged(scope)
    } else {
        match merge_groups(scope, groups, storage, (n - 1) as nat) {
            Merge::Merged(before) => match storage.object(groups[n - 1].id.0) {
                Some(group) => {
                    let (after, conflict) = before.merge_bind_group(group.used);
                    match conflict {
                        Some(e) => Merge::Conflict(after, e),
                        None => Merge::Merged(after),
                    }
                },
                None => Merge::Gone,
            },
            other => other,
        }
    }
}

pub(crate) proof fn lemma_merge_groups_stays(
    scope: ScopeView,
    groups: Seq<Arc<BindGroup>>,
    storage: Storage<BindGroup>,
    n: nat,
    m: nat,
)
    requires
        n <= m,
        !(merge_groups(scope, groups, storage, n) is Merged),
    ensures
        merge_groups(scope, groups, storage, m) == merge_groups(scope, groups, storage, n),
    decreases m,
{
    if n < m {
        lemma_merge_groups_stays(scope, groups, storage, n, (m - 1) as nat);
    }
}

proof fn lemma_merged_groups_exist(
    scope: ScopeView,
    groups: Seq<Arc<BindGroup>>,
    storage: Storage<BindGroup>,
    n: nat,
    i: int,
)
    requires
        0 <= i < n,
        merge_groups(scope, groups, storage, n) is Merged,
    ensures
        storage.object(groups[i].id.0) is Some,
    decreases n,
{
    if i < n - 1 {
        lemma_merged_groups_exist(scope, groups, storage, (n - 1) as nat, i);
    }
}

/// What flushing the state of a pass changes.
#[verifier::ext_equal]
pub struct FlushView {
    pub scope: ScopeView,
    pub trackers: TrackerView,
    pub raw: Seq<RawView>,
}

impl FlushView {
    /// Moves the uses that the first `n` of some groups make of their resources from the scope into
    /// the trackers.
    pub open spec fn take_groups(
        self,
        groups: Seq<Arc<BindGroup>>,
        storage: Storage<BindGroup>,
        n: nat,
    ) -> Self
        decreases n,
    {
        if n == 0 {
            self
        } else {
            let before = self.take_groups(groups, storage, (n - 1) as nat);
            let used = storage.object(groups[n - 1].id.0)->0.used;
            let (buffers, buffers_left) = before.trackers.buffers.take_from_scope(
                ResourceKind::Buffer,
                before.scope.buffers,
                track::slots_of(used.buffers@),
                used.buffers@.len(),
            );
            let (textures, textures_left) = before.trackers.textures.take_from_scope(
                ResourceKind::Texture,
                before.scope.textures,
                track::slots_of(used.textures@),
                used.textures@.len(),
            );
            FlushView {
                scope: ScopeView { buffers: buffers_left, textures: textures_left },
                trackers: TrackerView { buffers, textures, ..before.trackers },
                raw: before.raw,
            }
        }
    }

    /// Moves the use of one buffer from the scope into the trackers.
    pub open spec fn take_buffer(self, index: Option<TrackerIndex>) -> Self {
        match index {
            None => self,
            Some(index) => {
                let (buffers, left) = self.trackers.buffers.take_from_scope(
                    ResourceKind::Buffer,
                    self.scope.buffers,
                    seq![index],
                    1,
                );
                FlushView {
                    scope: ScopeView { buffers: left, ..self.scope },
                    trackers: TrackerView { buffers, ..self.trackers },
                    ..self
                }
            },
        }
    }

    /// Tells the backend of the transitions that have piled up.
    pub open spec fn drain_barriers(self) -> Self {
        FlushView {
            raw: self.raw.push(RawView::TransitionBuffers(self.trackers.buffers.pending)).push(
                RawView::TransitionTextures(self.trackers.textures.pending),
            ),
            trackers: TrackerView {
                buffers: UsageTrackerView { pending: Seq::empty(), ..self.trackers.buffers },
                textures: UsageTrackerView { pending: Seq::empty(), ..self.trackers.textures },
                ..self.trackers
            },
            ..self
        }
    }
}

/// How flushing the state of a pass ends.
pub enum Flush {
    Done(FlushView),
    /// The uses of the groups are in conflict.
    Conflict(FlushView, UsageConflict),
    /// A group that is still bound is gone.
    Gone,
}

/// Flushes the state of a pass before a dispatch: the uses of all groups that are bound are merged
/// into the scope and, where that works out, moved into the trackers, together with the use of the
/// buffer that holds the arguments of the dispatch. The backend is told of the transitions.
pub open spec fn flush(
    binder: BinderView,
    storage: Storage<BindGroup>,
    indirect_buffer: Option<TrackerIndex>,
    before: FlushView,
) -> Flush {
    let groups = binder.active_groups(MAX_BIND_GROUPS as nat);
    match merge_groups(before.scope, groups, storage, groups.len()) {
        Merge::Gone => Flush::Gone,
        Merge::Conflict(scope, e) => Flush::Conflict(FlushView { scope, ..before }, e),
        Merge::Merged(scope) => Flush::Done(
            FlushView { scope, ..before }.take_groups(groups, storage, groups.len()).take_buffer(
                indirect_buffer,
            ).drain_barriers(),
        ),
    }
}

/// Tells the backend of the transitions that have piled up in some trackers.
pub fn drain_barriers(raw: &mut RawEncoder, trackers: &mut Tracker)
    ensures
        forall|scope: ScopeView|
            (FlushView { scope, trackers: final(trackers)@, raw: final(raw)@ })
                == #[trigger] (FlushView {
                scope,
                trackers: old(trackers)@,
                raw: old(raw)@,
            }).drain_barriers(),
{
    let buffers: Vec<Transition> = trackers.buffers.drain_transitions();
    let textures: Vec<Transition> = trackers.textures.drain_transitions();
    raw.record(RawCommand::TransitionBuffers(buffers));
    raw.record(RawCommand::TransitionTextures(textures));
}

impl State {
    /// The state at the beginning of a pass.
    pub fn new() -> (r: Self)
        ensures
            r.binder@ == BinderView::empty(),
            r.binder@.wf(),
            r.pipeline is None,
            r.scope@.buffers.len() == 0,
            r.scope@.textures.len() == 0,
            r.debug_scope_depth == 0,
    {
        State {
            binder: Binder::new(),
            pipeline: None,
            scope: UsageScope::new(),
            debug_scope_depth: 0,
        }
    }

    /// Checks that a dispatch is possible.
    pub fn is_ready(&self) -> (r: Result<(), DispatchError>)
        requires
            self.binder@.wf(),
        ensures
            match not_ready(self.binder@, self.pipeline) {
                None => r is Ok,
                Some(fault) => r matches Err(e) && e@ == fault,
            },
    {
        let bind_mask: u8 = self.binder.invalid_mask();
        proof {
            bind::lemma_first_invalid_slot(self.binder@.slots, self.binder@.slots.len());
            vstd::std_specs::bits::axiom_u8_trailing_zeros(bind_mask);
            assert(bind_mask == 0 ==> forall|i: int|
                0 <= i < 8 ==> !#[trigger] bind::mask_has(bind_mask, i)) by {
                if bind_mask == 0 {
                    assert forall|i: int| 0 <= i < 8 implies !#[trigger] bind::mask_has(
                        bind_mask,
                        i,
                    ) by {
                        let j = i as u8;
                        assert((0u8 >> j) & 1u8 == 0u8) by (bit_vector);
                    }
                }
            }
        }
        if bind_mask != 0 {
            let index: u32 = bind_mask.trailing_zeros();
            proof {
                assert(bind::mask_has(bind_mask, index as int));
                assert forall|j: int| 0 <= j < index implies (
                #[trigger] self.binder@.slots[j]).spec_is_valid() by {
                    let k = j as u8;
                    assert((bind_mask >> k) & 1u8 == 0u8);
                    assert(!bind::mask_has(bind_mask, j));
                }
            }
            return Err(
                DispatchError::IncompatibleBindGroup { index, diff: self.binder.bgl_diff() },
            );
        }
        proof {
            assert forall|j: int| 0 <= j < 8 implies (
            #[trigger] self.binder@.slots[j]).spec_is_valid() by {
                assert(!bind::mask_has(bind_mask, j));
            }
        }
        if self.pipeline.is_none() {
            return Err(DispatchError::MissingPipeline);
        }
        match self.binder.check_late_buffer_bindings() {
            Ok(()) => Ok(()),
            Err(e) => Err(DispatchError::from(e)),
        }
    }

    /// Merges what the bound groups use into the scope, moves it into the trackers, and tells the
    /// backend of the transitions. `indirect_buffer` is the buffer that holds the arguments of the
    /// dispatch, which is in the scope too.
    pub fn flush_states(
        &mut self,
        raw: &mut RawEncoder,
        base_trackers: &mut Tracker,
        bind_groups: &Storage<BindGroup>,
        indirect_buffer: Option<TrackerIndex>,
    ) -> (r: Result<(), UsageConflict>)
        requires
            old(self).binder@.wf(),
            !(flush(
                old(self).binder@,
                *bind_groups,
                indirect_buffer,
                FlushView {
                    scope: old(self).scope@,
                    trackers: old(base_trackers)@,
                    raw: old(raw)@,
                },
            ) is Gone),
        ensures
            final(self).binder == old(self).binder,
            final(self).pipeline == old(self).pipeline,
            final(self).debug_scope_depth == old(self).debug_scope_depth,
            match flush(
                old(self).binder@,
                *bind_groups,
                indirect_buffer,
                FlushView {
                    scope: old(self).scope@,
                    trackers: old(base_trackers)@,
                    raw: old(raw)@,
                },
            ) {
                Flush::Done(after) => {
                    &&& r is Ok
                    &&& after == (FlushView {
                        scope: final(self).scope@,
                        trackers: final(base_trackers)@,
                        raw: final(raw)@,
                    })
                },
                Flush::Conflict(after, e) => {
                    &&& r == Err::<(), UsageConflict>(e)
                    &&& after == (FlushView {
                        scope: final(self).scope@,
                        trackers: final(base_trackers)@,
                        raw: final(raw)@,
                    })
                },
                Flush::Gone => true,
            },
    {
        let ghost start = self.scope@;
        let ghost binder = self.binder@;
        let groups: Vec<Arc<BindGroup>> = self.binder.list_active();
        let ghost storage = *bind_groups;
        let mut i: usize = 0;
        while i < groups.len()
            invariant
                i <= groups.len(),
                storage == *bind_groups,
                start == old(self).scope@,
                binder == old(self).binder@,
                groups@ == binder.active_groups(MAX_BIND_GROUPS as nat),
                self.binder == old(self).binder,
                self.pipeline == old(self).pipeline,
                self.debug_scope_depth == old(self).debug_scope_depth,
                base_trackers@ == old(base_trackers)@,
                raw@ == old(raw)@,
                !(merge_groups(start, groups@, storage, groups@.len()) is Gone),
                merge_groups(start, groups@, storage, i as nat) == Merge::Merged(self.scope@),
            decreases groups.len() - i,
        {
            proof {
                if !(merge_groups(start, groups@, storage, (i + 1) as nat) is Merged) {
                    lemma_merge_groups_stays(
                        start,
                        groups@,
                        storage,
                        (i + 1) as nat,
                        groups@.len(),
                    );
                }
            }
            match bind_groups.get(groups[i].id.0) {
                Some(group) => {
                    match self.scope.merge_bind_group(&group.used) {
                        Ok(()) => {},
                        Err(e) => {
                            return Err(e);
                        },
                    }
                },
                None => {
                    assert(false);
                },
            }
            i = i + 1;
        }
        let ghost merged = FlushView { scope: self.scope@, trackers: base_trackers@, raw: raw@ };
        let mut j: usize = 0;
        while j < groups.len()
            invariant
                j <= groups.len(),
                storage == *bind_groups,
                self.binder == old(self).binder,
                self.pipeline == old(self).pipeline,
                self.debug_scope_depth == old(self).debug_scope_depth,
                merge_groups(start, groups@, storage, groups@.len()) is Merged,
                merged.take_groups(groups@, storage, j as nat) == (FlushView {
                    scope: self.scope@,
                    trackers: base_trackers@,
                    raw: raw@,
                }),
            decreases groups.len() - j,
        {
            proof {
                lemma_merged_groups_exist(start, groups@, storage, groups@.len(), j as int);
            }
            match bind_groups.get(groups[j].id.0) {
                Some(group) => {
                    base_trackers.buffers.take_from_scope(
                        ResourceKind::Buffer,
                        &mut self.scope.buffers,
                        &group.used.buffers,
                    );
                    base_trackers.textures.take_from_scope(
                        ResourceKind::Texture,
                        &mut self.scope.textures,
                        &group.used.textures,
                    );
                },
                None => {
                    assert(false);
                },
            }
            j = j + 1;
        }
        if let Some(index) = indirect_buffer {
            base_trackers.buffers.take_slot_from_scope(
                ResourceKind::Buffer,
                &mut self.scope.buffers,
                index,
            );
        }
        let ghost taken = FlushView { scope: self.scope@, trackers: base_trackers@, raw: raw@ };
        drain_barriers(raw, base_trackers);
        assert(taken.drain_barriers() == (FlushView {
            scope: self.scope@,
            trackers: base_trackers@,
            raw: raw@,
        }));
        Ok(())
    }
}

} // verus!
