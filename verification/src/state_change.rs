//! Dropping commands that would set what is set already.
use crate::id::{BindGroupId, ComputePipelineId};
use crate::types::{DynamicOffset, MAX_BIND_GROUPS};
use vstd::prelude::*;

verus! {

/// Remembers the last state that was set.
#[derive(Clone, Copy, Debug)]
pub struct StateChange<T> {
    pub last_state: Option<T>,
}

impl<T> StateChange<T> {
    /// Nothing was set yet.
    pub fn new() -> (r: Self)
        ensures
            r.last_state is None,
    {
        StateChange { last_state: None }
    }

    /// Forgets the last state.
    pub fn reset(&mut self)
        ensures
            final(self).last_state is None,
    {
        self.last_state = None;
    }
}

impl StateChange<ComputePipelineId> {
    /// Sets a state. Returns whether it was set already.
    pub fn set_and_check_redundant(&mut self, new_state: ComputePipelineId) -> (redundant: bool)
        ensures
            redundant == (old(self).last_state == Some(new_state)),
            final(self).last_state == Some(new_state),
    {
        let already_set: bool = match self.last_state {
            Some(last) => last == new_state,
            None => false,
        };
        self.last_state = Some(new_state);
        already_set
    }
}

impl StateChange<BindGroupId> {
    /// Sets a state. Returns whether it was set already.
    pub fn set_and_check_redundant(&mut self, new_state: BindGroupId) -> (redundant: bool)
        ensures
            redundant == (old(self).last_state == Some(new_state)),
            final(self).last_state == Some(new_state),
    {
        let already_set: bool = match self.last_state {
            Some(last) => last == new_state,
            None => false,
        };
        self.last_state = Some(new_state);
        already_set
    }
}

/// Remembers the last group that was bound to each slot without dynamic offsets.
#[derive(Debug)]
pub struct BindGroupStateChange {
    pub last_states: [StateChange<BindGroupId>; 8],
}

impl View for BindGroupStateChange {
    type V = Seq<Option<BindGroupId>>;

    open spec fn view(&self) -> Seq<Option<BindGroupId>> {
        Seq::new(MAX_BIND_GROUPS as nat, |i: int| self.last_states@[i].last_state)
    }
}

/// What is remembered of the slots after `group` is bound to slot `index` with `offsets`. Bindings
/// with dynamic offsets are not remembered, and there is no slot beyond the last one.
pub open spec fn remembered_groups(
    last: Seq<Option<BindGroupId>>,
    group: BindGroupId,
    index: u32,
    offsets: Seq<DynamicOffset>,
) -> Seq<Option<BindGroupId>> {
    if index < last.len() {
        last.update(
            index as int,
            if offsets.len() == 0 {
                Some(group)
            } else {
                None
            },
        )
    } else {
        last
    }
}

/// Binding `group` to slot `index` with `offsets` changes nothing: the same group is bound there
/// already, without dynamic offsets then and now.
pub open spec fn is_redundant_group(
    last: Seq<Option<BindGroupId>>,
    group: BindGroupId,
    index: u32,
    offsets: Seq<DynamicOffset>,
) -> bool {
    offsets.len() == 0 && index < last.len() && last[index as int] == Some(group)
}

impl BindGroupStateChange {
    /// Nothing was bound yet.
    pub fn new() -> (r: Self)
        ensures
            r@ == Seq::new(MAX_BIND_GROUPS as nat, |i: int| None::<BindGroupId>),
    {
        let none: StateChange<BindGroupId> = StateChange::new();
        let change = BindGroupStateChange {
            last_states: [none, none, none, none, none, none, none, none],
        };
        assert(change@ =~= Seq::new(MAX_BIND_GROUPS as nat, |i: int| None::<BindGroupId>));
        change
    }

    /// Notes that a group is bound to a slot, appending its dynamic offsets to `dynamic_offsets`.
    /// Returns whether this changes nothing.
    pub fn set_and_check_redundant(
        &mut self,
        bind_group_id: BindGroupId,
        index: u32,
        dynamic_offsets: &mut Vec<DynamicOffset>,
        offsets: &[DynamicOffset],
    ) -> (redundant: bool)
        ensures
            redundant == is_redundant_group(old(self)@, bind_group_id, index, offsets@),
            final(self)@ == remembered_groups(old(self)@, bind_group_id, index, offsets@),
            final(dynamic_offsets)@ == old(dynamic_offsets)@ + offsets@,
    {
        let ghost before = self@;
        let mut redundant: bool = false;
        if (index as usize) < MAX_BIND_GROUPS {
            let mut current: StateChange<BindGroupId> = self.last_states[index as usize];
            if offsets.len() == 0 {
                redundant = current.set_and_check_redundant(bind_group_id);
            } else {
                current.reset();
            }
            self.last_states[index as usize] = current;
        }
        dynamic_offsets.extend_from_slice(offsets);
        assert(dynamic_offsets@ =~= old(dynamic_offsets)@ + offsets@);
        assert(self@ =~= remembered_groups(before, bind_group_id, index, offsets@));
        redundant
    }
}

} // verus!
