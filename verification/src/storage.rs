//! The objects that exist, found by their identifiers.
use std::sync::Arc;
use vstd::prelude::*;

verus! {

/// Objects of one kind, each with the number of its identifier.
#[derive(Debug)]
pub struct Storage<T> {
    pub entries: Vec<(u64, Arc<T>)>,
}

/// The first object, among the first `n`, that has the number `id`.
pub open spec fn lookup<T>(entries: Seq<(u64, Arc<T>)>, id: u64, n: nat) -> Option<Arc<T>>
    decreases n,
{
    if n == 0 {
        None
    } else {
        match lookup(entries, id, (n - 1) as nat) {
            Some(object) => Some(object),
            None => if entries[n - 1].0 == id {
                Some(entries[n - 1].1)
            } else {
                None
            },
        }
    }
}

proof fn lemma_lookup_stays<T>(entries: Seq<(u64, Arc<T>)>, id: u64, n: nat, m: nat)
    requires
        n <= m,
        lookup(entries, id, n) is Some,
    ensures
        lookup(entries, id, m) == lookup(entries, id, n),
    decreases m,
{
    if n < m {
        lemma_lookup_stays(entries, id, n, (m - 1) as nat);
    }
}

impl<T> Storage<T> {
    /// The object with the number `id`, if there is one.
    pub open spec fn object(self, id: u64) -> Option<Arc<T>> {
        lookup(self.entries@, id, self.entries@.len())
    }

    /// A storage without objects.
    pub fn new() -> (r: Self)
        ensures
            r.entries@ == Seq::<(u64, Arc<T>)>::empty(),
    {
        Storage { entries: Vec::new() }
    }

    /// Adds an object behind the others.
    pub fn insert(&mut self, id: u64, object: Arc<T>)
        ensures
            final(self).entries@ == old(self).entries@.push((id, object)),
    {
        self.entries.push((id, object));
    }

    /// Finds the object with the number `id`.
    pub fn get(&self, id: u64) -> (r: Option<&Arc<T>>)
        ensures
            match self.object(id) {
                Some(object) => r == Some(&object),
                None => r is None,
            },
    {
        let mut i: usize = 0;
        while i < self.entries.len()
            invariant
                i <= self.entries.len(),
                lookup(self.entries@, id, i as nat) is None,
            decreases self.entries.len() - i,
        {
            if self.entries[i].0 == id {
                proof {
                    lemma_lookup_stays(self.entries@, id, (i + 1) as nat, self.entries@.len());
                }
                return Some(&self.entries[i].1);
            }
            i = i + 1;
        }
        None
    }
}

} // verus!
