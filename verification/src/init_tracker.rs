//! Which parts of a resource have never been written.
//!
//! Memory is zeroed lazily: a command that reads a part that nobody has written yet asks for that
//! part to be zeroed first.
use vstd::prelude::*;

verus! {

/// What a command expects of the memory that it touches.
#[derive(Clone, Copy, Debug, PartialEq, Eq, Structural)]
pub enum MemoryInitKind {
    /// The command writes all of it.
    ImplicitlyInitialized,
    /// The command reads some of it.
    NeedsInitializedMemory,
}

/// The positions `start..end`.
#[derive(Clone, Copy, Debug, PartialEq, Eq, Structural)]
pub struct InitRange {
    pub start: u64,
    pub end: u64,
}

impl InitRange {
    /// The position `p` is in the range.
    pub open spec fn has(self, p: int) -> bool {
        self.start <= p < self.end
    }
}

/// The parts of a resource that have never been written, in ascending order.
#[derive(Debug)]
pub struct InitTracker {
    pub uninitialized_ranges: Vec<InitRange>,
}

/// Ranges that are not empty, do not touch each other and stand in ascending order.
pub open spec fn ranges_ascend(ranges: Seq<InitRange>) -> bool {
    &&& forall|i: int| 0 <= i < ranges.len() ==> (#[trigger] ranges[i]).start < ranges[i].end
    &&& forall|i: int, j: int|
        0 <= i < j < ranges.len() ==> (#[trigger] ranges[i]).end < (#[trigger] ranges[j]).start
}

/// The number of ranges, among the first `n`, that lie before `position`, counted up to the first
/// that does not.
pub open spec fn ranges_before(ranges: Seq<InitRange>, position: u64, n: nat) -> nat
    decreases n,
{
    if n == 0 {
        0
    } else {
        let before = ranges_before(ranges, position, (n - 1) as nat);
        if before == n - 1 && ranges[n - 1].end <= position {
            n
        } else {
            before
        }
    }
}

proof fn lemma_ranges_before(ranges: Seq<InitRange>, position: u64, n: nat)
    requires
        n <= ranges.len(),
    ensures
        ranges_before(ranges, position, n) <= n,
        forall|i: int|
            0 <= i < ranges_before(ranges, position, n) ==> (#[trigger] ranges[i]).end <= position,
        ranges_before(ranges, position, n) < n ==> ranges[ranges_before(
            ranges,
            position,
            n,
        ) as int].end > position,
    decreases n,
{
    if n > 0 {
        lemma_ranges_before(ranges, position, (n - 1) as nat);
    }
}

proof fn lemma_ranges_before_stays(ranges: Seq<InitRange>, position: u64, n: nat, m: nat)
    requires
        n <= m,
        ranges_before(ranges, position, n) < n,
    ensures
        ranges_before(ranges, position, m) == ranges_before(ranges, position, n),
    decreases m,
{
    if n < m {
        lemma_ranges_before_stays(ranges, position, n, (m - 1) as nat);
    }
}

/// The part of `query` that has to be taken care of because something in it was never written. It
/// reaches from the first unwritten position to the end of the unwritten range there, or to the end
/// of the query where more unwritten ranges follow.
pub open spec fn uninitialized_part(ranges: Seq<InitRange>, query: InitRange) -> Option<InitRange> {
    let k = ranges_before(ranges, query.start, ranges.len()) as int;
    if k < ranges.len() && ranges[k].start < query.end {
        let start = if ranges[k].start < query.start {
            query.start
        } else {
            ranges[k].start
        };
        if k + 1 < ranges.len() && ranges[k + 1].start < query.end {
            Some(InitRange { start, end: query.end })
        } else {
            Some(
                InitRange {
                    start,
                    end: if ranges[k].end < query.end {
                        ranges[k].end
                    } else {
                        query.end
                    },
                },
            )
        }
    } else {
        None
    }
}

/// Nothing that was never written escapes a check: every unwritten position of the query is in the
/// part that the check returns. That part lies in the query, starts at an unwritten position, and
/// there is none exactly when all of the query was written.
pub proof fn uninitialized_part_covers(ranges: Seq<InitRange>, query: InitRange)
    requires
        ranges_ascend(ranges),
    ensures
        forall|i: int, p: int|
            0 <= i < ranges.len() && #[trigger] ranges[i].has(p) && query.has(p) ==> (
            uninitialized_part(ranges, query) matches Some(part) && part.has(p)),
        query.start < query.end ==> (uninitialized_part(ranges, query) matches Some(part) ==> {
            &&& query.start <= part.start < part.end <= query.end
            &&& exists|i: int|
                0 <= i < ranges.len() && #[trigger] ranges[i].has(part.start as int)
        }),
{
    lemma_ranges_before(ranges, query.start, ranges.len());
    let k = ranges_before(ranges, query.start, ranges.len()) as int;
    assert forall|i: int, p: int|
        0 <= i < ranges.len() && #[trigger] ranges[i].has(p) && query.has(p) implies (
    uninitialized_part(ranges, query) matches Some(part) && part.has(p)) by {
        assert(i >= k);
        if i > k {
            assert(ranges[k].end < ranges[i].start);
            if i > k + 1 {
                assert(ranges[k + 1].end < ranges[i].start);
            }
        }
    }
    if query.start < query.end && uninitialized_part(ranges, query) is Some {
        let part = uninitialized_part(ranges, query)->0;
        assert(ranges[k].has(part.start as int));
    }
}

/// The part that a check returns is no larger than it has to be: it ends with an unwritten position, or at the end
/// of the query, where a second unwritten range begins within the query. There is none where nothing in the query
/// is unwritten.
pub proof fn uninitialized_part_is_tight(ranges: Seq<InitRange>, query: InitRange)
    requires
        ranges_ascend(ranges),
        query.start < query.end,
    ensures
        uninitialized_part(ranges, query) matches Some(part) ==> {
            ||| exists|i: int|
                0 <= i < ranges.len() && #[trigger] ranges[i].has(part.end - 1) && ranges[i].has(
                    part.start as int,
                )
            ||| {
                &&& part.end == query.end
                &&& exists|i: int, j: int|
                    {
                        &&& 0 <= i < j < ranges.len()
                        &&& (#[trigger] ranges[i]).has(part.start as int)
                        &&& (#[trigger] ranges[j]).start < query.end
                    }
            }
        },
        (forall|i: int, p: int|
            0 <= i < ranges.len() && query.has(p) ==> !(#[trigger] ranges[i].has(p)))
            ==> uninitialized_part(ranges, query) is None,
{
    lemma_ranges_before(ranges, query.start, ranges.len());
    let k = ranges_before(ranges, query.start, ranges.len()) as int;
    if let Some(part) = uninitialized_part(ranges, query) {
        assert(ranges[k].has(part.start as int) && query.has(part.start as int));
        if k + 1 < ranges.len() && ranges[k + 1].start < query.end {
            assert(ranges[k + 1].start < query.end);
        } else {
            assert(ranges[k].has(part.end - 1));
        }
    }
}

impl InitTracker {
    /// The part of `query` that has to be taken care of because something in it was never written.
    pub fn check(&self, query: InitRange) -> (r: Option<InitRange>)
        ensures
            r == uninitialized_part(self.uninitialized_ranges@, query),
    {
        let ghost ranges = self.uninitialized_ranges@;
        let len: usize = self.uninitialized_ranges.len();
        let mut k: usize = 0;
        while k < len && self.uninitialized_ranges[k].end <= query.start
            invariant
                k <= len,
                len == self.uninitialized_ranges.len(),
                ranges == self.uninitialized_ranges@,
                ranges_before(ranges, query.start, k as nat) == k,
            decreases len - k,
        {
            k = k + 1;
        }
        proof {
            if k < len {
                lemma_ranges_before_stays(ranges, query.start, (k + 1) as nat, ranges.len());
            }
        }
        if k < len && self.uninitialized_ranges[k].start < query.end {
            let found: InitRange = self.uninitialized_ranges[k];
            let start: u64 = if found.start < query.start {
                query.start
            } else {
                found.start
            };
            if k + 1 < len && self.uninitialized_ranges[k + 1].start < query.end {
                Some(InitRange { start, end: query.end })
            } else {
                let end: u64 = if found.end < query.end {
                    found.end
                } else {
                    query.end
                };
                Some(InitRange { start, end })
            }
        } else {
            None
        }
    }
}

} // verus!
