//! All push constants are cleared when the layout of the pipeline changes.
use crate::id::RawHandle;
use crate::push_constant;
use crate::push_constant::PushConstantChange;
use crate::raw::RawView;
use crate::resource::ComputePipeline;
use crate::run;
use crate::run::{RunView, Step};
use crate::types;
use crate::types::{PushConstantRange, PUSH_CONSTANT_ALIGNMENT};
use crate::warrant;
use std::sync::Arc;
use vstd::prelude::*;

verus! {

/// The changes come in ascending order of their offsets.
spec fn is_ascending(changes: Seq<PushConstantChange>) -> bool {
    forall|i: int, j: int|
        0 <= i <= j < changes.len() ==> (#[trigger] changes[i]).offset <= (
        #[trigger] changes[j]).offset
}

proof fn lemma_insert_ascending(changes: Seq<PushConstantChange>, change: PushConstantChange)
    requires
        is_ascending(changes),
    ensures
        is_ascending(push_constant::insert_change(changes, change)),
        push_constant::changes_before(changes, change.offset, changes.len()) <= changes.len(),
{
    push_constant::lemma_changes_before(changes, change.offset, changes.len());
    let k = push_constant::changes_before(changes, change.offset, changes.len()) as int;
    let after = push_constant::insert_change(changes, change);
    assert forall|i: int| 0 <= i < after.len() implies #[trigger] after[i] == (if i < k {
        changes[i]
    } else if i == k {
        change
    } else {
        changes[i - 1]
    }) by {}
    assert forall|i: int, j: int| 0 <= i <= j < after.len() implies (#[trigger] after[i]).offset <= (
    #[trigger] after[j]).offset by {
        if k < changes.len() {
            assert(changes[k].offset > change.offset);
        }
    }
}

proof fn lemma_sorted_ascending(ranges: Seq<PushConstantRange>, n: nat)
    ensures
        is_ascending(push_constant::sorted_changes(ranges, n)),
    decreases n,
{
    if n > 0 {
        lemma_sorted_ascending(ranges, (n - 1) as nat);
        let before = push_constant::sorted_changes(ranges, (n - 1) as nat);
        let begin = PushConstantChange {
            stages: ranges[n - 1].stages,
            offset: ranges[n - 1].start,
            enable: true,
        };
        let end = PushConstantChange {
            stages: ranges[n - 1].stages,
            offset: ranges[n - 1].end,
            enable: false,
        };
        lemma_insert_ascending(before, begin);
        lemma_insert_ascending(push_constant::insert_change(before, begin), end);
    }
}

/// No range is empty, and each ends before the next one begins.
pub open spec fn is_separate(ranges: Seq<PushConstantRange>) -> bool {
    &&& forall|i: int| 0 <= i < ranges.len() ==> (#[trigger] ranges[i]).start < ranges[i].end
    &&& forall|i: int, j: int|
        0 <= i < j < ranges.len() ==> (#[trigger] ranges[i]).end <= (#[trigger] ranges[j]).start
}

proof fn lemma_sweep_separate(changes: Seq<PushConstantChange>, n: nat)
    requires
        is_ascending(changes),
        n <= changes.len(),
    ensures
        is_separate(push_constant::sweep(changes, n).ranges),
        forall|i: int|
            0 <= i < push_constant::sweep(changes, n).ranges.len() ==> (
            #[trigger] push_constant::sweep(changes, n).ranges[i]).end <= push_constant::sweep(
                changes,
                n,
            ).position,
        n > 0 ==> push_constant::sweep(changes, n).position == changes[n - 1].offset,
    decreases n,
{
    if n > 0 {
        lemma_sweep_separate(changes, (n - 1) as nat);
        if n > 1 {
            assert(changes[n - 2].offset <= changes[n - 1].offset);
        }
    }
}

/// However ranges overlap, the ranges that they are broken up into do not: they are not empty, and
/// stand in ascending order, one behind the other.
pub proof fn new_ranges_do_not_overlap(ranges: Seq<PushConstantRange>)
    ensures
        is_separate(push_constant::nonoverlapping_ranges(ranges)),
{
    let changes = push_constant::sorted_changes(ranges, ranges.len());
    lemma_sorted_ascending(ranges, ranges.len());
    lemma_sweep_separate(changes, changes.len());
}

/// No stage has two ranges, and no range ends before it begins.
pub open spec fn is_layout(ranges: Seq<PushConstantRange>) -> bool {
    &&& forall|i: int| 0 <= i < ranges.len() ==> (#[trigger] ranges[i]).start <= ranges[i].end
    &&& forall|i: int, j: int|
        0 <= i < j < ranges.len() ==> (#[trigger] ranges[i]).stages & (#[trigger] ranges[j]).stages
            == 0
}

/// The two changes of a range stand at `e` and `d`, and no other change ends one of its stages.
spec fn is_marked(
    changes: Seq<PushConstantChange>,
    range: PushConstantRange,
    e: int,
    d: int,
) -> bool {
    &&& 0 <= e < d < changes.len()
    &&& changes[e] == (PushConstantChange {
        stages: range.stages,
        offset: range.start,
        enable: true,
    })
    &&& changes[d] == (PushConstantChange {
        stages: range.stages,
        offset: range.end,
        enable: false,
    })
    &&& forall|m: int|
        0 <= m < changes.len() && m != d && !(#[trigger] changes[m]).enable ==> changes[m].stages
            & range.stages == 0
}

/// Where what stood at `i` stands once something is inserted at `k`.
spec fn moved(i: int, k: int) -> int {
    if i < k {
        i
    } else {
        i + 1
    }
}

proof fn lemma_insert_marked(
    changes: Seq<PushConstantChange>,
    change: PushConstantChange,
    range: PushConstantRange,
    e: int,
    d: int,
)
    requires
        is_ascending(changes),
        is_marked(changes, range, e, d),
        change.enable || change.stages & range.stages == 0,
    ensures
        ({
            let k = push_constant::changes_before(changes, change.offset, changes.len()) as int;
            is_marked(
                push_constant::insert_change(changes, change),
                range,
                moved(e, k),
                moved(d, k),
            )
        }),
{
    push_constant::lemma_changes_before(changes, change.offset, changes.len());
    let k = push_constant::changes_before(changes, change.offset, changes.len()) as int;
    let after = push_constant::insert_change(changes, change);
    assert forall|i: int| 0 <= i < after.len() implies #[trigger] after[i] == (if i < k {
        changes[i]
    } else if i == k {
        change
    } else {
        changes[i - 1]
    }) by {}
}

proof fn lemma_disjoint(a: types::ShaderStages, b: types::ShaderStages)
    requires
        a & b == 0,
    ensures
        b & a == 0,
{
    assert(b & a == 0) by (bit_vector)
        requires
            a & b == 0,
    ;
}

/// Each change that ends stages is that of one of the ranges.
spec fn ends_are_known(
    changes: Seq<PushConstantChange>,
    ranges: Seq<PushConstantRange>,
    n: nat,
) -> bool {
    forall|m: int|
        0 <= m < changes.len() && !(#[trigger] changes[m]).enable ==> exists|j: int|
            0 <= j < n && changes[m].stages == (#[trigger] ranges[j]).stages
}

proof fn lemma_ends_known(ranges: Seq<PushConstantRange>, n: nat)
    requires
        n <= ranges.len(),
    ensures
        ends_are_known(push_constant::sorted_changes(ranges, n), ranges, n),
    decreases n,
{
    if n > 0 {
        lemma_ends_known(ranges, (n - 1) as nat);
        lemma_sorted_ascending(ranges, (n - 1) as nat);
        let before = push_constant::sorted_changes(ranges, (n - 1) as nat);
        let begin = PushConstantChange {
            stages: ranges[n - 1].stages,
            offset: ranges[n - 1].start,
            enable: true,
        };
        let end = PushConstantChange {
            stages: ranges[n - 1].stages,
            offset: ranges[n - 1].end,
            enable: false,
        };
        let mid = push_constant::insert_change(before, begin);
        let after = push_constant::insert_change(mid, end);
        lemma_insert_ascending(before, begin);
        lemma_insert_ascending(mid, end);
        let k1 = push_constant::changes_before(before, begin.offset, before.len()) as int;
        let k2 = push_constant::changes_before(mid, end.offset, mid.len()) as int;
        assert forall|m: int| 0 <= m < mid.len() && !(#[trigger] mid[m]).enable implies exists|
            j: int,
        |
            0 <= j < n - 1 && mid[m].stages == (#[trigger] ranges[j]).stages by {
            let i = if m < k1 {
                m
            } else {
                m - 1
            };
            assert(mid[m] == before[i]);
        }
        assert forall|m: int| 0 <= m < after.len() && !(#[trigger] after[m]).enable implies exists|
            j: int,
        |
            0 <= j < n && after[m].stages == (#[trigger] ranges[j]).stages by {
            if m == k2 {
                assert(after[m].stages == ranges[n - 1].stages);
            } else {
                let i = if m < k2 {
                    m
                } else {
                    m - 1
                };
                assert(after[m] == mid[i]);
            }
        }
    }
}

spec fn begin_of(range: PushConstantRange) -> PushConstantChange {
    PushConstantChange { stages: range.stages, offset: range.start, enable: true }
}

spec fn end_of(range: PushConstantRange) -> PushConstantChange {
    PushConstantChange { stages: range.stages, offset: range.end, enable: false }
}

/// Where the begin of the last of the first `n` ranges is put.
spec fn begin_position(ranges: Seq<PushConstantRange>, n: nat) -> int {
    let before = push_constant::sorted_changes(ranges, (n - 1) as nat);
    push_constant::changes_before(before, ranges[n - 1].start, before.len()) as int
}

/// Where the end of the last of the first `n` ranges is put.
spec fn end_position(ranges: Seq<PushConstantRange>, n: nat) -> int {
    let mid = push_constant::insert_change(
        push_constant::sorted_changes(ranges, (n - 1) as nat),
        begin_of(ranges[n - 1]),
    );
    push_constant::changes_before(mid, ranges[n - 1].end, mid.len()) as int
}

proof fn lemma_last_marked(ranges: Seq<PushConstantRange>, n: nat)
    requires
        is_layout(ranges),
        0 < n <= ranges.len(),
    ensures
        is_marked(
            push_constant::sorted_changes(ranges, n),
            ranges[n - 1],
            begin_position(ranges, n),
            end_position(ranges, n),
        ),
{
    let before = push_constant::sorted_changes(ranges, (n - 1) as nat);
    let begin = begin_of(ranges[n - 1]);
    let end = end_of(ranges[n - 1]);
    let mid = push_constant::insert_change(before, begin);
    let after = push_constant::insert_change(mid, end);
    let k1 = begin_position(ranges, n);
    let k2 = end_position(ranges, n);
    lemma_sorted_ascending(ranges, (n - 1) as nat);
    lemma_insert_ascending(before, begin);
    lemma_insert_ascending(mid, end);
    lemma_ends_known(ranges, (n - 1) as nat);
    push_constant::lemma_changes_before(mid, end.offset, mid.len());
    assert(mid[k1] == begin);
    assert(k1 < k2) by {
        if k2 <= k1 {
            assert(mid[k2].offset <= mid[k1].offset);
        }
    }
    assert(after[k1] == begin);
    assert(after[k2] == end);
    assert forall|m: int|
        0 <= m < after.len() && m != k2 && !(#[trigger] after[m]).enable implies after[m].stages
        & ranges[n - 1].stages == 0 by {
        let i = if m < k2 {
            m
        } else {
            m - 1
        };
        assert(after[m] == mid[i]);
        let i2 = if i < k1 {
            i
        } else {
            i - 1
        };
        assert(mid[i] == before[i2]);
        let j = choose|j: int|
            0 <= j < n - 1 && before[i2].stages == (#[trigger] ranges[j]).stages;
        assert(ranges[j].stages & ranges[n - 1].stages == 0);
    }
}

/// The marks of an earlier range, once the last of the first `n` ranges is there too.
proof fn lemma_earlier_marked(ranges: Seq<PushConstantRange>, n: nat, q: int, e: int, d: int)
    requires
        is_layout(ranges),
        0 <= q < n - 1,
        n <= ranges.len(),
        is_marked(push_constant::sorted_changes(ranges, (n - 1) as nat), ranges[q], e, d),
    ensures
        is_marked(
            push_constant::sorted_changes(ranges, n),
            ranges[q],
            moved(moved(e, begin_position(ranges, n)), end_position(ranges, n)),
            moved(moved(d, begin_position(ranges, n)), end_position(ranges, n)),
        ),
{
    let before = push_constant::sorted_changes(ranges, (n - 1) as nat);
    let begin = begin_of(ranges[n - 1]);
    let mid = push_constant::insert_change(before, begin);
    let k1 = begin_position(ranges, n);
    lemma_sorted_ascending(ranges, (n - 1) as nat);
    lemma_insert_ascending(before, begin);
    lemma_insert_marked(before, begin, ranges[q], e, d);
    lemma_disjoint(ranges[q].stages, ranges[n - 1].stages);
    lemma_insert_marked(mid, end_of(ranges[n - 1]), ranges[q], moved(e, k1), moved(d, k1));
}

proof fn lemma_sorted_marked(ranges: Seq<PushConstantRange>, n: nat, q: int)
    requires
        is_layout(ranges),
        0 <= q < n <= ranges.len(),
    ensures
        exists|e: int, d: int|
            is_marked(push_constant::sorted_changes(ranges, n), ranges[q], e, d),
    decreases n,
{
    if q < n - 1 {
        let before = push_constant::sorted_changes(ranges, (n - 1) as nat);
        lemma_sorted_marked(ranges, (n - 1) as nat, q);
        let (e, d) = choose|e: int, d: int| is_marked(before, ranges[q], e, d);
        lemma_earlier_marked(ranges, n, q, e, d);
    } else {
        lemma_last_marked(ranges, n);
    }
}

/// Each change that begins stages is that of one of the ranges.
proof fn lemma_begins_marked(ranges: Seq<PushConstantRange>, n: nat, m: int)
    requires
        is_layout(ranges),
        n <= ranges.len(),
        0 <= m < push_constant::sorted_changes(ranges, n).len(),
        push_constant::sorted_changes(ranges, n)[m].enable,
    ensures
        exists|q: int, d: int|
            0 <= q < n && #[trigger] is_marked(
                push_constant::sorted_changes(ranges, n),
                ranges[q],
                m,
                d,
            ),
    decreases n,
{
    let before = push_constant::sorted_changes(ranges, (n - 1) as nat);
    let mid = push_constant::insert_change(before, begin_of(ranges[n - 1]));
    let after = push_constant::sorted_changes(ranges, n);
    let k1 = begin_position(ranges, n);
    let k2 = end_position(ranges, n);
    lemma_last_marked(ranges, n);
    if m != k1 {
        lemma_sorted_ascending(ranges, (n - 1) as nat);
        lemma_insert_ascending(before, begin_of(ranges[n - 1]));
        lemma_insert_ascending(mid, end_of(ranges[n - 1]));
        let i = if m < k2 {
            m
        } else {
            m - 1
        };
        assert(after[m] == mid[i]);
        let i2 = if i < k1 {
            i
        } else {
            i - 1
        };
        assert(mid[i] == before[i2]);
        lemma_begins_marked(ranges, (n - 1) as nat, i2);
        let (q, d) = choose|q: int, d: int|
            0 <= q < n - 1 && #[trigger] is_marked(before, ranges[q], i2, d);
        lemma_earlier_marked(ranges, n, q, i2, d);
    }
}

/// A stage that the sweep has is one of a range that has begun and not ended.
proof fn lemma_stage_has_a_range(
    ranges: Seq<PushConstantRange>,
    n: nat,
    stage: types::ShaderStages,
)
    requires
        is_layout(ranges),
        n <= push_constant::sorted_changes(ranges, ranges.len()).len(),
        is_one_stage(stage),
        push_constant::sweep(push_constant::sorted_changes(ranges, ranges.len()), n).stages & stage
            != 0,
    ensures
        exists|q: int, e: int, d: int|
            {
                &&& 0 <= q < ranges.len()
                &&& ranges[q].stages & stage != 0
                &&& #[trigger] is_marked(
                    push_constant::sorted_changes(ranges, ranges.len()),
                    ranges[q],
                    e,
                    d,
                )
                &&& e < n <= d
            },
    decreases n,
{
    let changes = push_constant::sorted_changes(ranges, ranges.len());
    if n == 0 {
        assert(0u32 & stage == 0) by (bit_vector);
    } else {
        let before = push_constant::sweep(changes, (n - 1) as nat).stages;
        let other = changes[n - 1].stages;
        if changes[n - 1].enable && other & stage != 0 {
            lemma_begins_marked(ranges, ranges.len(), n - 1);
        } else {
            assert((before | other) & stage != 0 && other & stage == 0 ==> before & stage != 0)
                by (bit_vector);
            assert((before & !other) & stage != 0 && stage & ((stage - 1) as u32) == 0 && stage != 0
                ==> before & stage != 0 && other & stage == 0) by (bit_vector);
            lemma_stage_has_a_range(ranges, (n - 1) as nat, stage);
        }
    }
}

/// The mask names a single stage.
pub open spec fn is_one_stage(stage: types::ShaderStages) -> bool {
    stage != 0 && stage & ((stage - 1) as u32) == 0
}

proof fn lemma_stages_stay(
    changes: Seq<PushConstantChange>,
    range: PushConstantRange,
    e: int,
    d: int,
    n: nat,
)
    requires
        is_marked(changes, range, e, d),
        e < n <= d,
    ensures
        types::has_flags(push_constant::sweep(changes, n).stages, range.stages),
    decreases n,
{
    let own = range.stages;
    let before = push_constant::sweep(changes, (n - 1) as nat).stages;
    let other = changes[n - 1].stages;
    if n - 1 > e {
        lemma_stages_stay(changes, range, e, d, (n - 1) as nat);
        if changes[n - 1].enable {
            assert((before | other) & own == own) by (bit_vector)
                requires
                    before & own == own,
            ;
        } else {
            assert(other & own == 0);
            assert((before & !other) & own == own) by (bit_vector)
                requires
                    before & own == own,
                    other & own == 0,
            ;
        }
    } else {
        assert((before | own) & own == own) by (bit_vector);
    }
}

/// The new range holds the byte and has the stages.
pub open spec fn serves(new: PushConstantRange, byte: u32, stages: types::ShaderStages) -> bool {
    new.start <= byte < new.end && types::has_flags(new.stages, stages)
}

/// Once the sweep has passed a byte of a range, one of the new ranges holds it for its stages.
proof fn lemma_sweep_covers(
    changes: Seq<PushConstantChange>,
    range: PushConstantRange,
    e: int,
    d: int,
    byte: u32,
    n: nat,
)
    requires
        is_ascending(changes),
        is_marked(changes, range, e, d),
        range.stages != 0,
        range.start <= byte < range.end,
        0 < n <= changes.len(),
        changes[n - 1].offset > byte,
    ensures
        exists|i: int|
            0 <= i < push_constant::sweep(changes, n).ranges.len() && serves(
                #[trigger] push_constant::sweep(changes, n).ranges[i],
                byte,
                range.stages,
            ),
    decreases n,
{
    let before = push_constant::sweep(changes, (n - 1) as nat);
    let after = push_constant::sweep(changes, n);
    lemma_sweep_separate(changes, (n - 1) as nat);
    if n > 1 && changes[n - 2].offset > byte {
        lemma_sweep_covers(changes, range, e, d, byte, (n - 1) as nat);
        let i = choose|i: int|
            0 <= i < before.ranges.len() && serves(
                #[trigger] before.ranges[i],
                byte,
                range.stages,
            );
        assert(after.ranges[i] == before.ranges[i]);
    } else {
        assert(e < n - 1) by {
            if e >= n - 1 {
                assert(changes[n - 1].offset <= changes[e].offset);
            }
        }
        assert(n - 1 <= d) by {
            if d < n - 1 {
                assert(changes[d].offset <= changes[n - 2].offset);
            }
        }
        lemma_stages_stay(changes, range, e, d, (n - 1) as nat);
        let own = range.stages;
        let stages = before.stages;
        assert(stages != 0) by (bit_vector)
            requires
                own != 0,
                stages & own == own,
        ;
        let i = after.ranges.len() - 1;
        assert(serves(after.ranges[i], byte, range.stages));
    }
}

/// Each byte of each range of a layout is in one of the ranges that they are broken up into, and that
/// one has all the stages of the range.
pub proof fn new_ranges_cover(ranges: Seq<PushConstantRange>, q: int, byte: u32)
    requires
        is_layout(ranges),
        0 <= q < ranges.len(),
        ranges[q].stages != 0,
        ranges[q].start <= byte < ranges[q].end,
    ensures
        exists|i: int|
            0 <= i < push_constant::nonoverlapping_ranges(ranges).len() && serves(
                #[trigger] push_constant::nonoverlapping_ranges(ranges)[i],
                byte,
                ranges[q].stages,
            ),
{
    let n = ranges.len();
    let changes = push_constant::sorted_changes(ranges, n);
    lemma_sorted_ascending(ranges, n);
    lemma_sorted_marked(ranges, n, q);
    let (e, d) = choose|e: int, d: int| is_marked(changes, ranges[q], e, d);
    assert(changes[d].offset <= changes[changes.len() - 1].offset);
    lemma_sweep_covers(changes, ranges[q], e, d, byte, changes.len());
    let swept = push_constant::sweep(changes, changes.len()).ranges;
    let i = choose|i: int|
        0 <= i < swept.len() && serves(#[trigger] swept[i], byte, ranges[q].stages);
    assert(push_constant::nonoverlapping_ranges(ranges)[i] == swept[i]);
}

/// The new ranges hold nothing that the given ones do not: where one holds a byte for a stage, one of the given
/// ranges holds the byte for the stage.
pub proof fn new_ranges_hold_nothing_else(
    ranges: Seq<PushConstantRange>,
    i: int,
    byte: u32,
    stage: types::ShaderStages,
)
    requires
        is_layout(ranges),
        0 <= i < push_constant::nonoverlapping_ranges(ranges).len(),
        is_one_stage(stage),
        push_constant::nonoverlapping_ranges(ranges)[i].start <= byte
            < push_constant::nonoverlapping_ranges(ranges)[i].end,
        push_constant::nonoverlapping_ranges(ranges)[i].stages & stage != 0,
    ensures
        exists|q: int|
            {
                &&& 0 <= q < ranges.len()
                &&& (#[trigger] ranges[q]).start <= byte < ranges[q].end
                &&& ranges[q].stages & stage != 0
            },
{
    let changes = push_constant::sorted_changes(ranges, ranges.len());
    lemma_sorted_ascending(ranges, ranges.len());
    lemma_swept_is_open(changes, changes.len(), i);
    let n = choose|n: nat|
        {
            &&& 0 < n < changes.len()
            &&& push_constant::sweep(changes, changes.len()).ranges[i]
                == (PushConstantRange {
                stages: (#[trigger] push_constant::sweep(changes, n)).stages,
                start: changes[n - 1].offset,
                end: changes[n as int].offset,
            })
        };
    lemma_stage_has_a_range(ranges, n, stage);
    let (q, e, d) = choose|q: int, e: int, d: int|
        {
            &&& 0 <= q < ranges.len()
            &&& ranges[q].stages & stage != 0
            &&& #[trigger] is_marked(changes, ranges[q], e, d)
            &&& e < n <= d
        };
    assert(changes[e].offset <= changes[n - 1].offset);
    assert(changes[n as int].offset <= changes[d].offset);
    assert(ranges[q].start <= byte < ranges[q].end);
}

/// Each new range lies between two changes that follow each other, and has the stages there.
proof fn lemma_swept_is_open(changes: Seq<PushConstantChange>, m: nat, i: int)
    requires
        is_ascending(changes),
        m <= changes.len(),
        0 <= i < push_constant::sweep(changes, m).ranges.len(),
    ensures
        push_constant::sweep(changes, m).ranges[i].stages != 0,
        exists|n: nat|
            {
                &&& 0 < n < m
                &&& push_constant::sweep(changes, m).ranges[i] == (PushConstantRange {
                    stages: (#[trigger] push_constant::sweep(changes, n)).stages,
                    start: changes[n - 1].offset,
                    end: changes[n as int].offset,
                })
            },
    decreases m,
{
    let before = push_constant::sweep(changes, (m - 1) as nat);
    if i < before.ranges.len() {
        lemma_swept_is_open(changes, (m - 1) as nat, i);
    } else {
        lemma_sweep_separate(changes, (m - 1) as nat);
        assert(m > 1);
        assert(push_constant::sweep(changes, m).ranges[i].start == changes[m - 2].offset);
    }
}

/// The call sets the push constants from byte `at` on to zero.
pub open spec fn clears(call: RawView, at: int) -> bool {
    match call {
        RawView::SetPushConstants { offset, data, .. } => {
            &&& offset <= at < offset + PUSH_CONSTANT_ALIGNMENT * data.len()
            &&& forall|i: int| 0 <= i < data.len() ==> data[i] == 0
        },
        _ => false,
    }
}

/// Clearing some words reaches each of them.
pub proof fn clearing_reaches_every_word(layout: RawHandle, offset: int, words: nat, word: int)
    requires
        0 <= word < words,
        0 <= offset,
        offset + words * PUSH_CONSTANT_ALIGNMENT <= u32::MAX,
    ensures
        exists|p: int|
            0 <= p < push_constant::clear_commands(layout, offset, words).len() && clears(
                #[trigger] push_constant::clear_commands(layout, offset, words)[p],
                offset + word * PUSH_CONSTANT_ALIGNMENT,
            ),
    decreases words,
{
    let chunk = if words < push_constant::PUSH_CONSTANT_CLEAR_WORDS {
        words
    } else {
        push_constant::PUSH_CONSTANT_CLEAR_WORDS as nat
    };
    let all = push_constant::clear_commands(layout, offset, words);
    if word < chunk {
        assert(clears(all[0], offset + word * PUSH_CONSTANT_ALIGNMENT));
    } else {
        let next = offset + chunk * PUSH_CONSTANT_ALIGNMENT;
        let rest = push_constant::clear_commands(layout, next, (words - chunk) as nat);
        clearing_reaches_every_word(layout, next, (words - chunk) as nat, word - chunk);
        let p = choose|p: int|
            0 <= p < rest.len() && clears(
                #[trigger] rest[p],
                next + (word - chunk) * PUSH_CONSTANT_ALIGNMENT,
            );
        assert(all[p + 1] == rest[p]);
    }
}

/// The ranges begin and end between two words.
pub open spec fn is_aligned(ranges: Seq<PushConstantRange>) -> bool {
    forall|i: int|
        0 <= i < ranges.len() ==> (#[trigger] ranges[i]).start as int % 4 == 0
            && ranges[i].end as int % 4 == 0
}

spec fn changes_are_aligned(changes: Seq<PushConstantChange>) -> bool {
    forall|i: int| 0 <= i < changes.len() ==> (#[trigger] changes[i]).offset as int % 4 == 0
}

proof fn lemma_insert_aligned(changes: Seq<PushConstantChange>, change: PushConstantChange)
    requires
        changes_are_aligned(changes),
        change.offset as int % 4 == 0,
    ensures
        changes_are_aligned(push_constant::insert_change(changes, change)),
{
    push_constant::lemma_changes_before(changes, change.offset, changes.len());
    let k = push_constant::changes_before(changes, change.offset, changes.len()) as int;
    let after = push_constant::insert_change(changes, change);
    assert forall|i: int| 0 <= i < after.len() implies (#[trigger] after[i]).offset as int % 4
        == 0 by {
        if i < k {
            assert(after[i] == changes[i]);
        } else if i > k {
            assert(after[i] == changes[i - 1]);
        }
    }
}

proof fn lemma_sorted_aligned(ranges: Seq<PushConstantRange>, n: nat)
    requires
        is_aligned(ranges),
        n <= ranges.len(),
    ensures
        changes_are_aligned(push_constant::sorted_changes(ranges, n)),
    decreases n,
{
    if n > 0 {
        lemma_sorted_aligned(ranges, (n - 1) as nat);
        let range = ranges[n - 1];
        let before = push_constant::sorted_changes(ranges, (n - 1) as nat);
        let begin = PushConstantChange { stages: range.stages, offset: range.start, enable: true };
        let end = PushConstantChange { stages: range.stages, offset: range.end, enable: false };
        lemma_insert_aligned(before, begin);
        lemma_insert_aligned(push_constant::insert_change(before, begin), end);
    }
}

proof fn lemma_sweep_aligned(changes: Seq<PushConstantChange>, n: nat)
    requires
        changes_are_aligned(changes),
        n <= changes.len(),
    ensures
        is_aligned(push_constant::sweep(changes, n).ranges),
        push_constant::sweep(changes, n).position as int % 4 == 0,
    decreases n,
{
    if n > 0 {
        lemma_sweep_aligned(changes, (n - 1) as nat);
    }
}

proof fn lemma_range_is_cleared(
    raw: Seq<RawView>,
    layout: RawHandle,
    ranges: Seq<PushConstantRange>,
    n: nat,
    i: int,
    at: int,
)
    requires
        0 <= i < n <= ranges.len(),
        is_aligned(ranges),
        ranges[i].start <= at < ranges[i].end,
        at % 4 == 0,
    ensures
        exists|p: int|
            raw.len() <= p < run::clear_ranges(raw, layout, ranges, n).len() && sets_to_zero(
                #[trigger] run::clear_ranges(raw, layout, ranges, n)[p],
                layout,
                at,
            ),
    decreases n,
{
    let before = run::clear_ranges(raw, layout, ranges, (n - 1) as nat);
    let after = run::clear_ranges(raw, layout, ranges, n);
    warrant::lemma_clear_ranges_calls(raw, layout, ranges, (n - 1) as nat);
    if i < n - 1 {
        lemma_range_is_cleared(raw, layout, ranges, (n - 1) as nat, i, at);
        let p = choose|p: int|
            raw.len() <= p < before.len() && sets_to_zero(#[trigger] before[p], layout, at);
        assert(after[p] == before[p]);
    } else {
        let start = ranges[i].start as int;
        let words = ((ranges[i].end - start) / 4) as nat;
        let word = (at - start) / 4;
        let calls = push_constant::clear_commands(layout, start, words);
        clearing_reaches_every_word(layout, start, words, word);
        warrant::lemma_clear_calls(layout, start, words);
        let p = choose|p: int|
            0 <= p < calls.len() && clears(#[trigger] calls[p], start + word * 4);
        assert(start + word * 4 == at);
        assert(after[before.len() + p] == calls[p]);
        assert(warrant::is_clear(layout, calls[p]));
    }
}

/// The call sets the word of push constants at byte `at` to zero, for compute shaders, under a layout.
pub open spec fn sets_to_zero(call: RawView, layout: RawHandle, at: int) -> bool {
    match call {
        RawView::SetPushConstants { layout: used, stages, offset, data } => {
            &&& used == layout
            &&& stages == 4
            &&& offset <= at < offset + 4 * data.len()
            &&& forall|i: int| 0 <= i < data.len() ==> data[i] == 0
        },
        _ => false,
    }
}

/// Whenever a pipeline is set whose layout is another one than before, or the first one, each word of each
/// push constant range of its layout is set to zero.
pub proof fn new_layout_clears_push_constants(
    s: RunView,
    pipeline: Arc<ComputePipeline>,
    q: int,
    at: int,
)
    requires
        s.binder.layout matches Some(earlier) ==> earlier.id != pipeline.layout.id,
        is_layout(pipeline.layout.push_constant_ranges@),
        is_aligned(pipeline.layout.push_constant_ranges@),
        0 <= q < pipeline.layout.push_constant_ranges@.len(),
        pipeline.layout.push_constant_ranges@[q].stages != 0,
        pipeline.layout.push_constant_ranges@[q].start <= at
            < pipeline.layout.push_constant_ranges@[q].end,
        at % 4 == 0,
    ensures
        s.set_pipeline(pipeline) matches Step::Done(t) ==> exists|p: int|
            s.out.raw.len() <= p < t.out.raw.len() && sets_to_zero(
                #[trigger] t.out.raw[p],
                pipeline.layout.raw,
                at,
            ),
{
    if let Step::Done(t) = s.set_pipeline(pipeline) {
        let layout = pipeline.layout;
        let given = layout.push_constant_ranges@;
        let ranges = push_constant::nonoverlapping_ranges(given);
        let changes = push_constant::sorted_changes(given, given.len());
        lemma_sorted_aligned(given, given.len());
        lemma_sweep_aligned(changes, changes.len());
        new_ranges_cover(given, q, at as u32);
        let i = choose|i: int|
            0 <= i < ranges.len() && serves(
                #[trigger] ranges[i],
                at as u32,
                given[q].stages,
            );
        let set = s.out.raw.push(RawView::SetComputePipeline(pipeline.raw));
        let binder = s.binder.change_pipeline_layout(
            layout,
            pipeline.late_sized_buffer_groups@,
        );
        let start = s.binder.rebind_start(layout);
        let stop = binder.rebind_end(s.binder.first_changed_slot(layout));
        let bound = run::rebind(set, layout.raw, binder.payloads, start, (stop - start) as nat).0;
        warrant::lemma_rebind_calls(
            set,
            layout.raw,
            binder.payloads,
            start,
            (stop - start) as nat,
        );
        assert(t.out.raw == run::clear_ranges(bound, layout.raw, ranges, ranges.len()));
        lemma_range_is_cleared(bound, layout.raw, ranges, ranges.len(), i, at);
    }
}

/// Setting a pipeline whose layout is the one before leaves the push constants, and all slots, as they are:
/// the backend is only told of the pipeline.
pub proof fn same_layout_keeps_push_constants(s: RunView, pipeline: Arc<ComputePipeline>)
    requires
        s.binder.layout matches Some(earlier) && earlier.id == pipeline.layout.id,
    ensures
        s.set_pipeline(pipeline) matches Step::Done(t) && {
            &&& t.out.raw == s.out.raw.push(RawView::SetComputePipeline(pipeline.raw))
            &&& t.binder == s.binder
            &&& t.pipeline == Some(pipeline.id)
        },
{
}

/// A call of the push constants writes nothing outside bytes `start..end`.
pub open spec fn stays_within(call: RawView, start: int, end: int) -> bool {
    call matches RawView::SetPushConstants { offset, data, .. } ==> start <= offset && offset + 4
        * data.len() <= end
}

proof fn lemma_clear_stays_within(layout: RawHandle, offset: int, words: nat, p: int)
    requires
        0 <= offset,
        offset + words * 4 <= u32::MAX,
        0 <= p < push_constant::clear_commands(layout, offset, words).len(),
    ensures
        stays_within(
            push_constant::clear_commands(layout, offset, words)[p],
            offset,
            offset + words * 4,
        ),
    decreases words,
{
    let chunk = if words < push_constant::PUSH_CONSTANT_CLEAR_WORDS {
        words
    } else {
        push_constant::PUSH_CONSTANT_CLEAR_WORDS as nat
    };
    if p > 0 {
        let next = offset + chunk * 4;
        let rest = push_constant::clear_commands(layout, next, (words - chunk) as nat);
        lemma_clear_stays_within(layout, next, (words - chunk) as nat, p - 1);
        assert(push_constant::clear_commands(layout, offset, words)[p] == rest[p - 1]);
    }
}

proof fn lemma_clears_stay_within(
    raw: Seq<RawView>,
    layout: RawHandle,
    ranges: Seq<PushConstantRange>,
    n: nat,
    p: int,
)
    requires
        is_separate(ranges),
        n <= ranges.len(),
        raw.len() <= p < run::clear_ranges(raw, layout, ranges, n).len(),
    ensures
        exists|i: int|
            0 <= i < n && stays_within(
                run::clear_ranges(raw, layout, ranges, n)[p],
                (#[trigger] ranges[i]).start as int,
                ranges[i].end as int,
            ),
    decreases n,
{
    let before = run::clear_ranges(raw, layout, ranges, (n - 1) as nat);
    if p < before.len() {
        lemma_clears_stay_within(raw, layout, ranges, (n - 1) as nat, p);
    } else {
        let range = ranges[n - 1];
        let words = ((range.end - range.start) / 4) as nat;
        assert(range.start < range.end);
        lemma_clear_stays_within(layout, range.start as int, words, p - before.len());
        assert(stays_within(
            run::clear_ranges(raw, layout, ranges, n)[p],
            range.start as int,
            range.end as int,
        ));
    }
}

/// Setting a pipeline sets no push constant outside the ranges of its layout: each byte that it clears is one of a
/// range.
pub proof fn only_push_constants_of_the_layout_are_cleared(
    s: RunView,
    pipeline: Arc<ComputePipeline>,
    p: int,
    at: int,
)
    requires
        is_layout(pipeline.layout.push_constant_ranges@),
        s.set_pipeline(pipeline) matches Step::Done(t) && s.out.raw.len() <= p < t.out.raw.len()
            && (t.out.raw[p] matches RawView::SetPushConstants { offset, data, .. } && offset <= at
            < offset + 4 * data.len()),
    ensures
        exists|q: int|
            {
                &&& 0 <= q < pipeline.layout.push_constant_ranges@.len()
                &&& (#[trigger] pipeline.layout.push_constant_ranges@[q]).start <= at
                    < pipeline.layout.push_constant_ranges@[q].end
            },
{
    let t = s.set_pipeline(pipeline)->Done_0;
    let layout = pipeline.layout;
    let given = layout.push_constant_ranges@;
    let ranges = push_constant::nonoverlapping_ranges(given);
    let set = s.out.raw.push(RawView::SetComputePipeline(pipeline.raw));
    let binder = s.binder.change_pipeline_layout(layout, pipeline.late_sized_buffer_groups@);
    let start = s.binder.rebind_start(layout);
    let stop = binder.rebind_end(s.binder.first_changed_slot(layout));
    let bound = run::rebind(set, layout.raw, binder.payloads, start, (stop - start) as nat).0;
    warrant::lemma_rebind_calls(set, layout.raw, binder.payloads, start, (stop - start) as nat);
    assert(t.out.raw != set);
    assert(t.out.raw == run::clear_ranges(bound, layout.raw, ranges, ranges.len()));
    warrant::lemma_clear_ranges_calls(bound, layout.raw, ranges, ranges.len());
    assert(p >= bound.len());
    new_ranges_do_not_overlap(given);
    lemma_clears_stay_within(bound, layout.raw, ranges, ranges.len(), p);
    let i = choose|i: int|
        0 <= i < ranges.len() && stays_within(
            t.out.raw[p],
            (#[trigger] ranges[i]).start as int,
            ranges[i].end as int,
        );
    let changes = push_constant::sorted_changes(given, given.len());
    lemma_sorted_ascending(given, given.len());
    lemma_swept_is_open(changes, changes.len(), i);
    let all = ranges[i].stages;
    let stage = all & !((all - 1) as u32);
    assert(all != 0 ==> stage != 0 && stage & ((stage - 1) as u32) == 0 && all & stage != 0)
        by (bit_vector)
        requires
            stage == all & !((all - 1) as u32),
    ;
    new_ranges_hold_nothing_else(given, i, at as u32, stage);
}

} // verus!
