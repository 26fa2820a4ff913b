//! Which push constants can be written.
use crate::push_constant;
use crate::push_constant::PushConstantUploadError;
use crate::types::{PushConstantRange, ShaderStages};
use vstd::prelude::*;

verus! {

/// A range has nothing against a write of bytes `offset..end` for some stages: either all its stages are
/// written and it holds all of the bytes, or none of them is written and it holds none of the bytes.
pub open spec fn agrees(range: PushConstantRange, stages: ShaderStages, offset: u32, end: u32) -> bool {
    if range.stages & !stages == 0 {
        range.start <= offset && end <= range.end
    } else {
        range.stages & stages == 0 && (end <= range.start || range.end <= offset)
    }
}

/// Some range of which all stages are written has one of the given stages.
pub open spec fn is_provided(ranges: Seq<PushConstantRange>, stages: ShaderStages, some: ShaderStages) -> bool {
    exists|i: int|
        0 <= i < ranges.len() && (#[trigger] ranges[i]).stages & !stages == 0 && ranges[i].stages
            & some != 0
}

proof fn lemma_part(whole: u32, part: u32)
    ensures
        (whole & part == part) == (part & !whole == 0),
{
    assert((whole & part == part) == (part & !whole == 0)) by (bit_vector);
}

proof fn lemma_used_stages(ranges: Seq<PushConstantRange>, stages: ShaderStages, some: u32, n: nat)
    requires
        n <= ranges.len(),
    ensures
        push_constant::used_stages(ranges, stages, n) & !stages == 0,
        push_constant::used_stages(ranges, stages, n) & some != 0 ==> is_provided(
            ranges,
            stages,
            some,
        ),
        forall|i: int|
            0 <= i < n && (#[trigger] ranges[i]).stages & !stages == 0 && ranges[i].stages & some
                != 0 ==> push_constant::used_stages(ranges, stages, n) & some != 0,
    decreases n,
{
    if n == 0 {
        assert(0u32 & !stages == 0 && 0u32 & some == 0) by (bit_vector);
    } else {
        lemma_used_stages(ranges, stages, some, (n - 1) as nat);
        let before = push_constant::used_stages(ranges, stages, (n - 1) as nat);
        let own = ranges[n - 1].stages;
        lemma_part(stages, own);
        if own & !stages == 0 {
            assert((before | own) & !stages == 0) by (bit_vector)
                requires
                    before & !stages == 0,
                    own & !stages == 0,
            ;
            assert(((before | own) & some != 0) == (before & some != 0 || own & some != 0))
                by (bit_vector);
        }
    }
}

proof fn lemma_first_range_error(
    ranges: Seq<PushConstantRange>,
    stages: ShaderStages,
    offset: u32,
    end: u32,
    n: nat,
)
    requires
        n <= ranges.len(),
        ranges.len() <= usize::MAX,
    ensures
        match push_constant::first_range_error(ranges, stages, offset, end, n) {
            None => forall|i: int|
                0 <= i < n ==> agrees(#[trigger] ranges[i], stages, offset, end),
            Some(e) => {
                let idx = match e {
                    PushConstantUploadError::TooLarge { idx, .. } => idx as int,
                    PushConstantUploadError::PartialRangeMatch { idx, .. } => idx as int,
                    PushConstantUploadError::MissingStages { idx, .. } => idx as int,
                    _ => -1,
                };
                &&& 0 <= idx < n
                &&& !agrees(ranges[idx], stages, offset, end)
                &&& forall|i: int|
                    0 <= i < idx ==> agrees(#[trigger] ranges[i], stages, offset, end)
                &&& is_accurate(e, ranges, stages, offset, end)
            },
        },
    decreases n,
{
    if n > 0 {
        lemma_first_range_error(ranges, stages, offset, end, (n - 1) as nat);
        let own = ranges[n - 1].stages;
        lemma_part(stages, own);
        assert(stages & own == own & stages) by (bit_vector);
    }
}

/// What the error says of the write and of the range that it names is true.
pub open spec fn is_accurate(
    e: PushConstantUploadError,
    ranges: Seq<PushConstantRange>,
    stages: ShaderStages,
    offset: u32,
    end: u32,
) -> bool {
    match e {
        PushConstantUploadError::Unaligned(at) => at == offset && offset as int % 4 != 0,
        PushConstantUploadError::TooLarge { offset: at, end_offset, idx, range } => {
            &&& at == offset
            &&& end_offset == end
            &&& idx < ranges.len()
            &&& range == ranges[idx as int]
            &&& range.stages & !stages == 0
            &&& offset < range.start || range.end < end
        },
        PushConstantUploadError::PartialRangeMatch { actual, idx, matched } => {
            &&& actual == stages
            &&& idx < ranges.len()
            &&& matched == ranges[idx as int].stages
            &&& matched & stages != 0
            &&& matched & !stages != 0
        },
        PushConstantUploadError::MissingStages { actual, idx, missing } => {
            &&& actual == stages
            &&& missing == stages
            &&& idx < ranges.len()
            &&& ranges[idx as int].stages & stages == 0
            &&& ranges[idx as int].stages & !stages != 0
            &&& offset < ranges[idx as int].end
            &&& ranges[idx as int].start < end
        },
        PushConstantUploadError::UnmatchedStages { actual, unmatched } => {
            &&& actual == stages
            &&& unmatched != 0
            &&& unmatched & !stages == 0
            &&& !is_provided(ranges, stages, unmatched)
        },
    }
}

/// A write is accepted exactly where it is aligned, all ranges of the layout agree with it, and each of its
/// stages has a range. Otherwise what the error says is true, and of several ranges that do not agree the
/// first is named.
pub proof fn fitting_writes_are_accepted(
    ranges: Seq<PushConstantRange>,
    stages: ShaderStages,
    offset: u32,
    end: u32,
)
    requires
        ranges.len() <= usize::MAX,
    ensures
        match push_constant::push_constant_error(ranges, stages, offset, end) {
            None => {
                &&& offset as int % 4 == 0
                &&& forall|i: int|
                    0 <= i < ranges.len() ==> agrees(#[trigger] ranges[i], stages, offset, end)
                &&& forall|some: u32|
                    some & stages != 0 ==> #[trigger] is_provided(ranges, stages, some)
            },
            Some(e) => {
                &&& is_accurate(e, ranges, stages, offset, end)
                &&& !(e is Unaligned) ==> offset as int % 4 == 0
                &&& e is UnmatchedStages ==> forall|i: int|
                    0 <= i < ranges.len() ==> agrees(#[trigger] ranges[i], stages, offset, end)
                &&& e matches PushConstantUploadError::TooLarge { idx, .. } ==> forall|i: int|
                    0 <= i < idx ==> agrees(#[trigger] ranges[i], stages, offset, end)
                &&& e matches PushConstantUploadError::PartialRangeMatch { idx, .. } ==> forall|
                    i: int,
                |
                    0 <= i < idx ==> agrees(#[trigger] ranges[i], stages, offset, end)
                &&& e matches PushConstantUploadError::MissingStages { idx, .. } ==> forall|i: int|
                    0 <= i < idx ==> agrees(#[trigger] ranges[i], stages, offset, end)
            },
        },
{
    let n = ranges.len();
    lemma_first_range_error(ranges, stages, offset, end, n);
    let used = push_constant::used_stages(ranges, stages, n);
    let unmatched = stages & !used;
    lemma_used_stages(ranges, stages, unmatched, n);
    assert(used & (stages & !used) == 0) by (bit_vector);
    assert((stages & !used) & !stages == 0) by (bit_vector);
    if used != stages {
        assert(stages & !used != 0) by (bit_vector)
            requires
                used != stages,
                used & !stages == 0,
        ;
        if is_provided(ranges, stages, unmatched) {
            let i = choose|i: int|
                0 <= i < ranges.len() && (#[trigger] ranges[i]).stages & !stages == 0
                    && ranges[i].stages & unmatched != 0;
            assert(used & unmatched != 0);
        }
    } else {
        assert forall|some: u32| some & stages != 0 implies #[trigger] is_provided(
            ranges,
            stages,
            some,
        ) by {
            lemma_used_stages(ranges, stages, some, n);
            assert(stages & some == some & stages) by (bit_vector);
        }
    }
}

/// A layout with a single range, for exactly the stages that are written, accepts each aligned write within
/// that range.
pub proof fn writes_within_the_range_are_accepted(
    range: PushConstantRange,
    offset: u32,
    end: u32,
)
    requires
        offset as int % 4 == 0,
        range.start <= offset,
        end <= range.end,
    ensures
        push_constant::push_constant_error(seq![range], range.stages, offset, end) is None,
{
    let ranges = seq![range];
    let stages = range.stages;
    fitting_writes_are_accepted(ranges, stages, offset, end);
    assert(stages & !stages == 0) by (bit_vector);
    if let Some(e) = push_constant::push_constant_error(ranges, stages, offset, end) {
        assert(agrees(ranges[0], stages, offset, end));
        match e {
            PushConstantUploadError::UnmatchedStages { unmatched, .. } => {
                assert(stages & unmatched != 0) by (bit_vector)
                    requires
                        unmatched != 0,
                        unmatched & !stages == 0,
                ;
                assert(ranges[0].stages & unmatched != 0);
            },
            _ => {},
        }
    }
}

} // verus!
