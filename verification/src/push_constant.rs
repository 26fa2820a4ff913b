//! Push constants: which of them a pipeline layout has, and how they are cleared.
use crate::id::RawHandle;
use crate::raw::{RawCommand, RawEncoder, RawView};
use crate::resource::PipelineLayout;
use crate::types;
use crate::types::{
    contains_flags, PushConstantRange, ShaderStages, COMPUTE_STAGE, NO_STAGES,
    PUSH_CONSTANT_ALIGNMENT,
};
use vstd::prelude::*;

verus! {

/// Push constants cannot be written as they were asked for.
#[derive(Clone, Copy, Debug, PartialEq, Eq, Structural)]
pub enum PushConstantUploadError {
    TooLarge { offset: u32, end_offset: u32, idx: usize, range: PushConstantRange },
    PartialRangeMatch { actual: ShaderStages, idx: usize, matched: ShaderStages },
    MissingStages { actual: ShaderStages, idx: usize, missing: ShaderStages },
    UnmatchedStages { actual: ShaderStages, unmatched: ShaderStages },
    Unaligned(u32),
}

/// What one range of a layout has against a write of bytes `offset..end_offset` for `stages`. A range
/// of which all stages are written has to hold all of the bytes. A range of which only some stages
/// are written, or that shares a byte with the write and none of its stages, is left with stages that
/// the write forgot.
pub open spec fn range_error(
    range: PushConstantRange,
    idx: int,
    stages: ShaderStages,
    offset: u32,
    end_offset: u32,
) -> Option<PushConstantUploadError> {
    if types::has_flags(stages, range.stages) {
        if range.start <= offset && end_offset <= range.end {
            None
        } else {
            Some(
                PushConstantUploadError::TooLarge { offset, end_offset, idx: idx as usize, range },
            )
        }
    } else if stages & range.stages != 0 {
        Some(
            PushConstantUploadError::PartialRangeMatch {
                actual: stages,
                idx: idx as usize,
                matched: range.stages,
            },
        )
    } else if offset < range.end && range.start < end_offset {
        Some(
            PushConstantUploadError::MissingStages {
                actual: stages,
                idx: idx as usize,
                missing: stages,
            },
        )
    } else {
        None
    }
}

/// What the first of the first `n` ranges that has something against the write has against it.
pub open spec fn first_range_error(
    ranges: Seq<PushConstantRange>,
    stages: ShaderStages,
    offset: u32,
    end_offset: u32,
    n: nat,
) -> Option<PushConstantUploadError>
    decreases n,
{
    if n == 0 {
        None
    } else {
        match first_range_error(ranges, stages, offset, end_offset, (n - 1) as nat) {
            Some(e) => Some(e),
            None => range_error(ranges[n - 1], n - 1, stages, offset, end_offset),
        }
    }
}

/// The stages of those of the first `n` ranges all of whose stages are in `stages`.
pub open spec fn used_stages(ranges: Seq<PushConstantRange>, stages: ShaderStages, n: nat) -> ShaderStages
    decreases n,
{
    if n == 0 {
        NO_STAGES
    } else {
        let before = used_stages(ranges, stages, (n - 1) as nat);
        if types::has_flags(stages, ranges[n - 1].stages) {
            before | ranges[n - 1].stages
        } else {
            before
        }
    }
}

/// What a layout with `ranges` has against a write of bytes `offset..end_offset` for `stages`: the
/// write is not aligned, one of the ranges is against it, or some stage has no range at all.
pub open spec fn push_constant_error(
    ranges: Seq<PushConstantRange>,
    stages: ShaderStages,
    offset: u32,
    end_offset: u32,
) -> Option<PushConstantUploadError> {
    if offset as int % PUSH_CONSTANT_ALIGNMENT as int != 0 {
        Some(PushConstantUploadError::Unaligned(offset))
    } else {
        match first_range_error(ranges, stages, offset, end_offset, ranges.len()) {
            Some(e) => Some(e),
            None => {
                let used = used_stages(ranges, stages, ranges.len());
                if used != stages {
                    Some(
                        PushConstantUploadError::UnmatchedStages {
                            actual: stages,
                            unmatched: stages & !used,
                        },
                    )
                } else {
                    None
                }
            },
        }
    }
}

proof fn lemma_range_error_stays(
    ranges: Seq<PushConstantRange>,
    stages: ShaderStages,
    offset: u32,
    end_offset: u32,
    n: nat,
    m: nat,
)
    requires
        n <= m,
        first_range_error(ranges, stages, offset, end_offset, n) is Some,
    ensures
        first_range_error(ranges, stages, offset, end_offset, m) == first_range_error(
            ranges,
            stages,
            offset,
            end_offset,
            n,
        ),
    decreases m,
{
    if n < m {
        lemma_range_error_stays(ranges, stages, offset, end_offset, n, (m - 1) as nat);
    }
}

impl PipelineLayout {
    /// Checks that bytes `offset..end_offset` of the push constants can be written for `stages`.
    pub fn validate_push_constant_ranges(
        &self,
        stages: ShaderStages,
        offset: u32,
        end_offset: u32,
    ) -> (r: Result<(), PushConstantUploadError>)
        ensures
            match push_constant_error(self.push_constant_ranges@, stages, offset, end_offset) {
                None => r is Ok,
                Some(e) => r == Err::<(), PushConstantUploadError>(e),
            },
    {
        if offset % PUSH_CONSTANT_ALIGNMENT != 0 {
            return Err(PushConstantUploadError::Unaligned(offset));
        }
        let ghost ranges = self.push_constant_ranges@;
        let mut used: ShaderStages = NO_STAGES;
        let mut idx: usize = 0;
        while idx < self.push_constant_ranges.len()
            invariant
                offset as int % PUSH_CONSTANT_ALIGNMENT as int == 0,
                idx <= self.push_constant_ranges.len(),
                ranges == self.push_constant_ranges@,
                first_range_error(ranges, stages, offset, end_offset, idx as nat) is None,
                used == used_stages(ranges, stages, idx as nat),
            decreases self.push_constant_ranges.len() - idx,
        {
            let range: PushConstantRange = self.push_constant_ranges[idx];
            proof {
                if first_range_error(ranges, stages, offset, end_offset, (idx + 1) as nat) is Some {
                    lemma_range_error_stays(
                        ranges,
                        stages,
                        offset,
                        end_offset,
                        (idx + 1) as nat,
                        ranges.len(),
                    );
                }
            }
            if contains_flags(stages, range.stages) {
                if !(range.start <= offset && end_offset <= range.end) {
                    return Err(
                        PushConstantUploadError::TooLarge { offset, end_offset, idx, range },
                    );
                }
                used = used | range.stages;
            } else if stages & range.stages != 0 {
                return Err(
                    PushConstantUploadError::PartialRangeMatch {
                        actual: stages,
                        idx,
                        matched: range.stages,
                    },
                );
            } else if offset < range.end && range.start < end_offset {
                return Err(
                    PushConstantUploadError::MissingStages { actual: stages, idx, missing: stages },
                );
            }
            idx = idx + 1;
        }
        if used != stages {
            return Err(
                PushConstantUploadError::UnmatchedStages {
                    actual: stages,
                    unmatched: stages & !used,
                },
            );
        }
        Ok(())
    }
}

/// A byte offset at which some stages begin, or cease, to have push constants.
#[derive(Clone, Copy, Debug, PartialEq, Eq, Structural)]
pub struct PushConstantChange {
    pub stages: ShaderStages,
    pub offset: u32,
    pub enable: bool,
}

/// The number of changes, among the first `n`, that stand before a new change at `offset`.
pub open spec fn changes_before(changes: Seq<PushConstantChange>, offset: u32, n: nat) -> nat
    decreases n,
{
    if n == 0 {
        0
    } else {
        let before = changes_before(changes, offset, (n - 1) as nat);
        if before == n - 1 && changes[n - 1].offset <= offset {
            n
        } else {
            before
        }
    }
}

/// Puts a change behind those at smaller or equal offsets.
pub open spec fn insert_change(changes: Seq<PushConstantChange>, change: PushConstantChange) -> Seq<
    PushConstantChange,
> {
    changes.insert(changes_before(changes, change.offset, changes.len()) as int, change)
}

/// The two ends of the first `n` ranges, in ascending order of their offsets.
pub open spec fn sorted_changes(ranges: Seq<PushConstantRange>, n: nat) -> Seq<PushConstantChange>
    decreases n,
{
    if n == 0 {
        Seq::empty()
    } else {
        let range = ranges[n - 1];
        insert_change(
            insert_change(
                sorted_changes(ranges, (n - 1) as nat),
                PushConstantChange { stages: range.stages, offset: range.start, enable: true },
            ),
            PushConstantChange { stages: range.stages, offset: range.end, enable: false },
        )
    }
}

/// Where a sweep over the changes stands: how far it has come, the stages that have push constants
/// there, and the ranges that lie behind it.
pub struct Sweep {
    pub position: u32,
    pub stages: ShaderStages,
    pub ranges: Seq<PushConstantRange>,
}

/// The sweep after the first `n` changes.
pub open spec fn sweep(changes: Seq<PushConstantChange>, n: nat) -> Sweep
    decreases n,
{
    if n == 0 {
        Sweep { position: 0, stages: NO_STAGES, ranges: Seq::empty() }
    } else {
        let before = sweep(changes, (n - 1) as nat);
        let change = changes[n - 1];
        Sweep {
            position: change.offset,
            stages: if change.enable {
                before.stages | change.stages
            } else {
                before.stages & !change.stages
            },
            ranges: if change.offset > before.position && before.stages != 0 {
                before.ranges.push(
                    PushConstantRange {
                        stages: before.stages,
                        start: before.position,
                        end: change.offset,
                    },
                )
            } else {
                before.ranges
            },
        }
    }
}

/// The given ranges, broken up so that no two overlap.
pub open spec fn nonoverlapping_ranges(ranges: Seq<PushConstantRange>) -> Seq<PushConstantRange> {
    let changes = sorted_changes(ranges, ranges.len());
    sweep(changes, changes.len()).ranges
}

pub(crate) proof fn lemma_changes_before(changes: Seq<PushConstantChange>, offset: u32, n: nat)
    requires
        n <= changes.len(),
    ensures
        changes_before(changes, offset, n) <= n,
        forall|i: int|
            0 <= i < changes_before(changes, offset, n) ==> (#[trigger] changes[i]).offset
                <= offset,
        changes_before(changes, offset, n) < n ==> changes[changes_before(
            changes,
            offset,
            n,
        ) as int].offset > offset,
    decreases n,
{
    if n > 0 {
        lemma_changes_before(changes, offset, (n - 1) as nat);
    }
}

proof fn lemma_changes_before_stays(
    changes: Seq<PushConstantChange>,
    offset: u32,
    n: nat,
    m: nat,
)
    requires
        n <= m,
        changes_before(changes, offset, n) < n,
    ensures
        changes_before(changes, offset, m) == changes_before(changes, offset, n),
    decreases m,
{
    if n < m {
        lemma_changes_before_stays(changes, offset, n, (m - 1) as nat);
    }
}

fn insert_change_exec(changes: &mut Vec<PushConstantChange>, change: PushConstantChange)
    ensures
        final(changes)@ == insert_change(old(changes)@, change),
{
    let mut k: usize = 0;
    while k < changes.len() && changes[k].offset <= change.offset
        invariant
            k <= changes.len(),
            changes@ == old(changes)@,
            changes_before(changes@, change.offset, k as nat) == k,
        decreases changes.len() - k,
    {
        k = k + 1;
    }
    proof {
        if k < changes.len() {
            lemma_changes_before_stays(changes@, change.offset, (k + 1) as nat, changes@.len());
        }
    }
    changes.insert(k, change);
}

/// Breaks up ranges that may overlap into ranges that do not. Where no stage has two ranges, each byte
/// of a range is in one of the new ranges, which has all the stages of the ranges that hold the byte.
pub fn compute_nonoverlapping_ranges(ranges: &Vec<PushConstantRange>) -> (r: Vec<PushConstantRange>)
    ensures
        r@ == nonoverlapping_ranges(ranges@),
{
    let mut changes: Vec<PushConstantChange> = Vec::new();
    let mut i: usize = 0;
    while i < ranges.len()
        invariant
            i <= ranges.len(),
            changes@ == sorted_changes(ranges@, i as nat),
        decreases ranges.len() - i,
    {
        let range: PushConstantRange = ranges[i];
        insert_change_exec(
            &mut changes,
            PushConstantChange { stages: range.stages, offset: range.start, enable: true },
        );
        insert_change_exec(
            &mut changes,
            PushConstantChange { stages: range.stages, offset: range.end, enable: false },
        );
        i = i + 1;
    }
    let mut output: Vec<PushConstantRange> = Vec::new();
    let mut position: u32 = 0;
    let mut stages: ShaderStages = NO_STAGES;
    let mut j: usize = 0;
    while j < changes.len()
        invariant
            j <= changes.len(),
            sweep(changes@, j as nat) == (Sweep { position, stages, ranges: output@ }),
        decreases changes.len() - j,
    {
        let change: PushConstantChange = changes[j];
        if change.offset > position && stages != 0 {
            output.push(PushConstantRange { stages, start: position, end: change.offset });
        }
        position = change.offset;
        stages =
        if change.enable {
            stages | change.stages
        } else {
            stages & !change.stages
        };
        j = j + 1;
    }
    output
}

/// None of the new ranges is empty.
pub(crate) proof fn lemma_nonoverlapping_range_not_empty(ranges: Seq<PushConstantRange>, i: int)
    requires
        0 <= i < nonoverlapping_ranges(ranges).len(),
    ensures
        nonoverlapping_ranges(ranges)[i].start < nonoverlapping_ranges(ranges)[i].end,
{
    let changes = sorted_changes(ranges, ranges.len());
    lemma_swept_range_not_empty(changes, changes.len(), i);
}

proof fn lemma_swept_range_not_empty(changes: Seq<PushConstantChange>, n: nat, i: int)
    requires
        0 <= i < sweep(changes, n).ranges.len(),
    ensures
        sweep(changes, n).ranges[i].start < sweep(changes, n).ranges[i].end,
    decreases n,
{
    if n > 0 && i < sweep(changes, (n - 1) as nat).ranges.len() {
        lemma_swept_range_not_empty(changes, (n - 1) as nat, i);
    }
}

/// The number of words that one call clears at most.
pub const PUSH_CONSTANT_CLEAR_WORDS: u32 = 64;

/// The calls that set `words` words of push constants from byte `offset` on to zero.
pub open spec fn clear_commands(layout: RawHandle, offset: int, words: nat) -> Seq<RawView>
    decreases words,
{
    if words == 0 {
        Seq::empty()
    } else {
        let chunk = if words < PUSH_CONSTANT_CLEAR_WORDS {
            words
        } else {
            PUSH_CONSTANT_CLEAR_WORDS as nat
        };
        seq![
            RawView::SetPushConstants {
                layout,
                stages: COMPUTE_STAGE,
                offset: offset as u32,
                data: Seq::new(chunk, |i: int| 0u32),
            },
        ] + clear_commands(
            layout,
            offset + chunk * PUSH_CONSTANT_ALIGNMENT,
            (words - chunk) as nat,
        )
    }
}

/// Sets the push constants in bytes `offset..offset + size_bytes` to zero.
pub fn push_constant_clear(raw: &mut RawEncoder, layout: RawHandle, offset: u32, size_bytes: u32)
    requires
        offset + size_bytes <= u32::MAX,
    ensures
        final(raw)@ == old(raw)@ + clear_commands(
            layout,
            offset as int,
            (size_bytes / PUSH_CONSTANT_ALIGNMENT) as nat,
        ),
{
    let ghost all = clear_commands(
        layout,
        offset as int,
        (size_bytes / PUSH_CONSTANT_ALIGNMENT) as nat,
    );
    let size_words: u32 = size_bytes / PUSH_CONSTANT_ALIGNMENT;
    let mut count_words: u32 = 0;
    assert(raw@ + all == old(raw)@ + all);
    while count_words < size_words
        invariant
            count_words <= size_words,
            size_words * PUSH_CONSTANT_ALIGNMENT <= size_bytes,
            offset + size_bytes <= u32::MAX,
            raw@ + clear_commands(
                layout,
                offset + count_words * PUSH_CONSTANT_ALIGNMENT,
                (size_words - count_words) as nat,
            ) == old(raw)@ + all,
        decreases size_words - count_words,
    {
        let count_bytes: u32 = count_words * PUSH_CONSTANT_ALIGNMENT;
        let left: u32 = size_words - count_words;
        let chunk: u32 = if left < PUSH_CONSTANT_CLEAR_WORDS {
            left
        } else {
            PUSH_CONSTANT_CLEAR_WORDS
        };
        let mut data: Vec<u32> = Vec::new();
        while data.len() < chunk as usize
            invariant
                data@ == Seq::new(data@.len(), |i: int| 0u32),
                data.len() <= chunk,
            decreases chunk - data.len(),
        {
            data.push(0);
            assert(data@ =~= Seq::new(data@.len(), |i: int| 0u32));
        }
        let ghost command = RawView::SetPushConstants {
            layout,
            stages: COMPUTE_STAGE,
            offset: (offset + count_bytes) as u32,
            data: data@,
        };
        let ghost before = raw@;
        raw.record(
            RawCommand::SetPushConstants {
                layout,
                stages: COMPUTE_STAGE,
                offset: offset + count_bytes,
                data,
            },
        );
        count_words = count_words + chunk;
        proof {
            let rest = clear_commands(
                layout,
                offset + count_words * PUSH_CONSTANT_ALIGNMENT,
                (size_words - count_words) as nat,
            );
            assert(before.push(command) + rest =~= before + (seq![command] + rest));
        }
    }
    assert(raw@ + Seq::<RawView>::empty() =~= raw@);
}

} // verus!
