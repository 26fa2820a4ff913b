//! Limits, capability flags and the few numbers that every part of a pass agrees on.
//!
//! A set of flags is a number with one bit for each flag.
use vstd::prelude::*;

verus! {

/// An offset into, or the size of, a buffer, in bytes.
pub type BufferAddress = u64;

/// An offset that a bind group takes when it is bound, in bytes.
pub type DynamicOffset = u32;

/// The number of bind group slots.
pub const MAX_BIND_GROUPS: usize = 8;

/// Push constants are addressed and sized in multiples of this many bytes.
pub const PUSH_CONSTANT_ALIGNMENT: u32 = 4;

/// The number of bytes that an indirect dispatch reads: three group counts of four bytes.
pub const DISPATCH_INDIRECT_ARGS_SIZE: u64 = 12;

/// Optional abilities of a device.
pub type Features = u64;

/// Timestamps may be written inside a pass.
pub const TIMESTAMP_QUERY_INSIDE_PASSES: Features = 0x2_0000_0000;

/// Abilities that a device may lack although most devices have them.
pub type DownlevelFlags = u32;

/// Dispatches may take their group counts from a buffer.
pub const INDIRECT_EXECUTION: DownlevelFlags = 0x4;

/// Settings of the instance that all devices share.
pub type InstanceFlags = u32;

/// Labels are not passed on to the graphics backend.
pub const DISCARD_HAL_LABELS: InstanceFlags = 0x4;

/// The purposes that a buffer was created for.
pub type BufferUsages = u32;

/// The buffer may hold the group counts of an indirect dispatch.
pub const BUFFER_USAGE_INDIRECT: BufferUsages = 0x100;

/// A set of shader stages.
pub type ShaderStages = u32;

/// No stage at all.
pub const NO_STAGES: ShaderStages = 0;

/// The vertex stage.
pub const VERTEX_STAGE: ShaderStages = 1;

/// The fragment stage.
pub const FRAGMENT_STAGE: ShaderStages = 2;

/// The compute stage.
pub const COMPUTE_STAGE: ShaderStages = 4;

/// Every flag of `part` is set in `whole`.
pub open spec fn has_flags(whole: u32, part: u32) -> bool {
    whole & part == part
}

/// Every feature of `part` is in `whole`.
pub open spec fn has_features(whole: Features, part: Features) -> bool {
    whole & part == part
}

/// Whether every flag of `part` is set in `whole`.
pub fn contains_flags(whole: u32, part: u32) -> (r: bool)
    ensures
        r == has_flags(whole, part),
{
    whole & part == part
}

/// Whether every feature of `part` is in `whole`.
pub fn contains_features(whole: Features, part: Features) -> (r: bool)
    ensures
        r == has_features(whole, part),
{
    whole & part == part
}

/// What a device allows at most, or demands at least.
#[derive(Clone, Copy, Debug, PartialEq, Eq, Structural)]
pub struct Limits {
    /// The number of bind group slots that a pipeline may use.
    pub max_bind_groups: u32,
    /// The largest group count of a dispatch in each dimension.
    pub max_compute_workgroups_per_dimension: u32,
    /// Dynamic offsets of uniform buffers are multiples of this.
    pub min_uniform_buffer_offset_alignment: u32,
    /// Dynamic offsets of storage buffers are multiples of this.
    pub min_storage_buffer_offset_alignment: u32,
}

/// Bytes `start..end` of the push constant space, as seen by `stages`.
#[derive(Clone, Copy, Debug, PartialEq, Eq, Structural)]
pub struct PushConstantRange {
    pub stages: ShaderStages,
    pub start: u32,
    pub end: u32,
}

} // verus!
