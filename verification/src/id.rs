//! Identifiers of the objects that a pass refers to.
//!
//! An identifier is an opaque number handed out by whoever created the object. Two identifiers of
//! one kind denote the same object exactly when they are equal; the kinds are kept apart by type.
use vstd::prelude::*;

verus! {

/// Identifies a command encoder, and the command buffer that it records into.
#[derive(Clone, Copy, Debug, PartialEq, Eq, Hash, Structural)]
pub struct CommandEncoderId(pub u64);

/// Identifies a device.
#[derive(Clone, Copy, Debug, PartialEq, Eq, Hash, Structural)]
pub struct DeviceId(pub u64);

/// Identifies a bind group.
#[derive(Clone, Copy, Debug, PartialEq, Eq, Hash, Structural)]
pub struct BindGroupId(pub u64);

/// Identifies a bind group layout.
#[derive(Clone, Copy, Debug, PartialEq, Eq, Hash, Structural)]
pub struct BindGroupLayoutId(pub u64);

/// Identifies a pipeline layout.
#[derive(Clone, Copy, Debug, PartialEq, Eq, Hash, Structural)]
pub struct PipelineLayoutId(pub u64);

/// Identifies a compute pipeline.
#[derive(Clone, Copy, Debug, PartialEq, Eq, Hash, Structural)]
pub struct ComputePipelineId(pub u64);

/// Identifies a buffer.
#[derive(Clone, Copy, Debug, PartialEq, Eq, Hash, Structural)]
pub struct BufferId(pub u64);

/// Identifies a texture.
#[derive(Clone, Copy, Debug, PartialEq, Eq, Hash, Structural)]
pub struct TextureId(pub u64);

/// Identifies a query set.
#[derive(Clone, Copy, Debug, PartialEq, Eq, Hash, Structural)]
pub struct QuerySetId(pub u64);

/// Names an object of the graphics backend. The library only passes handles on.
#[derive(Clone, Copy, Debug, PartialEq, Eq, Hash, Structural)]
pub struct RawHandle(pub u64);

/// The slot that a tracked resource occupies in the usage trackers of its device.
#[derive(Clone, Copy, Debug, PartialEq, Eq, Hash, Structural)]
pub struct TrackerIndex(pub u32);

} // verus!
