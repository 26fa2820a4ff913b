//! The calls that a pass makes on the graphics backend, as values.
//!
//! Recording a pass never talks to the backend. It writes down the calls to be made, in order, and
//! whoever drives the backend makes them.
use crate::id::{RawHandle, TextureId};
use crate::track::Transition;
use crate::types::{BufferAddress, DynamicOffset, ShaderStages};
use vstd::prelude::*;

verus! {

/// Where the backend writes timestamps at the two ends of a pass.
#[derive(Clone, Copy, Debug, PartialEq, Eq, Structural)]
pub struct RawTimestampWrites {
    pub query_set: RawHandle,
    pub beginning_of_pass_write_index: Option<u32>,
    pub end_of_pass_write_index: Option<u32>,
}

/// One call on the encoder of the backend.
#[derive(Debug, PartialEq, Eq)]
pub enum RawCommand {
    BeginComputePass { label: Option<String>, timestamp_writes: Option<RawTimestampWrites> },
    EndComputePass,
    SetComputePipeline(RawHandle),
    SetBindGroup {
        layout: RawHandle,
        index: u32,
        group: RawHandle,
        dynamic_offsets: Vec<DynamicOffset>,
    },
    SetPushConstants { layout: RawHandle, stages: ShaderStages, offset: u32, data: Vec<u32> },
    Dispatch([u32; 3]),
    DispatchIndirect { buffer: RawHandle, offset: BufferAddress },
    BeginDebugMarker(String),
    EndDebugMarker,
    InsertDebugMarker(String),
    /// Resets the queries `start..end`.
    ResetQueries { query_set: RawHandle, start: u32, end: u32 },
    WriteTimestamp { query_set: RawHandle, index: u32 },
    BeginQuery { query_set: RawHandle, index: u32 },
    EndQuery { query_set: RawHandle, index: u32 },
    TransitionBuffers(Vec<Transition>),
    TransitionTextures(Vec<Transition>),
    /// Fills one surface of a texture with zeros.
    ClearSurface { texture: TextureId, mip_level: u32, layer: u32 },
}

/// What a [`RawCommand`] says.
pub enum RawView {
    BeginComputePass { label: Option<Seq<char>>, timestamp_writes: Option<RawTimestampWrites> },
    EndComputePass,
    SetComputePipeline(RawHandle),
    SetBindGroup {
        layout: RawHandle,
        index: u32,
        group: RawHandle,
        dynamic_offsets: Seq<DynamicOffset>,
    },
    SetPushConstants { layout: RawHandle, stages: ShaderStages, offset: u32, data: Seq<u32> },
    Dispatch([u32; 3]),
    DispatchIndirect { buffer: RawHandle, offset: BufferAddress },
    BeginDebugMarker(Seq<char>),
    EndDebugMarker,
    InsertDebugMarker(Seq<char>),
    ResetQueries { query_set: RawHandle, start: u32, end: u32 },
    WriteTimestamp { query_set: RawHandle, index: u32 },
    BeginQuery { query_set: RawHandle, index: u32 },
    EndQuery { query_set: RawHandle, index: u32 },
    TransitionBuffers(Seq<Transition>),
    TransitionTextures(Seq<Transition>),
    ClearSurface { texture: TextureId, mip_level: u32, layer: u32 },
}

/// The characters of a label, where there is one.
pub open spec fn label_view(label: Option<String>) -> Option<Seq<char>> {
    match label {
        Some(text) => Some(text@),
        None => None,
    }
}

impl View for RawCommand {
    type V = RawView;

    open spec fn view(&self) -> RawView {
        match *self {
            RawCommand::BeginComputePass { label, timestamp_writes } => RawView::BeginComputePass {
                label: label_view(label),
                timestamp_writes,
            },
            RawCommand::EndComputePass => RawView::EndComputePass,
            RawCommand::SetComputePipeline(raw) => RawView::SetComputePipeline(raw),
            RawCommand::SetBindGroup { layout, index, group, dynamic_offsets } => {
                RawView::SetBindGroup { layout, index, group, dynamic_offsets: dynamic_offsets@ }
            },
            RawCommand::SetPushConstants { layout, stages, offset, data } => {
                RawView::SetPushConstants { layout, stages, offset, data: data@ }
            },
            RawCommand::Dispatch(groups) => RawView::Dispatch(groups),
            RawCommand::DispatchIndirect { buffer, offset } => RawView::DispatchIndirect {
                buffer,
                offset,
            },
            RawCommand::BeginDebugMarker(label) => RawView::BeginDebugMarker(label@),
            RawCommand::EndDebugMarker => RawView::EndDebugMarker,
            RawCommand::InsertDebugMarker(label) => RawView::InsertDebugMarker(label@),
            RawCommand::ResetQueries { query_set, start, end } => RawView::ResetQueries {
                query_set,
                start,
                end,
            },
            RawCommand::WriteTimestamp { query_set, index } => RawView::WriteTimestamp {
                query_set,
                index,
            },
            RawCommand::BeginQuery { query_set, index } => RawView::BeginQuery {
                query_set,
                index,
            },
            RawCommand::EndQuery { query_set, index } => RawView::EndQuery { query_set, index },
            RawCommand::TransitionBuffers(list) => RawView::TransitionBuffers(list@),
            RawCommand::TransitionTextures(list) => RawView::TransitionTextures(list@),
            RawCommand::ClearSurface { texture, mip_level, layer } => RawView::ClearSurface {
                texture,
                mip_level,
                layer,
            },
        }
    }
}

/// What a sequence of commands says.
pub open spec fn raw_views(commands: Seq<RawCommand>) -> Seq<RawView> {
    Seq::new(commands.len(), |i: int| commands[i]@)
}

/// The calls of one stretch of encoding, in the order in which they are to be made.
#[derive(Debug)]
pub struct RawEncoder {
    pub commands: Vec<RawCommand>,
}

impl View for RawEncoder {
    type V = Seq<RawView>;

    open spec fn view(&self) -> Seq<RawView> {
        raw_views(self.commands@)
    }
}

impl RawEncoder {
    /// Nothing is to be done.
    pub fn new() -> (r: Self)
        ensures
            r@ == Seq::<RawView>::empty(),
    {
        RawEncoder { commands: Vec::new() }
    }

    /// Adds one call behind the others.
    pub fn record(&mut self, command: RawCommand)
        ensures
            final(self)@ == old(self)@.push(command@),
    {
        self.commands.push(command);
        assert(self@ =~= old(self)@.push(command@));
    }
}

} // verus!
