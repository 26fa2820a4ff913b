//! The commands of a compute pass.
use crate::id::{BindGroupId, BufferId, ComputePipelineId, QuerySetId};
use crate::resource::{BindGroup, Buffer, ComputePipeline, QuerySet};
use crate::types::{BufferAddress, DynamicOffset};
use std::sync::Arc;
use vstd::prelude::*;

verus! {

/// A command of a compute pass that names objects by their identifiers.
///
/// Data of variable length stands in the streams of the pass: a command only says how much of a
/// stream belongs to it.
#[derive(Clone, Copy, Debug, PartialEq, Eq)]
pub enum ComputeCommand {
    SetBindGroup { index: u32, num_dynamic_offsets: usize, bind_group_id: BindGroupId },
    SetPipeline(ComputePipelineId),
    /// Sets `size_bytes` bytes of push constants, from byte `offset` on, to the words from
    /// `values_offset` on.
    SetPushConstant { offset: u32, size_bytes: u32, values_offset: u32 },
    Dispatch([u32; 3]),
    DispatchIndirect { buffer_id: BufferId, offset: BufferAddress },
    PushDebugGroup { color: u32, len: usize },
    PopDebugGroup,
    InsertDebugMarker { color: u32, len: usize },
    WriteTimestamp { query_set_id: QuerySetId, query_index: u32 },
    BeginPipelineStatisticsQuery { query_set_id: QuerySetId, query_index: u32 },
    EndPipelineStatisticsQuery,
}

/// A command of a compute pass that holds the objects it refers to.
#[derive(Debug)]
pub enum ArcComputeCommand {
    SetBindGroup { index: u32, num_dynamic_offsets: usize, bind_group: Arc<BindGroup> },
    SetPipeline(Arc<ComputePipeline>),
    SetPushConstant { offset: u32, size_bytes: u32, values_offset: u32 },
    Dispatch([u32; 3]),
    DispatchIndirect { buffer: Arc<Buffer>, offset: BufferAddress },
    PushDebugGroup { color: u32, len: usize },
    PopDebugGroup,
    InsertDebugMarker { color: u32, len: usize },
    WriteTimestamp { query_set: Arc<QuerySet>, query_index: u32 },
    BeginPipelineStatisticsQuery { query_set: Arc<QuerySet>, query_index: u32 },
    EndPipelineStatisticsQuery,
}

impl ArcComputeCommand {
    /// The command with the identifiers of its objects in place of the objects.
    pub open spec fn unresolved(self) -> ComputeCommand {
        match self {
            ArcComputeCommand::SetBindGroup { index, num_dynamic_offsets, bind_group } => {
                ComputeCommand::SetBindGroup {
                    index,
                    num_dynamic_offsets,
                    bind_group_id: bind_group.id,
                }
            },
            ArcComputeCommand::SetPipeline(pipeline) => ComputeCommand::SetPipeline(pipeline.id),
            ArcComputeCommand::SetPushConstant { offset, size_bytes, values_offset } => {
                ComputeCommand::SetPushConstant { offset, size_bytes, values_offset }
            },
            ArcComputeCommand::Dispatch(groups) => ComputeCommand::Dispatch(groups),
            ArcComputeCommand::DispatchIndirect { buffer, offset } => {
                ComputeCommand::DispatchIndirect { buffer_id: buffer.id, offset }
            },
            ArcComputeCommand::PushDebugGroup { color, len } => ComputeCommand::PushDebugGroup {
                color,
                len,
            },
            ArcComputeCommand::PopDebugGroup => ComputeCommand::PopDebugGroup,
            ArcComputeCommand::InsertDebugMarker { color, len } => {
                ComputeCommand::InsertDebugMarker { color, len }
            },
            ArcComputeCommand::WriteTimestamp { query_set, query_index } => {
                ComputeCommand::WriteTimestamp { query_set_id: query_set.id, query_index }
            },
            ArcComputeCommand::BeginPipelineStatisticsQuery { query_set, query_index } => {
                ComputeCommand::BeginPipelineStatisticsQuery {
                    query_set_id: query_set.id,
                    query_index,
                }
            },
            ArcComputeCommand::EndPipelineStatisticsQuery => {
                ComputeCommand::EndPipelineStatisticsQuery
            },
        }
    }

    /// The command with the identifiers of its objects in place of the objects.
    pub fn to_unresolved(&self) -> (r: ComputeCommand)
        ensures
            r == self.unresolved(),
    {
        match self {
            ArcComputeCommand::SetBindGroup { index, num_dynamic_offsets, bind_group } => {
                ComputeCommand::SetBindGroup {
                    index: *index,
                    num_dynamic_offsets: *num_dynamic_offsets,
                    bind_group_id: bind_group.id,
                }
            },
            ArcComputeCommand::SetPipeline(pipeline) => ComputeCommand::SetPipeline(pipeline.id),
            ArcComputeCommand::SetPushConstant { offset, size_bytes, values_offset } => {
                ComputeCommand::SetPushConstant {
                    offset: *offset,
                    size_bytes: *size_bytes,
                    values_offset: *values_offset,
                }
            },
            ArcComputeCommand::Dispatch(groups) => ComputeCommand::Dispatch(*groups),
            ArcComputeCommand::DispatchIndirect { buffer, offset } => {
                ComputeCommand::DispatchIndirect { buffer_id: buffer.id, offset: *offset }
            },
            ArcComputeCommand::PushDebugGroup { color, len } => ComputeCommand::PushDebugGroup {
                color: *color,
                len: *len,
            },
            ArcComputeCommand::PopDebugGroup => ComputeCommand::PopDebugGroup,
            ArcComputeCommand::InsertDebugMarker { color, len } => {
                ComputeCommand::InsertDebugMarker { color: *color, len: *len }
            },
            ArcComputeCommand::WriteTimestamp { query_set, query_index } => {
                ComputeCommand::WriteTimestamp {
                    query_set_id: query_set.id,
                    query_index: *query_index,
                }
            },
            ArcComputeCommand::BeginPipelineStatisticsQuery { query_set, query_index } => {
                ComputeCommand::BeginPipelineStatisticsQuery {
                    query_set_id: query_set.id,
                    query_index: *query_index,
                }
            },
            ArcComputeCommand::EndPipelineStatisticsQuery => {
                ComputeCommand::EndPipelineStatisticsQuery
            },
        }
    }
}

/// A pass as it was recorded: its commands, and the streams that they draw from.
#[derive(Debug)]
pub struct BasePass<C> {
    pub label: Option<String>,
    pub commands: Vec<C>,
    /// The dynamic offsets of the commands that bind groups, one after the other.
    pub dynamic_offsets: Vec<DynamicOffset>,
    /// The labels of the debug commands, one after the other.
    pub string_data: Vec<u8>,
    pub push_constant_data: Vec<u32>,
}

/// A pass as it was recorded, borrowed.
#[derive(Debug)]
pub struct BasePassRef<'a, C> {
    pub label: Option<&'a str>,
    pub commands: &'a [C],
    pub dynamic_offsets: &'a [DynamicOffset],
    pub string_data: &'a [u8],
    pub push_constant_data: &'a [u32],
}

/// The contents of a recorded pass.
#[verifier::ext_equal]
pub struct BaseView {
    pub label: Option<Seq<char>>,
    pub commands: Seq<ComputeCommand>,
    pub dynamic_offsets: Seq<DynamicOffset>,
    pub string_data: Seq<u8>,
    pub push_constant_data: Seq<u32>,
}

/// The characters of a borrowed label, where there is one.
pub open spec fn str_view(label: Option<&str>) -> Option<Seq<char>> {
    match label {
        Some(text) => Some(text@),
        None => None,
    }
}

impl View for BasePass<ComputeCommand> {
    type V = BaseView;

    open spec fn view(&self) -> BaseView {
        BaseView {
            label: crate::raw::label_view(self.label),
            commands: self.commands@,
            dynamic_offsets: self.dynamic_offsets@,
            string_data: self.string_data@,
            push_constant_data: self.push_constant_data@,
        }
    }
}

impl<'a> View for BasePassRef<'a, ComputeCommand> {
    type V = BaseView;

    open spec fn view(&self) -> BaseView {
        BaseView {
            label: str_view(self.label),
            commands: self.commands@,
            dynamic_offsets: self.dynamic_offsets@,
            string_data: self.string_data@,
            push_constant_data: self.push_constant_data@,
        }
    }
}

impl BaseView {
    /// A pass without commands.
    pub open spec fn empty(label: Option<Seq<char>>) -> Self {
        BaseView {
            label,
            commands: Seq::empty(),
            dynamic_offsets: Seq::empty(),
            string_data: Seq::empty(),
            push_constant_data: Seq::empty(),
        }
    }
}

/// Makes a string of a label, where there is one.
pub fn own_label(label: Option<&str>) -> (r: Option<String>)
    ensures
        crate::raw::label_view(r) == str_view(label),
{
    match label {
        Some(text) => Some(text.to_owned()),
        None => None,
    }
}

impl BasePass<ComputeCommand> {
    /// A pass without commands.
    pub fn new(label: Option<&str>) -> (r: Self)
        ensures
            r@ == BaseView::empty(str_view(label)),
    {
        BasePass {
            label: own_label(label),
            commands: Vec::new(),
            dynamic_offsets: Vec::new(),
            string_data: Vec::new(),
            push_constant_data: Vec::new(),
        }
    }

    /// Borrows the pass.
    pub fn as_ref(&self) -> (r: BasePassRef<'_, ComputeCommand>)
        ensures
            r@ == self@,
    {
        BasePassRef {
            label: match &self.label {
                Some(text) => Some(text.as_str()),
                None => None,
            },
            commands: self.commands.as_slice(),
            dynamic_offsets: self.dynamic_offsets.as_slice(),
            string_data: self.string_data.as_slice(),
            push_constant_data: self.push_constant_data.as_slice(),
        }
    }
}

} // verus!
