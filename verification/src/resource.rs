//! The objects that the commands of a pass refer to, as far as the pass looks into them.
use crate::id::{
    BindGroupId, BindGroupLayoutId, BufferId, ComputePipelineId, PipelineLayoutId, QuerySetId,
    RawHandle, TextureId, TrackerIndex,
};
use crate::init_tracker::InitTracker;
use crate::memory_init::{BufferInitTrackerAction, TextureInitTrackerAction};
use crate::query::QueryType;
use crate::track::BindGroupStates;
use crate::types::{BufferAddress, BufferUsages, DynamicOffset, Limits, PushConstantRange};
use std::sync::Arc;
use vstd::prelude::*;

verus! {

/// Another reference to the same object.
///
/// Calls `Arc::clone`, which hands out a second pointer to what the first one points at: the two
/// stand for one and the same value.
#[verifier::external_body]
pub(crate) fn share<T>(object: &Arc<T>) -> (r: Arc<T>)
    ensures
        r == *object,
{
    object.clone()
}

/// A buffer.
#[derive(Debug)]
pub struct Buffer {
    pub id: BufferId,
    pub tracker_index: TrackerIndex,
    pub usage: BufferUsages,
    pub size: BufferAddress,
    /// The backend's buffer, until the buffer is destroyed.
    pub raw: Option<RawHandle>,
    pub initialization_status: InitTracker,
}

/// A texture.
#[derive(Debug)]
pub struct Texture {
    pub id: TextureId,
    /// For each mip level, the layers that have never been written.
    pub initialization_status: Vec<InitTracker>,
}

/// Where a bind group layout comes from.
#[derive(Clone, Copy, Debug, PartialEq, Eq, Structural)]
pub enum LayoutOrigin {
    /// It was created by itself.
    Pool,
    /// It was derived from the shaders of a pipeline.
    Derived,
}

/// What a bind group may hold. Two layouts are the same exactly when their identifiers are.
#[derive(Debug)]
pub struct BindGroupLayout {
    pub id: BindGroupLayoutId,
    pub label: String,
    pub origin: LayoutOrigin,
}

/// How a buffer is bound.
#[derive(Clone, Copy, Debug, PartialEq, Eq, Structural)]
pub enum BufferBindingType {
    Uniform,
    Storage,
}

/// A binding of a bind group that takes its offset when the group is bound.
#[derive(Clone, Copy, Debug, PartialEq, Eq, Structural)]
pub struct BindGroupDynamicBindingData {
    pub binding_idx: u32,
    pub buffer_size: BufferAddress,
    pub binding_start: BufferAddress,
    pub binding_end: BufferAddress,
    pub maximum_dynamic_offset: BufferAddress,
    pub binding_type: BufferBindingType,
}

/// Resources that are bound together.
#[derive(Debug)]
pub struct BindGroup {
    pub id: BindGroupId,
    pub layout: Arc<BindGroupLayout>,
    /// The backend's bind group, as long as the group and all its resources are alive.
    pub raw: Option<RawHandle>,
    pub dynamic_binding_info: Vec<BindGroupDynamicBindingData>,
    /// The sizes of the bound buffers whose layout does not tell how large they have to be.
    pub late_buffer_binding_sizes: Vec<BufferAddress>,
    pub used: BindGroupStates,
    pub used_buffer_ranges: Vec<BufferInitTrackerAction>,
    pub used_texture_ranges: Vec<TextureInitTrackerAction>,
}

/// The bind group layouts and push constants of a pipeline. Two layouts are the same exactly when
/// their identifiers are.
#[derive(Debug)]
pub struct PipelineLayout {
    pub id: PipelineLayoutId,
    pub raw: RawHandle,
    pub bind_group_layouts: Vec<Arc<BindGroupLayout>>,
    pub push_constant_ranges: Vec<PushConstantRange>,
}

/// For one bind group slot, the sizes that a shader expects of the buffers whose layout does not
/// tell how large they have to be.
#[derive(Debug)]
pub struct LateSizedBufferGroup {
    pub shader_sizes: Vec<BufferAddress>,
}

/// A compute pipeline.
#[derive(Debug)]
pub struct ComputePipeline {
    pub id: ComputePipelineId,
    pub raw: RawHandle,
    pub layout: Arc<PipelineLayout>,
    pub late_sized_buffer_groups: Vec<LateSizedBufferGroup>,
}

/// A set of queries of one type.
#[derive(Debug)]
pub struct QuerySet {
    pub id: QuerySetId,
    pub raw: RawHandle,
    pub ty: QueryType,
    pub count: u32,
}

/// A bind group cannot be bound with the dynamic offsets that were given.
#[derive(Clone, Copy, Debug, PartialEq, Eq, Structural)]
pub enum BindError {
    MismatchedDynamicOffsetCount { group: u32, expected: usize, actual: usize },
    UnalignedDynamicBinding {
        group: u32,
        binding: u32,
        idx: usize,
        offset: u32,
        alignment: u32,
        binding_type: BufferBindingType,
    },
    DynamicBindingOutOfBounds {
        group: u32,
        binding: u32,
        idx: usize,
        offset: u32,
        buffer_size: BufferAddress,
        binding_start: BufferAddress,
        binding_end: BufferAddress,
        maximum_dynamic_offset: BufferAddress,
    },
}

/// The number that the dynamic offset of a binding has to be a multiple of.
pub open spec fn dynamic_alignment(limits: Limits, ty: BufferBindingType) -> u32 {
    match ty {
        BufferBindingType::Uniform => limits.min_uniform_buffer_offset_alignment,
        BufferBindingType::Storage => limits.min_storage_buffer_offset_alignment,
    }
}

/// What is wrong with the offset of one binding: it is not aligned, or it reaches out of the
/// buffer.
pub open spec fn dynamic_binding_error(
    info: BindGroupDynamicBindingData,
    group: u32,
    idx: int,
    offset: DynamicOffset,
    limits: Limits,
) -> Option<BindError> {
    let alignment = dynamic_alignment(limits, info.binding_type);
    if offset as int % alignment as int != 0 {
        Some(
            BindError::UnalignedDynamicBinding {
                group,
                binding: info.binding_idx,
                idx: idx as usize,
                offset,
                alignment,
                binding_type: info.binding_type,
            },
        )
    } else if offset > info.maximum_dynamic_offset {
        Some(
            BindError::DynamicBindingOutOfBounds {
                group,
                binding: info.binding_idx,
                idx: idx as usize,
                offset,
                buffer_size: info.buffer_size,
                binding_start: info.binding_start,
                binding_end: info.binding_end,
                maximum_dynamic_offset: info.maximum_dynamic_offset,
            },
        )
    } else {
        None
    }
}

/// What is wrong with the first of the first `n` bindings that has something wrong with it.
pub open spec fn first_dynamic_binding_error(
    infos: Seq<BindGroupDynamicBindingData>,
    group: u32,
    offsets: Seq<DynamicOffset>,
    limits: Limits,
    n: nat,
) -> Option<BindError>
    decreases n,
{
    if n == 0 {
        None
    } else {
        match first_dynamic_binding_error(infos, group, offsets, limits, (n - 1) as nat) {
            Some(e) => Some(e),
            None => dynamic_binding_error(infos[n - 1], group, n - 1, offsets[n - 1], limits),
        }
    }
}

proof fn lemma_dynamic_binding_error_stays(
    infos: Seq<BindGroupDynamicBindingData>,
    group: u32,
    offsets: Seq<DynamicOffset>,
    limits: Limits,
    n: nat,
    m: nat,
)
    requires
        n <= m,
        first_dynamic_binding_error(infos, group, offsets, limits, n) is Some,
    ensures
        first_dynamic_binding_error(infos, group, offsets, limits, m)
            == first_dynamic_binding_error(infos, group, offsets, limits, n),
    decreases m,
{
    if n < m {
        lemma_dynamic_binding_error_stays(infos, group, offsets, limits, n, (m - 1) as nat);
    }
}

fn alignment_of(limits: &Limits, ty: BufferBindingType) -> (r: u32)
    ensures
        r == dynamic_alignment(*limits, ty),
{
    match ty {
        BufferBindingType::Uniform => limits.min_uniform_buffer_offset_alignment,
        BufferBindingType::Storage => limits.min_storage_buffer_offset_alignment,
    }
}

fn check_dynamic_binding(
    info: BindGroupDynamicBindingData,
    group: u32,
    idx: usize,
    offset: DynamicOffset,
    limits: &Limits,
) -> (r: Option<BindError>)
    requires
        dynamic_alignment(*limits, info.binding_type) > 0,
    ensures
        r == dynamic_binding_error(info, group, idx as int, offset, *limits),
{
    let alignment: u32 = alignment_of(limits, info.binding_type);
    if offset as BufferAddress % alignment as u64 != 0 {
        return Some(
            BindError::UnalignedDynamicBinding {
                group,
                binding: info.binding_idx,
                idx,
                offset,
                alignment,
                binding_type: info.binding_type,
            },
        );
    }
    if offset as BufferAddress > info.maximum_dynamic_offset {
        return Some(
            BindError::DynamicBindingOutOfBounds {
                group,
                binding: info.binding_idx,
                idx,
                offset,
                buffer_size: info.buffer_size,
                binding_start: info.binding_start,
                binding_end: info.binding_end,
                maximum_dynamic_offset: info.maximum_dynamic_offset,
            },
        );
    }
    None
}

impl BindGroup {
    /// What keeps the group from being bound at slot `group` with `offsets`: a wrong number of
    /// them, or the first one that is wrong.
    pub open spec fn dynamic_bindings_error(
        self,
        group: u32,
        offsets: Seq<DynamicOffset>,
        limits: Limits,
    ) -> Option<BindError> {
        let infos = self.dynamic_binding_info@;
        if infos.len() != offsets.len() {
            Some(
                BindError::MismatchedDynamicOffsetCount {
                    group,
                    expected: infos.len() as usize,
                    actual: offsets.len() as usize,
                },
            )
        } else {
            first_dynamic_binding_error(infos, group, offsets, limits, infos.len())
        }
    }

    /// Each offset that is looked at has an alignment to be held against. Offsets behind the first one
    /// that is wrong are not looked at, nor is any where their number is wrong.
    pub open spec fn offsets_can_be_checked(
        self,
        group: u32,
        offsets: Seq<DynamicOffset>,
        limits: Limits,
    ) -> bool {
        let infos = self.dynamic_binding_info@;
        infos.len() == offsets.len() ==> forall|i: int|
            0 <= i < infos.len() ==> dynamic_alignment(limits, (#[trigger] infos[i]).binding_type)
                > 0 || first_dynamic_binding_error(infos, group, offsets, limits, i as nat) is Some
    }

    /// Checks the dynamic offsets that the group is to be bound with.
    pub fn validate_dynamic_bindings(
        &self,
        group: u32,
        offsets: &[DynamicOffset],
        limits: &Limits,
    ) -> (r: Result<(), BindError>)
        requires
            self.offsets_can_be_checked(group, offsets@, *limits),
        ensures
            match self.dynamic_bindings_error(group, offsets@, *limits) {
                None => r is Ok,
                Some(e) => r == Err::<(), BindError>(e),
            },
    {
        let ghost infos = self.dynamic_binding_info@;
        if self.dynamic_binding_info.len() != offsets.len() {
            return Err(
                BindError::MismatchedDynamicOffsetCount {
                    group,
                    expected: self.dynamic_binding_info.len(),
                    actual: offsets.len(),
                },
            );
        }
        let mut idx: usize = 0;
        while idx < offsets.len()
            invariant
                idx <= offsets.len(),
                infos == self.dynamic_binding_info@,
                infos.len() == offsets.len(),
                self.offsets_can_be_checked(group, offsets@, *limits),
                first_dynamic_binding_error(infos, group, offsets@, *limits, idx as nat) is None,
            decreases offsets.len() - idx,
        {
            assert(dynamic_alignment(*limits, infos[idx as int].binding_type) > 0);
            proof {
                if first_dynamic_binding_error(infos, group, offsets@, *limits, (idx + 1) as nat)
                    is Some {
                    lemma_dynamic_binding_error_stays(
                        infos,
                        group,
                        offsets@,
                        *limits,
                        (idx + 1) as nat,
                        infos.len(),
                    );
                }
            }
            match check_dynamic_binding(
                self.dynamic_binding_info[idx],
                group,
                idx,
                offsets[idx],
                limits,
            ) {
                Some(e) => {
                    return Err(e);
                },
                None => {},
            }
            idx = idx + 1;
        }
        Ok(())
    }

    /// Whether each offset that would be looked at has an alignment to be held against.
    pub fn can_check_offsets(&self, group: u32, offsets: &[DynamicOffset], limits: &Limits) -> (r:
        bool)
        ensures
            r == self.offsets_can_be_checked(group, offsets@, *limits),
    {
        let ghost infos = self.dynamic_binding_info@;
        if self.dynamic_binding_info.len() != offsets.len() {
            return true;
        }
        let mut idx: usize = 0;
        while idx < offsets.len()
            invariant
                idx <= offsets.len(),
                infos == self.dynamic_binding_info@,
                infos.len() == offsets.len(),
                first_dynamic_binding_error(infos, group, offsets@, *limits, idx as nat) is None,
                forall|i: int|
                    0 <= i < idx ==> dynamic_alignment(
                        *limits,
                        (#[trigger] infos[i]).binding_type,
                    ) > 0,
            decreases offsets.len() - idx,
        {
            let info: BindGroupDynamicBindingData = self.dynamic_binding_info[idx];
            assert(info == infos[idx as int]);
            if alignment_of(limits, info.binding_type) == 0 {
                return false;
            }
            if check_dynamic_binding(info, group, idx, offsets[idx], limits).is_some() {
                proof {
                    assert forall|i: int| 0 <= i < infos.len() implies dynamic_alignment(
                        *limits,
                        (#[trigger] infos[i]).binding_type,
                    ) > 0 || first_dynamic_binding_error(
                        infos,
                        group,
                        offsets@,
                        *limits,
                        i as nat,
                    ) is Some by {
                        if i > idx {
                            lemma_dynamic_binding_error_stays(
                                infos,
                                group,
                                offsets@,
                                *limits,
                                (idx + 1) as nat,
                                i as nat,
                            );
                        }
                    }
                }
                return true;
            }
            idx = idx + 1;
        }
        true
    }
}

} // verus!
