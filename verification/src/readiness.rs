//! When a dispatch is possible: what is bound fits the pipeline, and all buffers are large enough.
use crate::bind;
use crate::bind::{BinderView, LateBufferBinding, PayloadView, SlotLayouts};
use crate::binding;
use crate::command::ArcComputeCommand;
use crate::error::{ComputePassErrorInner, DispatchError, ErrorView, Fault};
use crate::id::ComputePipelineId;
use crate::resource::{BindGroup, ComputePipeline, LayoutOrigin};
use crate::run::{PassEnv, RunView, Step};
use crate::state;
use crate::types::{BufferAddress, DynamicOffset};
use std::sync::Arc;
use vstd::prelude::*;

verus! {

/// The slot holds a group of the layout that the pipeline expects there, if it expects one.
pub open spec fn is_suited(slot: SlotLayouts) -> bool {
    slot.expected matches Some(expected) ==> (slot.assigned matches Some(assigned) && assigned.id
        == expected.id)
}

/// All slots hold what the pipeline expects.
pub open spec fn all_suited(binder: BinderView) -> bool {
    forall|i: int| 0 <= i < 8 ==> is_suited(#[trigger] binder.slots[i])
}

/// The buffer behind late binding `k` of slot `i` is as large as the pipeline expects, where the slot is
/// used and the pipeline looks at the binding.
pub open spec fn is_large_enough(binder: BinderView, i: int, k: int) -> bool {
    binder.slots[i].assigned is Some && binder.slots[i].expected is Some && 0 <= k
        < binder.payloads[i].late_count ==> binder.payloads[i].late[k].shader_expect_size
        <= binder.payloads[i].late[k].bound_size
}

/// All buffers in used slots are as large as the pipeline expects.
pub open spec fn all_large_enough(binder: BinderView) -> bool {
    forall|i: int, k: int| 0 <= i < 8 ==> #[trigger] is_large_enough(binder, i, k)
}

proof fn lemma_late_binding(late: Seq<LateBufferBinding>, group_index: int, n: nat)
    requires
        0 <= group_index < 8,
        n <= late.len(),
        n <= usize::MAX,
    ensures
        match bind::late_binding_error(late, group_index, n) {
            None => forall|k: int|
                0 <= k < n ==> (#[trigger] late[k]).shader_expect_size <= late[k].bound_size,
            Some(e) => {
                let k = e.compact_index as int;
                &&& e.group_index == group_index
                &&& 0 <= k < n
                &&& e.shader_size == late[k].shader_expect_size
                &&& e.bound_size == late[k].bound_size
                &&& late[k].bound_size < late[k].shader_expect_size
                &&& forall|j: int|
                    0 <= j < k ==> (#[trigger] late[j]).shader_expect_size <= late[j].bound_size
            },
        },
    decreases n,
{
    if n > 0 {
        lemma_late_binding(late, group_index, (n - 1) as nat);
    }
}

proof fn lemma_late_buffers(binder: BinderView, n: nat)
    requires
        n <= 8,
        binder.wf(),
        forall|i: int| 0 <= i < 8 ==> (#[trigger] binder.payloads[i]).late_count <= usize::MAX,
    ensures
        match binder.late_buffer_error(n) {
            None => forall|i: int, k: int|
                0 <= i < n ==> #[trigger] is_large_enough(binder, i, k),
            Some(e) => {
                let i = e.group_index as int;
                let k = e.compact_index as int;
                &&& 0 <= i < n
                &&& !is_large_enough(binder, i, k)
                &&& e.shader_size == binder.payloads[i].late[k].shader_expect_size
                &&& e.bound_size == binder.payloads[i].late[k].bound_size
                &&& forall|j: int, l: int|
                    0 <= j < i || (j == i && l < k) ==> #[trigger] is_large_enough(binder, j, l)
            },
        },
    decreases n,
{
    if n > 0 {
        lemma_late_buffers(binder, (n - 1) as nat);
        let payload = binder.payloads[n - 1];
        assert(payload.late_count <= usize::MAX);
        lemma_late_binding(payload.late, n - 1, payload.late_count);
    }
}

/// A dispatch is possible exactly where all slots are suited, a pipeline is set and all buffers are large
/// enough. Otherwise the first slot that is not suited is named; where all are, the missing pipeline; and
/// where there is one, the first buffer that is too small, with both its sizes.
pub proof fn dispatch_is_possible_where_ready(
    binder: BinderView,
    pipeline: Option<ComputePipelineId>,
)
    requires
        binder.wf(),
        forall|i: int| 0 <= i < 8 ==> (#[trigger] binder.payloads[i]).late_count <= usize::MAX,
    ensures
        match state::not_ready(binder, pipeline) {
            None => all_suited(binder) && pipeline is Some && all_large_enough(binder),
            Some(Fault::IncompatibleBindGroup { index, diff }) => {
                &&& index < 8
                &&& diff == bind::layout_diff(binder.slots[index as int])
                &&& !is_suited(binder.slots[index as int])
                &&& forall|j: int| 0 <= j < index ==> is_suited(#[trigger] binder.slots[j])
            },
            Some(Fault::Other(ComputePassErrorInner::Dispatch(DispatchError::MissingPipeline))) =>
                all_suited(binder) && pipeline is None,
            Some(
                Fault::Other(
                    ComputePassErrorInner::Dispatch(DispatchError::BindingSizeTooSmall(e)),
                ),
            ) => {
                let i = e.group_index as int;
                let k = e.compact_index as int;
                &&& all_suited(binder)
                &&& pipeline is Some
                &&& 0 <= i < 8
                &&& !is_large_enough(binder, i, k)
                &&& e.shader_size == binder.payloads[i].late[k].shader_expect_size
                &&& e.bound_size == binder.payloads[i].late[k].bound_size
                &&& forall|j: int, l: int|
                    0 <= j < i || (j == i && l < k) ==> #[trigger] is_large_enough(binder, j, l)
            },
            _ => false,
        },
{
    bind::lemma_first_invalid_slot(binder.slots, binder.slots.len());
    lemma_late_buffers(binder, 8);
    if bind::first_invalid_slot(binder.slots, binder.slots.len()) is None {
        assert forall|i: int| 0 <= i < 8 implies is_suited(#[trigger] binder.slots[i]) by {
            assert(binder.slots[i].spec_is_valid());
        }
    } else {
        let index = bind::first_invalid_slot(binder.slots, binder.slots.len())->0;
        assert forall|j: int| 0 <= j < index implies is_suited(#[trigger] binder.slots[j]) by {
            assert(binder.slots[j].spec_is_valid());
        }
    }
}

/// The pipeline whose layout is in force after the first `n` commands: the first one since the layout of
/// the pipeline has changed last.
pub open spec fn layout_pipeline(commands: Seq<ArcComputeCommand>, n: nat) -> Option<
    Arc<ComputePipeline>,
>
    decreases n,
{
    if n == 0 {
        None
    } else {
        let before = layout_pipeline(commands, (n - 1) as nat);
        match commands[n - 1] {
            ArcComputeCommand::SetPipeline(pipeline) => match before {
                Some(earlier) => if earlier.layout.id == pipeline.layout.id {
                    before
                } else {
                    Some(pipeline)
                },
                None => Some(pipeline),
            },
            _ => before,
        }
    }
}

/// The sizes that a slot knows of are those of the group that was bound to it last, and the sizes that it
/// expects are those of the pipeline whose layout is in force.
spec fn knows_sizes(
    binder: BinderView,
    env: PassEnv,
    commands: Seq<ArcComputeCommand>,
    n: nat,
    i: int,
) -> bool {
    let payload = binder.payloads[i];
    &&& payload.late_count <= usize::MAX
    &&& layout_pipeline(commands, n) matches Some(pipeline) ==> i
        < pipeline.late_sized_buffer_groups@.len() ==> {
        let sizes = pipeline.late_sized_buffer_groups@[i].shader_sizes@;
        &&& payload.late_count == sizes.len()
        &&& sizes.len() <= payload.late.len()
        &&& forall|k: int|
            0 <= k < sizes.len() ==> (#[trigger] payload.late[k]).shader_expect_size == sizes[k]
    }
    &&& binding::bound_group(env, commands, i, n) matches Some((group, _)) ==> {
        let sizes = group.late_buffer_binding_sizes@;
        &&& sizes.len() <= payload.late.len()
        &&& forall|k: int|
            0 <= k < sizes.len() ==> (#[trigger] payload.late[k]).bound_size == sizes[k]
    }
}

spec fn knows_all_sizes(
    binder: BinderView,
    env: PassEnv,
    commands: Seq<ArcComputeCommand>,
    n: nat,
) -> bool {
    &&& binder.payloads.len() == 8
    &&& binder.layout == match layout_pipeline(commands, n) {
        Some(pipeline) => Some(pipeline.layout),
        None => None,
    }
    &&& forall|i: int|
        0 <= i < 8 ==> #[trigger] knows_sizes(binder, env, commands, n, i)
}

proof fn lemma_step_knows_sizes(
    s: RunView,
    env: PassEnv,
    commands: Seq<ArcComputeCommand>,
    n: nat,
)
    requires
        0 < n <= commands.len(),
        knows_all_sizes(s.binder, env, commands, (n - 1) as nat),
    ensures
        s.step(env, commands[n - 1]) matches Step::Done(t) ==> knows_all_sizes(
            t.binder,
            env,
            commands,
            n,
        ),
{
    let before = (n - 1) as nat;
    if let Step::Done(t) = s.step(env, commands[n - 1]) {
        assert forall|i: int| 0 <= i < 8 implies #[trigger] knows_sizes(
            t.binder,
            env,
            commands,
            n,
            i,
        ) by {
            assert(knows_sizes(s.binder, env, commands, before, i));
            match commands[n - 1] {
                ArcComputeCommand::SetBindGroup { index, bind_group, .. } => {
                    if i == index {
                        let late = t.binder.payloads[i].late;
                        let sizes = bind_group.late_buffer_binding_sizes@;
                        assert(late == bind::late_with_bound(s.binder.payloads[i].late, sizes));
                        assert forall|k: int| 0 <= k < sizes.len() implies (
                        #[trigger] late[k]).bound_size == sizes[k] by {}
                    } else {
                        assert(t.binder.payloads[i] == s.binder.payloads[i]);
                    }
                },
                ArcComputeCommand::SetPipeline(pipeline) => {
                    let groups = pipeline.late_sized_buffer_groups@;
                    let same = s.binder.layout matches Some(old) && old.id == pipeline.layout.id;
                    if !same && i < groups.len() {
                        let sizes = groups[i].shader_sizes;
                        assert(t.binder.payloads[i] == s.binder.payloads[i].expect(sizes@));
                        assert(sizes@.len() == sizes.len());
                        assert(s.binder.layout is Some == layout_pipeline(commands, before) is Some);
                        assert(layout_pipeline(commands, n) == Some(pipeline));
                        let late = t.binder.payloads[i].late;
                        assert forall|k: int| 0 <= k < sizes@.len() implies (
                        #[trigger] late[k]).shader_expect_size == sizes@[k] by {}
                        assert(binding::bound_group(env, commands, i, n) == binding::bound_group(
                            env,
                            commands,
                            i,
                            before,
                        ));
                    } else {
                        assert(t.binder.payloads[i] == s.binder.payloads[i]);
                    }
                },
                _ => {
                    assert(t.binder == s.binder);
                },
            }
        }
    }
}

proof fn lemma_knows_sizes(
    start: RunView,
    env: PassEnv,
    commands: Seq<ArcComputeCommand>,
    n: nat,
)
    requires
        n <= commands.len(),
        start.binder == BinderView::empty(),
    ensures
        start.steps(env, commands, n) matches Step::Done(t) ==> knows_all_sizes(
            t.binder,
            env,
            commands,
            n,
        ),
    decreases n,
{
    if n > 0 {
        lemma_knows_sizes(start, env, commands, (n - 1) as nat);
        if let Step::Done(s) = start.steps(env, commands, (n - 1) as nat) {
            lemma_step_knows_sizes(s, env, commands, n);
        }
    } else {
        assert forall|i: int| 0 <= i < 8 implies #[trigger] knows_sizes(
            start.binder,
            env,
            commands,
            n,
            i,
        ) by {}
    }
}

/// The group has a buffer behind late binding `k`, and it is at least as large as the pipeline expects of
/// that binding of slot `i`.
pub open spec fn is_served(
    pipeline: Arc<ComputePipeline>,
    group: Arc<BindGroup>,
    i: int,
    k: int,
) -> bool {
    k < group.late_buffer_binding_sizes@.len()
        && pipeline.late_sized_buffer_groups@[i].shader_sizes@[k]
        <= group.late_buffer_binding_sizes@[k]
}

/// A dispatch succeeds only where each buffer, of the group that was bound last to each slot that the
/// layout of the pipeline has, is at least as large as the pipeline expects.
pub proof fn dispatch_finds_large_enough_buffers(
    start: RunView,
    env: PassEnv,
    commands: Seq<ArcComputeCommand>,
    n: nat,
    pipeline: Arc<ComputePipeline>,
    i: int,
    group: Arc<BindGroup>,
    k: int,
)
    requires
        n < commands.len(),
        start.binder == BinderView::empty(),
        start.pipeline is None,
        start.dynamic_offset_count == 0,
        commands[n as int] is Dispatch || commands[n as int] is DispatchIndirect,
        start.steps(env, commands, n + 1) is Done,
        layout_pipeline(commands, n) == Some(pipeline),
        0 <= i < pipeline.layout.bind_group_layouts@.len(),
        i < pipeline.late_sized_buffer_groups@.len(),
        binding::bound_group(env, commands, i, n) matches Some((bound, _)) && bound == group,
        0 <= k < pipeline.late_sized_buffer_groups@[i].shader_sizes@.len(),
        k < group.late_buffer_binding_sizes@.len(),
    ensures
        pipeline.late_sized_buffer_groups@[i].shader_sizes@[k]
            <= group.late_buffer_binding_sizes@[k],
{
    let s = start.steps(env, commands, n)->Done_0;
    binding::lemma_slots_hold(start, env, commands, n);
    lemma_knows_sizes(start, env, commands, n);
    assert(knows_sizes(s.binder, env, commands, n, i));
    assert forall|j: int| 0 <= j < 8 implies (#[trigger] s.binder.payloads[j]).late_count
        <= usize::MAX by {
        assert(knows_sizes(s.binder, env, commands, n, j));
    }
    dispatch_is_possible_where_ready(s.binder, s.pipeline);
    assert(state::not_ready(s.binder, s.pipeline) is None);
    assert(is_large_enough(s.binder, i, k));
    assert(s.binder.payloads[i].group == Some(group));
    assert(s.binder.slots[i].spec_expects(*pipeline.layout.bind_group_layouts@[i]));
    assert(s.binder.slots[i].assigned is Some);
}

/// A dispatch is refused for a buffer that is too small only where there is one: in a slot that the layout
/// of the pipeline has, smaller than the pipeline expects. The error gives both sizes. So where all buffers
/// are large enough, it is not refused for that reason.
pub proof fn only_small_buffers_are_refused(
    start: RunView,
    env: PassEnv,
    commands: Seq<ArcComputeCommand>,
    n: nat,
)
    requires
        n < commands.len(),
        start.binder == BinderView::empty(),
        start.pipeline is None,
        start.dynamic_offset_count == 0,
        commands[n as int] is Dispatch || commands[n as int] is DispatchIndirect,
        start.steps(env, commands, n) is Done,
    ensures
        start.steps(env, commands, n + 1) matches Step::Failed(_, ErrorView { fault, .. }) ==> (
        fault matches Fault::Other(
            ComputePassErrorInner::Dispatch(DispatchError::BindingSizeTooSmall(e)),
        ) ==> {
            let i = e.group_index as int;
            let k = e.compact_index as int;
            &&& e.bound_size < e.shader_size
            &&& layout_pipeline(commands, n) matches Some(pipeline) && i
                < pipeline.layout.bind_group_layouts@.len() && (
            binding::bound_group(env, commands, i, n) matches Some((group, _)) && (i
                < pipeline.late_sized_buffer_groups@.len() ==> {
                let sizes = pipeline.late_sized_buffer_groups@[i].shader_sizes@;
                &&& k < sizes.len()
                &&& e.shader_size == sizes[k]
                &&& k < group.late_buffer_binding_sizes@.len() ==> e.bound_size
                    == group.late_buffer_binding_sizes@[k]
                &&& !is_served(pipeline, group, i, k)
            }))
        }),
{
    let s = start.steps(env, commands, n)->Done_0;
    binding::lemma_slots_hold(start, env, commands, n);
    lemma_knows_sizes(start, env, commands, n);
    assert forall|j: int| 0 <= j < 8 implies (#[trigger] s.binder.payloads[j]).late_count
        <= usize::MAX by {
        assert(knows_sizes(s.binder, env, commands, n, j));
    }
    dispatch_is_possible_where_ready(s.binder, s.pipeline);
    if let Some(
        Fault::Other(ComputePassErrorInner::Dispatch(DispatchError::BindingSizeTooSmall(e))),
    ) = state::not_ready(s.binder, s.pipeline) {
        let i = e.group_index as int;
        assert(knows_sizes(s.binder, env, commands, n, i));
        assert(s.binder.slots[i].assigned is Some);
        assert(s.binder.payloads[i].group is Some);
        assert(binding::bound_group(env, commands, i, n) is Some);
        assert(s.binder.slots[i].expected is Some);
    }
}

/// Binding a group to a slot leaves what the pipeline expects there as it is, and setting a pipeline leaves what is
/// bound there; sizes that a group or a pipeline says nothing of stay as they were.
pub proof fn sizes_are_kept_apart(
    payload: PayloadView,
    group: Arc<BindGroup>,
    offsets: Seq<DynamicOffset>,
    sizes: Seq<BufferAddress>,
    k: int,
)
    requires
        0 <= k < payload.late.len(),
    ensures
        payload.assign(group, offsets).late_count == payload.late_count,
        payload.assign(group, offsets).late[k].shader_expect_size
            == payload.late[k].shader_expect_size,
        k >= group.late_buffer_binding_sizes@.len() ==> payload.assign(group, offsets).late[k]
            == payload.late[k],
        payload.expect(sizes).group == payload.group,
        payload.expect(sizes).dynamic_offsets == payload.dynamic_offsets,
        payload.expect(sizes).late_count == sizes.len(),
        payload.expect(sizes).late[k].bound_size == payload.late[k].bound_size,
        k >= sizes.len() ==> payload.expect(sizes).late[k] == payload.late[k],
{
}

/// The lines about a slot whose layouts differ name both layouts, the expected one first, each with its label where
/// it has one. A further line is there exactly where one of them was made by itself and the other was derived.
pub proof fn both_layouts_are_named(slot: SlotLayouts)
    requires
        slot.expected is Some,
        slot.assigned is Some,
    ensures
        ({
            let expected = slot.expected->0;
            let assigned = slot.assigned->0;
            let lines = bind::layout_diff(slot);
            &&& lines.len() == if expected.origin == assigned.origin {
                2nat
            } else {
                3nat
            }
            &&& expected.origin != assigned.origin ==> lines[2] == "Expected "@ + bind::origin_text(
                expected.origin,
            ) + " bind group layout, got "@ + bind::origin_text(assigned.origin)
            &&& expected.label@.len() > 0 ==> lines[0] == "Should be compatible with an "@
                + bind::origin_text(expected.origin) + " bind group layout "@ + ("with label = `"@
                + expected.label@ + "`"@)
            &&& assigned.label@.len() > 0 ==> lines[1] == "Assigned "@ + bind::origin_text(
                assigned.origin,
            ) + " bind group layout "@ + ("with label = `"@ + assigned.label@ + "`"@)
            &&& expected.label@.len() == 0 ==> lines[0] == "Should be compatible with an "@
                + bind::origin_text(expected.origin) + " bind group layout "@ + "without label"@
            &&& assigned.label@.len() == 0 ==> lines[1] == "Assigned "@ + bind::origin_text(
                assigned.origin,
            ) + " bind group layout "@ + "without label"@
        }),
        bind::origin_text(LayoutOrigin::Pool) == "explicit"@,
        bind::origin_text(LayoutOrigin::Derived) == "implicit"@,
{
}

} // verus!
