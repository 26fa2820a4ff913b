//! Which bind groups are bound, and which of them the current pipeline can use.
//!
//! A *slot* has a layout that the pipeline expects there and a layout that the bound group has. A
//! group is handed to the backend only once it, and everything in the slots before it, fits the
//! pipeline: a change of the pipeline layout disturbs all slots from the first one that differs.
use crate::resource::{
    share, BindGroup, BindGroupLayout, LateSizedBufferGroup, LayoutOrigin, PipelineLayout,
};
use crate::types::{BufferAddress, DynamicOffset, PushConstantRange, MAX_BIND_GROUPS};
use std::sync::Arc;
use vstd::prelude::*;
use vstd::string::StringExecFns;

verus! {

/// A slot: the layout of the bound group, and the layout that the pipeline expects.
#[derive(Debug)]
pub struct SlotLayouts {
    pub assigned: Option<Arc<BindGroupLayout>>,
    pub expected: Option<Arc<BindGroupLayout>>,
}

impl SlotLayouts {
    /// The slot is used: the pipeline expects a group there, and one is bound.
    pub open spec fn spec_is_active(self) -> bool {
        self.assigned is Some && self.expected is Some
    }

    /// The pipeline finds in the slot what it expects, which may be nothing.
    pub open spec fn spec_is_valid(self) -> bool {
        match self.expected {
            Some(expected) => match self.assigned {
                Some(assigned) => expected.id == assigned.id,
                None => false,
            },
            None => true,
        }
    }

    /// The pipeline uses the slot and finds there what it expects.
    pub open spec fn spec_is_compatible(self) -> bool {
        self.expected is Some && self.spec_is_valid()
    }

    /// The pipeline expects `layout` in the slot.
    pub open spec fn spec_expects(self, layout: BindGroupLayout) -> bool {
        self.expected matches Some(expected) && expected.id == layout.id
    }

    pub fn expects(&self, layout: &BindGroupLayout) -> (r: bool)
        ensures
            r == self.spec_expects(*layout),
    {
        match &self.expected {
            Some(expected) => expected.id == layout.id,
            None => false,
        }
    }

    pub fn is_active(&self) -> (r: bool)
        ensures
            r == self.spec_is_active(),
    {
        self.assigned.is_some() && self.expected.is_some()
    }

    pub fn is_valid(&self) -> (r: bool)
        ensures
            r == self.spec_is_valid(),
    {
        match &self.expected {
            Some(expected) => match &self.assigned {
                Some(assigned) => expected.id == assigned.id,
                None => false,
            },
            None => true,
        }
    }
}

/// The name of where a layout comes from.
pub open spec fn origin_text(origin: LayoutOrigin) -> Seq<char> {
    match origin {
        LayoutOrigin::Pool => "explicit"@,
        LayoutOrigin::Derived => "implicit"@,
    }
}

/// One line about a layout: `start`, where it comes from, and its label.
pub open spec fn layout_text(start: Seq<char>, layout: BindGroupLayout) -> Seq<char> {
    start + origin_text(layout.origin) + " bind group layout "@ + if layout.label@.len() == 0 {
        "without label"@
    } else {
        "with label = `"@ + layout.label@ + "`"@
    }
}

/// How the layouts of a slot differ, line by line.
pub open spec fn layout_diff(slot: SlotLayouts) -> Seq<Seq<char>> {
    match slot.expected {
        None => seq!["Expected bind group layout not found (internal error)"@],
        Some(expected) => {
            let first = layout_text("Should be compatible with an "@, *expected);
            match slot.assigned {
                None => seq![first, "Assigned bind group layout not found (internal error)"@],
                Some(assigned) => {
                    let both = seq![first, layout_text("Assigned "@, *assigned)];
                    if expected.origin != assigned.origin {
                        both.push(
                            "Expected "@ + origin_text(expected.origin)
                                + " bind group layout, got "@ + origin_text(assigned.origin),
                        )
                    } else {
                        both
                    }
                },
            }
        },
    }
}

/// The texts of a list of strings.
pub open spec fn texts(lines: Seq<String>) -> Seq<Seq<char>> {
    Seq::new(lines.len(), |i: int| lines[i]@)
}

fn origin_name(origin: LayoutOrigin) -> (r: &'static str)
    ensures
        r@ == origin_text(origin),
{
    match origin {
        LayoutOrigin::Pool => "explicit",
        LayoutOrigin::Derived => "implicit",
    }
}

fn describe_layout(start: &str, layout: &BindGroupLayout) -> (r: String)
    ensures
        r@ == layout_text(start@, *layout),
{
    let mut line: String = start.to_owned();
    line.append(origin_name(layout.origin));
    line.append(" bind group layout ");
    let ghost head = line@;
    if layout.label.as_str().is_empty() {
        line.append("without label");
    } else {
        line.append("with label = `");
        line.append(layout.label.as_str());
        line.append("`");
        assert(line@ =~= head + ("with label = `"@ + layout.label@ + "`"@));
    }
    line
}

impl SlotLayouts {
    /// How the layouts of the slot differ, line by line.
    pub fn bgl_diff(&self) -> (r: Vec<String>)
        ensures
            texts(r@) == layout_diff(*self),
    {
        let mut diff: Vec<String> = Vec::new();
        match &self.expected {
            None => {
                diff.push("Expected bind group layout not found (internal error)".to_owned());
            },
            Some(expected) => {
                diff.push(describe_layout("Should be compatible with an ", expected));
                match &self.assigned {
                    None => {
                        diff.push(
                            "Assigned bind group layout not found (internal error)".to_owned(),
                        );
                    },
                    Some(assigned) => {
                        diff.push(describe_layout("Assigned ", assigned));
                        if expected.origin != assigned.origin {
                            let mut line: String = "Expected ".to_owned();
                            line.append(origin_name(expected.origin));
                            line.append(" bind group layout, got ");
                            line.append(origin_name(assigned.origin));
                            diff.push(line);
                        }
                    },
                }
            },
        }
        assert(texts(diff@) =~= layout_diff(*self));
        diff
    }
}

/// The size of a bound buffer, and the size that a shader expects of it.
#[derive(Clone, Copy, Debug, PartialEq, Eq, Structural)]
pub struct LateBufferBinding {
    pub shader_expect_size: BufferAddress,
    pub bound_size: BufferAddress,
}

/// The group that is bound to a slot.
#[derive(Debug)]
pub struct EntryPayload {
    pub group: Option<Arc<BindGroup>>,
    pub dynamic_offsets: Vec<DynamicOffset>,
    pub late_buffer_bindings: Vec<LateBufferBinding>,
    /// The number of late bindings that the pipeline looks at: the bound group may have more.
    pub late_bindings_effective_count: usize,
}

/// The contents of an [`EntryPayload`].
#[verifier::ext_equal]
pub struct PayloadView {
    pub group: Option<Arc<BindGroup>>,
    pub dynamic_offsets: Seq<DynamicOffset>,
    pub late: Seq<LateBufferBinding>,
    pub late_count: nat,
}

impl View for EntryPayload {
    type V = PayloadView;

    open spec fn view(&self) -> PayloadView {
        PayloadView {
            group: self.group,
            dynamic_offsets: self.dynamic_offsets@,
            late: self.late_buffer_bindings@,
            late_count: self.late_bindings_effective_count as nat,
        }
    }
}

/// The longer of two lengths.
pub open spec fn longer(a: nat, b: nat) -> nat {
    if a < b {
        b
    } else {
        a
    }
}

/// The late bindings of a slot after a group whose buffers have the given sizes was bound to it.
pub open spec fn late_with_bound(late: Seq<LateBufferBinding>, sizes: Seq<BufferAddress>) -> Seq<
    LateBufferBinding,
> {
    Seq::new(
        longer(late.len(), sizes.len()),
        |i: int|
            LateBufferBinding {
                shader_expect_size: if i < late.len() {
                    late[i].shader_expect_size
                } else {
                    0
                },
                bound_size: if i < sizes.len() {
                    sizes[i]
                } else {
                    late[i].bound_size
                },
            },
    )
}

/// The late bindings of a slot after a pipeline that expects the given sizes was set.
pub open spec fn late_with_expected(late: Seq<LateBufferBinding>, sizes: Seq<BufferAddress>) -> Seq<
    LateBufferBinding,
> {
    Seq::new(
        longer(late.len(), sizes.len()),
        |i: int|
            LateBufferBinding {
                shader_expect_size: if i < sizes.len() {
                    sizes[i]
                } else {
                    late[i].shader_expect_size
                },
                bound_size: if i < late.len() {
                    late[i].bound_size
                } else {
                    0
                },
            },
    )
}

impl PayloadView {
    /// Nothing was ever bound.
    pub open spec fn empty() -> Self {
        PayloadView {
            group: None,
            dynamic_offsets: Seq::empty(),
            late: Seq::empty(),
            late_count: 0,
        }
    }

    /// A group is bound with some dynamic offsets.
    pub open spec fn assign(self, group: Arc<BindGroup>, offsets: Seq<DynamicOffset>) -> Self {
        PayloadView {
            group: Some(group),
            dynamic_offsets: offsets,
            late: late_with_bound(self.late, group.late_buffer_binding_sizes@),
            ..self
        }
    }

    /// A pipeline is set whose shaders expect some sizes.
    pub open spec fn expect(self, sizes: Seq<BufferAddress>) -> Self {
        PayloadView {
            late: late_with_expected(self.late, sizes),
            late_count: sizes.len(),
            ..self
        }
    }
}

/// Copies a list of offsets.
pub(crate) fn copy_offsets(offsets: &[DynamicOffset]) -> (r: Vec<DynamicOffset>)
    ensures
        r@ == offsets@,
{
    let mut copy: Vec<DynamicOffset> = Vec::new();
    copy.extend_from_slice(offsets);
    assert(copy@ =~= offsets@);
    copy
}

impl EntryPayload {
    fn empty() -> (r: Self)
        ensures
            r@ == PayloadView::empty(),
    {
        EntryPayload {
            group: None,
            dynamic_offsets: Vec::new(),
            late_buffer_bindings: Vec::new(),
            late_bindings_effective_count: 0,
        }
    }

    /// Binds a group with some dynamic offsets.
    fn assign(&mut self, group: &Arc<BindGroup>, offsets: &[DynamicOffset])
        ensures
            final(self)@ == old(self)@.assign(*group, offsets@),
    {
        let ghost late = self.late_buffer_bindings@;
        let ghost sizes = group.late_buffer_binding_sizes@;
        self.group = Some(share(group));
        self.dynamic_offsets = copy_offsets(offsets);
        let mut i: usize = 0;
        while i < group.late_buffer_binding_sizes.len()
            invariant
                i <= group.late_buffer_binding_sizes.len(),
                sizes == group.late_buffer_binding_sizes@,
                self.group == Some(*group),
                self.dynamic_offsets@ == offsets@,
                self.late_bindings_effective_count == old(self).late_bindings_effective_count,
                self.late_buffer_bindings@ == late_with_bound(late, sizes.take(i as int)),
                late == old(self).late_buffer_bindings@,
            decreases group.late_buffer_binding_sizes.len() - i,
        {
            let bound_size: BufferAddress = group.late_buffer_binding_sizes[i];
            if i < self.late_buffer_bindings.len() {
                let shader_expect_size: BufferAddress =
                    self.late_buffer_bindings[i].shader_expect_size;
                self.late_buffer_bindings[i] = LateBufferBinding { shader_expect_size, bound_size };
            } else {
                self.late_buffer_bindings.push(
                    LateBufferBinding { shader_expect_size: 0, bound_size },
                );
            }
            i = i + 1;
            assert(self.late_buffer_bindings@ =~= late_with_bound(late, sizes.take(i as int)));
        }
        assert(sizes.take(sizes.len() as int) =~= sizes);
    }

    /// Notes the sizes that the shaders of a new pipeline expect.
    fn expect(&mut self, sizes: &Vec<BufferAddress>)
        ensures
            final(self)@ == old(self)@.expect(sizes@),
    {
        let ghost late = self.late_buffer_bindings@;
        self.late_bindings_effective_count = sizes.len();
        let mut i: usize = 0;
        while i < sizes.len()
            invariant
                i <= sizes.len(),
                self.group == old(self).group,
                self.dynamic_offsets@ == old(self).dynamic_offsets@,
                self.late_bindings_effective_count == sizes.len(),
                self.late_buffer_bindings@ == late_with_expected(late, sizes@.take(i as int)),
                late == old(self).late_buffer_bindings@,
            decreases sizes.len() - i,
        {
            let shader_expect_size: BufferAddress = sizes[i];
            if i < self.late_buffer_bindings.len() {
                let bound_size: BufferAddress = self.late_buffer_bindings[i].bound_size;
                self.late_buffer_bindings[i] = LateBufferBinding { shader_expect_size, bound_size };
            } else {
                self.late_buffer_bindings.push(
                    LateBufferBinding { shader_expect_size, bound_size: 0 },
                );
            }
            i = i + 1;
            assert(self.late_buffer_bindings@ =~= late_with_expected(late, sizes@.take(i as int)));
        }
        assert(sizes@.take(sizes@.len() as int) =~= sizes@);
    }
}

/// A buffer is smaller than a shader expects it to be.
#[derive(Clone, Copy, Debug, PartialEq, Eq, Structural)]
pub struct LateMinBufferBindingSizeMismatch {
    pub group_index: u32,
    pub compact_index: usize,
    pub shader_size: BufferAddress,
    pub bound_size: BufferAddress,
}

/// The number of slots, among the first `n`, that the pipeline uses and finds to its liking, counted
/// up to the first that is not like that.
pub open spec fn compatible_slots(slots: Seq<SlotLayouts>, n: nat) -> nat
    decreases n,
{
    if n == 0 {
        0
    } else {
        let before = compatible_slots(slots, (n - 1) as nat);
        if before == n - 1 && slots[n - 1].spec_is_compatible() {
            n
        } else {
            before
        }
    }
}

/// The number of slots, among the first `n`, whose expectation stays the same under a new pipeline
/// layout, counted up to the first that changes.
pub open spec fn unchanged_slots(
    slots: Seq<SlotLayouts>,
    layouts: Seq<Arc<BindGroupLayout>>,
    n: nat,
) -> nat
    decreases n,
{
    if n == 0 {
        0
    } else {
        let before = unchanged_slots(slots, layouts, (n - 1) as nat);
        if before == n - 1 && slots[n - 1].spec_expects(*layouts[n - 1]) {
            n
        } else {
            before
        }
    }
}

/// The first slot, among the first `n`, in which the pipeline does not find what it expects.
pub open spec fn first_invalid_slot(slots: Seq<SlotLayouts>, n: nat) -> Option<int>
    decreases n,
{
    if n == 0 {
        None
    } else {
        match first_invalid_slot(slots, (n - 1) as nat) {
            Some(i) => Some(i),
            None => if slots[n - 1].spec_is_valid() {
                None
            } else {
                Some(n - 1)
            },
        }
    }
}

/// The first of the first `n` late bindings of a slot that is smaller than expected.
pub open spec fn late_binding_error(
    late: Seq<LateBufferBinding>,
    group_index: int,
    n: nat,
) -> Option<LateMinBufferBindingSizeMismatch>
    decreases n,
{
    if n == 0 {
        None
    } else {
        match late_binding_error(late, group_index, (n - 1) as nat) {
            Some(e) => Some(e),
            None => if late[n - 1].bound_size < late[n - 1].shader_expect_size {
                Some(
                    LateMinBufferBindingSizeMismatch {
                        group_index: group_index as u32,
                        compact_index: (n - 1) as usize,
                        shader_size: late[n - 1].shader_expect_size,
                        bound_size: late[n - 1].bound_size,
                    },
                )
            } else {
                None
            },
        }
    }
}

/// What a [`Binder`] knows.
#[verifier::ext_equal]
pub struct BinderView {
    pub layout: Option<Arc<PipelineLayout>>,
    pub slots: Seq<SlotLayouts>,
    pub payloads: Seq<PayloadView>,
}

impl BinderView {
    /// Nothing is bound and no pipeline set.
    pub open spec fn empty() -> Self {
        BinderView {
            layout: None,
            slots: Seq::new(
                MAX_BIND_GROUPS as nat,
                |i: int| SlotLayouts { assigned: None, expected: None },
            ),
            payloads: Seq::new(MAX_BIND_GROUPS as nat, |i: int| PayloadView::empty()),
        }
    }

    /// What always holds of the slots: their number, that the payload of a slot with an assigned
    /// layout holds a group of that layout, and that the late bindings that count are there.
    pub open spec fn wf(self) -> bool {
        &&& self.slots.len() == MAX_BIND_GROUPS
        &&& self.payloads.len() == MAX_BIND_GROUPS
        &&& forall|i: int|
            0 <= i < MAX_BIND_GROUPS ==> match (#[trigger] self.slots[i]).assigned {
                Some(layout) => self.payloads[i].group matches Some(group) && group.layout
                    == layout,
                None => self.payloads[i].group is None,
            }
        &&& forall|i: int|
            0 <= i < MAX_BIND_GROUPS ==> (#[trigger] self.payloads[i]).late_count
                <= self.payloads[i].late.len()
    }

    /// The end of the slots that have to be handed to the backend again when slots from `start` on
    /// have changed.
    pub open spec fn rebind_end(self, start: int) -> int {
        let compatible = compatible_slots(self.slots, self.slots.len());
        if compatible < start {
            start
        } else {
            compatible as int
        }
    }

    /// Binds a group to a slot.
    pub open spec fn assign_group(
        self,
        index: int,
        group: Arc<BindGroup>,
        offsets: Seq<DynamicOffset>,
    ) -> Self {
        BinderView {
            slots: self.slots.update(
                index,
                SlotLayouts { assigned: Some(group.layout), expected: self.slots[index].expected },
            ),
            payloads: self.payloads.update(index, self.payloads[index].assign(group, offsets)),
            ..self
        }
    }

    /// The slots from which on a new pipeline layout expects something else.
    pub open spec fn first_changed_slot(self, new: Arc<PipelineLayout>) -> int {
        unchanged_slots(
            self.slots,
            new.bind_group_layouts@,
            new.bind_group_layouts@.len(),
        ) as int
    }

    /// A pipeline with another layout is set.
    pub open spec fn change_pipeline_layout(
        self,
        new: Arc<PipelineLayout>,
        late: Seq<LateSizedBufferGroup>,
    ) -> Self {
        let layouts = new.bind_group_layouts@;
        let first = self.first_changed_slot(new);
        BinderView {
            layout: Some(new),
            slots: Seq::new(
                self.slots.len(),
                |i: int|
                    SlotLayouts {
                        assigned: self.slots[i].assigned,
                        expected: if i < first {
                            self.slots[i].expected
                        } else if i < layouts.len() {
                            Some(layouts[i])
                        } else {
                            None
                        },
                    },
            ),
            payloads: Seq::new(
                self.payloads.len(),
                |i: int|
                    if i < late.len() {
                        self.payloads[i].expect(late[i].shader_sizes@)
                    } else {
                        self.payloads[i]
                    },
            ),
        }
    }

    /// The first slot that has to be handed to the backend again when a pipeline with another layout
    /// is set: the first one that changes, or all of them where the push constants differ.
    pub open spec fn rebind_start(self, new: Arc<PipelineLayout>) -> int {
        match self.layout {
            Some(old) => if old.push_constant_ranges@ != new.push_constant_ranges@ {
                0
            } else {
                self.first_changed_slot(new)
            },
            None => self.first_changed_slot(new),
        }
    }

    /// The groups in those of the first `n` slots that are used.
    pub open spec fn active_groups(self, n: nat) -> Seq<Arc<BindGroup>>
        decreases n,
    {
        if n == 0 {
            Seq::empty()
        } else {
            let before = self.active_groups((n - 1) as nat);
            if self.slots[n - 1].spec_is_active() {
                before.push(self.payloads[n - 1].group->0)
            } else {
                before
            }
        }
    }

    /// The first late binding, in those of the first `n` slots that are used, that is smaller than
    /// the pipeline expects.
    pub open spec fn late_buffer_error(self, n: nat) -> Option<LateMinBufferBindingSizeMismatch>
        decreases n,
    {
        if n == 0 {
            None
        } else {
            match self.late_buffer_error((n - 1) as nat) {
                Some(e) => Some(e),
                None => if self.slots[n - 1].spec_is_active() {
                    late_binding_error(
                        self.payloads[n - 1].late,
                        n - 1,
                        self.payloads[n - 1].late_count,
                    )
                } else {
                    None
                },
            }
        }
    }
}

pub(crate) proof fn lemma_compatible_slots(slots: Seq<SlotLayouts>, n: nat)
    requires
        n <= slots.len(),
    ensures
        compatible_slots(slots, n) <= n,
        forall|i: int|
            0 <= i < compatible_slots(slots, n) ==> (#[trigger] slots[i]).spec_is_compatible(),
        compatible_slots(slots, n) < n ==> !slots[compatible_slots(
            slots,
            n,
        ) as int].spec_is_compatible(),
    decreases n,
{
    if n > 0 {
        lemma_compatible_slots(slots, (n - 1) as nat);
    }
}

proof fn lemma_compatible_slots_stay(slots: Seq<SlotLayouts>, n: nat, m: nat)
    requires
        n <= m,
        compatible_slots(slots, n) < n,
    ensures
        compatible_slots(slots, m) == compatible_slots(slots, n),
    decreases m,
{
    if n < m {
        lemma_compatible_slots_stay(slots, n, (m - 1) as nat);
    }
}

pub(crate) proof fn lemma_unchanged_slots(
    slots: Seq<SlotLayouts>,
    layouts: Seq<Arc<BindGroupLayout>>,
    n: nat,
)
    requires
        n <= slots.len(),
        n <= layouts.len(),
    ensures
        unchanged_slots(slots, layouts, n) <= n,
        forall|i: int|
            0 <= i < unchanged_slots(slots, layouts, n) ==> (#[trigger] slots[i]).spec_expects(
                *layouts[i],
            ),
    decreases n,
{
    if n > 0 {
        lemma_unchanged_slots(slots, layouts, (n - 1) as nat);
    }
}

proof fn lemma_unchanged_slots_stay(
    slots: Seq<SlotLayouts>,
    layouts: Seq<Arc<BindGroupLayout>>,
    n: nat,
    m: nat,
)
    requires
        n <= m,
        unchanged_slots(slots, layouts, n) < n,
    ensures
        unchanged_slots(slots, layouts, m) == unchanged_slots(slots, layouts, n),
    decreases m,
{
    if n < m {
        lemma_unchanged_slots_stay(slots, layouts, n, (m - 1) as nat);
    }
}

pub(crate) proof fn lemma_first_invalid_slot(slots: Seq<SlotLayouts>, n: nat)
    requires
        n <= slots.len(),
    ensures
        match first_invalid_slot(slots, n) {
            Some(i) => 0 <= i < n && !slots[i].spec_is_valid() && forall|j: int|
                0 <= j < i ==> (#[trigger] slots[j]).spec_is_valid(),
            None => forall|j: int| 0 <= j < n ==> (#[trigger] slots[j]).spec_is_valid(),
        },
    decreases n,
{
    if n > 0 {
        lemma_first_invalid_slot(slots, (n - 1) as nat);
    }
}

proof fn lemma_late_binding_error_stays(
    late: Seq<LateBufferBinding>,
    group_index: int,
    n: nat,
    m: nat,
)
    requires
        n <= m,
        late_binding_error(late, group_index, n) is Some,
    ensures
        late_binding_error(late, group_index, m) == late_binding_error(late, group_index, n),
    decreases m,
{
    if n < m {
        lemma_late_binding_error_stays(late, group_index, n, (m - 1) as nat);
    }
}

proof fn lemma_late_buffer_error_stays(binder: BinderView, n: nat, m: nat)
    requires
        n <= m,
        binder.late_buffer_error(n) is Some,
    ensures
        binder.late_buffer_error(m) == binder.late_buffer_error(n),
    decreases m,
{
    if n < m {
        lemma_late_buffer_error_stays(binder, n, (m - 1) as nat);
    }
}

/// One bit for each slot.
pub type BindGroupMask = u8;

/// The bit of slot `i` is set.
pub open spec fn mask_has(mask: BindGroupMask, i: int) -> bool {
    (mask >> (i as u8)) & 1u8 == 1u8
}

proof fn lemma_set_mask_bit(mask: u8, i: u8, j: u8)
    by (bit_vector)
    requires
        i < 8,
        j < 8,
    ensures
        i == j ==> ((mask | (1u8 << i)) >> j) & 1u8 == 1u8,
        i != j ==> ((mask | (1u8 << i)) >> j) & 1u8 == (mask >> j) & 1u8,
{
}

proof fn lemma_empty_mask(j: u8)
    by (bit_vector)
    ensures
        (0u8 >> j) & 1u8 == 0u8,
{
}

fn ranges_equal(a: &Vec<PushConstantRange>, b: &Vec<PushConstantRange>) -> (r: bool)
    ensures
        r == (a@ == b@),
{
    if a.len() != b.len() {
        return false;
    }
    let mut i: usize = 0;
    while i < a.len()
        invariant
            i <= a.len(),
            a.len() == b.len(),
            forall|j: int| 0 <= j < i ==> a@[j] == b@[j],
        decreases a.len() - i,
    {
        if a[i] != b[i] {
            return false;
        }
        i = i + 1;
    }
    assert(a@ =~= b@);
    true
}

/// Which bind groups are bound, and which of them the current pipeline can use.
#[derive(Debug)]
pub struct Binder {
    pub pipeline_layout: Option<Arc<PipelineLayout>>,
    pub slots: Vec<SlotLayouts>,
    pub payloads: Vec<EntryPayload>,
}

/// The contents of a list of payloads.
pub open spec fn payload_views(payloads: Seq<EntryPayload>) -> Seq<PayloadView> {
    Seq::new(payloads.len(), |i: int| payloads[i]@)
}

impl View for Binder {
    type V = BinderView;

    open spec fn view(&self) -> BinderView {
        BinderView {
            layout: self.pipeline_layout,
            slots: self.slots@,
            payloads: payload_views(self.payloads@),
        }
    }
}

impl Binder {
    /// A binder with nothing bound and no pipeline set.
    pub fn new() -> (r: Self)
        ensures
            r@ == BinderView::empty(),
            r@.wf(),
    {
        let mut slots: Vec<SlotLayouts> = Vec::new();
        let mut payloads: Vec<EntryPayload> = Vec::new();
        while slots.len() < MAX_BIND_GROUPS
            invariant
                slots.len() <= MAX_BIND_GROUPS,
                payloads.len() == slots.len(),
                forall|i: int|
                    0 <= i < slots.len() ==> slots@[i] == (SlotLayouts {
                        assigned: None,
                        expected: None,
                    }),
                forall|i: int|
                    0 <= i < payloads.len() ==> (#[trigger] payloads@[i])@ == PayloadView::empty(),
            decreases MAX_BIND_GROUPS - slots.len(),
        {
            slots.push(SlotLayouts { assigned: None, expected: None });
            payloads.push(EntryPayload::empty());
        }
        let binder = Binder { pipeline_layout: None, slots, payloads };
        assert(binder@ =~= BinderView::empty());
        binder
    }

    /// The end of the slots that have to be handed to the backend again when slots from `start` on
    /// have changed.
    fn rebind_end(&self, start: usize) -> (r: usize)
        ensures
            r == self@.rebind_end(start as int),
    {
        let mut k: usize = 0;
        while k < self.slots.len() && self.slots[k].expected.is_some() && self.slots[k].is_valid()
            invariant
                k <= self.slots.len(),
                compatible_slots(self.slots@, k as nat) == k,
            decreases self.slots.len() - k,
        {
            k = k + 1;
        }
        proof {
            if k < self.slots.len() {
                lemma_compatible_slots_stay(self.slots@, (k + 1) as nat, self.slots@.len());
            }
        }
        if k < start {
            start
        } else {
            k
        }
    }

    /// Binds a group to a slot. The slots from it up to the returned end have to be handed to the
    /// backend again.
    pub fn assign_group(
        &mut self,
        index: usize,
        group: &Arc<BindGroup>,
        offsets: &[DynamicOffset],
    ) -> (end: usize)
        requires
            old(self)@.wf(),
            index < MAX_BIND_GROUPS,
        ensures
            final(self)@ == old(self)@.assign_group(index as int, *group, offsets@),
            final(self)@.wf(),
            end == final(self)@.rebind_end(index as int),
            index <= end <= MAX_BIND_GROUPS,
    {
        let expected: Option<Arc<BindGroupLayout>> = match &self.slots[index].expected {
            Some(layout) => Some(share(layout)),
            None => None,
        };
        self.slots[index] = SlotLayouts { assigned: Some(share(&group.layout)), expected };
        self.payloads[index].assign(group, offsets);
        proof {
            let after = old(self)@.assign_group(index as int, *group, offsets@);
            assert(self@.slots =~= after.slots);
            assert(self@.payloads =~= after.payloads);
            lemma_compatible_slots(self.slots@, self.slots@.len());
        }
        self.rebind_end(index)
    }

    /// Sets a pipeline with another layout. The slots from the first to the second number returned
    /// have to be handed to the backend again.
    pub fn change_pipeline_layout(
        &mut self,
        new: &Arc<PipelineLayout>,
        late: &Vec<LateSizedBufferGroup>,
    ) -> (range: (usize, usize))
        requires
            old(self)@.wf(),
            new.bind_group_layouts.len() <= MAX_BIND_GROUPS,
        ensures
            final(self)@ == old(self)@.change_pipeline_layout(*new, late@),
            final(self)@.wf(),
            range.0 == old(self)@.rebind_start(*new),
            range.1 == final(self)@.rebind_end(old(self)@.first_changed_slot(*new)),
            range.0 <= range.1 <= MAX_BIND_GROUPS,
    {
        let ghost before = self@;
        let ghost layouts = new.bind_group_layouts@;
        let count: usize = new.bind_group_layouts.len();
        let mut first: usize = 0;
        while first < count && self.slots[first].expects(&new.bind_group_layouts[first])
            invariant
                *self == *old(self),
                self.slots.len() == MAX_BIND_GROUPS,
                count == new.bind_group_layouts.len(),
                count <= MAX_BIND_GROUPS,
                layouts == new.bind_group_layouts@,
                first <= count,
                unchanged_slots(self.slots@, layouts, first as nat) == first,
            decreases count - first,
        {
            first = first + 1;
        }
        proof {
            if first < count {
                lemma_unchanged_slots_stay(
                    self.slots@,
                    layouts,
                    (first + 1) as nat,
                    layouts.len(),
                );
            }
            assert(first == before.first_changed_slot(*new));
        }
        let push_constants_differ: bool = match &self.pipeline_layout {
            Some(current) => !ranges_equal(
                &current.push_constant_ranges,
                &new.push_constant_ranges,
            ),
            None => false,
        };
        self.pipeline_layout = Some(share(new));
        let ghost after = before.change_pipeline_layout(*new, late@);
        let mut i: usize = first;
        while i < MAX_BIND_GROUPS
            invariant
                first <= i <= MAX_BIND_GROUPS,
                first == before.first_changed_slot(*new),
                before.wf(),
                after == before.change_pipeline_layout(*new, late@),
                count == new.bind_group_layouts.len(),
                layouts == new.bind_group_layouts@,
                self.pipeline_layout == Some(*new),
                self.payloads@ == old(self).payloads@,
                self.slots.len() == MAX_BIND_GROUPS,
                forall|j: int| 0 <= j < i ==> self.slots@[j] == after.slots[j],
                forall|j: int| i <= j < MAX_BIND_GROUPS ==> self.slots@[j] == before.slots[j],
            decreases MAX_BIND_GROUPS - i,
        {
            let assigned: Option<Arc<BindGroupLayout>> = match &self.slots[i].assigned {
                Some(layout) => Some(share(layout)),
                None => None,
            };
            let expected: Option<Arc<BindGroupLayout>> = if i < count {
                Some(share(&new.bind_group_layouts[i]))
            } else {
                None
            };
            self.slots[i] = SlotLayouts { assigned, expected };
            i = i + 1;
        }
        let mut k: usize = 0;
        while k < MAX_BIND_GROUPS && k < late.len()
            invariant
                k <= MAX_BIND_GROUPS,
                k <= late.len(),
                before.wf(),
                before == old(self)@,
                after == before.change_pipeline_layout(*new, late@),
                self.pipeline_layout == Some(*new),
                self.slots@ == after.slots,
                self.payloads.len() == MAX_BIND_GROUPS,
                forall|j: int| 0 <= j < k ==> (#[trigger] self.payloads@[j])@ == after.payloads[j],
                forall|j: int|
                    k <= j < MAX_BIND_GROUPS ==> (#[trigger] self.payloads@[j])@
                        == before.payloads[j],
            decreases MAX_BIND_GROUPS - k,
        {
            self.payloads[k].expect(&late[k].shader_sizes);
            k = k + 1;
        }
        proof {
            assert(self@.payloads =~= after.payloads);
            assert(self@ == after);
            lemma_compatible_slots(self.slots@, self.slots@.len());
            assert(after.wf()) by {
                assert forall|j: int| 0 <= j < MAX_BIND_GROUPS implies match (
                #[trigger] after.slots[j]).assigned {
                    Some(layout) => after.payloads[j].group matches Some(group) && group.layout
                        == layout,
                    None => after.payloads[j].group is None,
                } by {
                    assert(before.slots[j].assigned == after.slots[j].assigned);
                }
                assert forall|j: int| 0 <= j < MAX_BIND_GROUPS implies (
                #[trigger] after.payloads[j]).late_count <= after.payloads[j].late.len() by {
                    assert(before.payloads[j].late_count <= before.payloads[j].late.len());
                }
            }
        }
        let end: usize = self.rebind_end(first);
        if push_constants_differ {
            (0, end)
        } else {
            (first, end)
        }
    }

    /// The slots in which the pipeline does not find what it expects, as bits.
    pub fn invalid_mask(&self) -> (mask: BindGroupMask)
        requires
            self@.wf(),
        ensures
            forall|i: int|
                0 <= i < MAX_BIND_GROUPS ==> #[trigger] mask_has(mask, i)
                    == !self@.slots[i].spec_is_valid(),
    {
        let mut mask: BindGroupMask = 0;
        let mut i: usize = 0;
        proof {
            assert forall|j: int| 0 <= j < 8 implies !#[trigger] mask_has(0u8, j) by {
                lemma_empty_mask(j as u8);
            }
        }
        while i < MAX_BIND_GROUPS
            invariant
                i <= MAX_BIND_GROUPS,
                self.slots.len() == MAX_BIND_GROUPS,
                forall|j: int|
                    0 <= j < i ==> #[trigger] mask_has(mask, j) == !self@.slots[j].spec_is_valid(),
                forall|j: int| i <= j < MAX_BIND_GROUPS ==> !#[trigger] mask_has(mask, j),
            decreases MAX_BIND_GROUPS - i,
        {
            if !self.slots[i].is_valid() {
                let ghost before = mask;
                mask = mask | (1u8 << (i as u8));
                proof {
                    assert forall|j: int| 0 <= j < 8 implies #[trigger] mask_has(mask, j) == (j == i
                        || mask_has(before, j)) by {
                        lemma_set_mask_bit(before, i as u8, j as u8);
                    }
                }
            }
            i = i + 1;
        }
        mask
    }

    /// How the first slot that does not fit the pipeline differs from what it should be.
    pub fn bgl_diff(&self) -> (r: Vec<String>)
        requires
            self@.wf(),
            first_invalid_slot(self@.slots, self@.slots.len()) is Some,
        ensures
            texts(r@) == layout_diff(
                self@.slots[first_invalid_slot(self@.slots, self@.slots.len())->0],
            ),
    {
        let ghost first = first_invalid_slot(self@.slots, self@.slots.len())->0;
        proof {
            lemma_first_invalid_slot(self@.slots, self@.slots.len());
        }
        let mut i: usize = 0;
        while self.slots[i].is_valid()
            invariant
                i <= first < self.slots.len(),
                !self.slots@[first].spec_is_valid(),
                forall|j: int| 0 <= j < first ==> (#[trigger] self.slots@[j]).spec_is_valid(),
            decreases first - i,
        {
            i = i + 1;
        }
        self.slots[i].bgl_diff()
    }

    /// The groups in the slots that are used.
    pub fn list_active(&self) -> (r: Vec<Arc<BindGroup>>)
        requires
            self@.wf(),
        ensures
            r@ == self@.active_groups(MAX_BIND_GROUPS as nat),
    {
        let mut active: Vec<Arc<BindGroup>> = Vec::new();
        let mut i: usize = 0;
        while i < MAX_BIND_GROUPS
            invariant
                self@.wf(),
                i <= MAX_BIND_GROUPS,
                active@ == self@.active_groups(i as nat),
            decreases MAX_BIND_GROUPS - i,
        {
            if self.slots[i].is_active() {
                assert(self@.slots[i as int].assigned is Some);
                assert(self@.payloads[i as int].group is Some);
                match &self.payloads[i].group {
                    Some(group) => {
                        active.push(share(group));
                    },
                    None => {},
                }
            }
            i = i + 1;
        }
        active
    }

    /// Checks that no buffer is smaller than the pipeline expects.
    pub fn check_late_buffer_bindings(&self) -> (r: Result<(), LateMinBufferBindingSizeMismatch>)
        requires
            self@.wf(),
        ensures
            match self@.late_buffer_error(MAX_BIND_GROUPS as nat) {
                None => r is Ok,
                Some(e) => r == Err::<(), LateMinBufferBindingSizeMismatch>(e),
            },
    {
        let mut group_index: usize = 0;
        while group_index < MAX_BIND_GROUPS
            invariant
                self@.wf(),
                group_index <= MAX_BIND_GROUPS,
                self@.late_buffer_error(group_index as nat) is None,
            decreases MAX_BIND_GROUPS - group_index,
        {
            if self.slots[group_index].is_active() {
                let ghost late = self@.payloads[group_index as int].late;
                let count: usize = self.payloads[group_index].late_bindings_effective_count;
                assert(self@.payloads[group_index as int].late_count == count);
                let mut compact_index: usize = 0;
                while compact_index < count
                    invariant
                        self@.wf(),
                        group_index < MAX_BIND_GROUPS,
                        self@.slots[group_index as int].spec_is_active(),
                        self@.late_buffer_error(group_index as nat) is None,
                        late == self@.payloads[group_index as int].late,
                        count == self@.payloads[group_index as int].late_count,
                        compact_index <= count,
                        late_binding_error(late, group_index as int, compact_index as nat) is None,
                    decreases count - compact_index,
                {
                    assert(count <= late.len());
                    let binding: LateBufferBinding =
                        self.payloads[group_index].late_buffer_bindings[compact_index];
                    if binding.bound_size < binding.shader_expect_size {
                        proof {
                            lemma_late_binding_error_stays(
                                late,
                                group_index as int,
                                (compact_index + 1) as nat,
                                count as nat,
                            );
                            lemma_late_buffer_error_stays(
                                self@,
                                (group_index + 1) as nat,
                                MAX_BIND_GROUPS as nat,
                            );
                        }
                        return Err(
                            LateMinBufferBindingSizeMismatch {
                                group_index: group_index as u32,
                                compact_index,
                                shader_size: binding.shader_expect_size,
                                bound_size: binding.bound_size,
                            },
                        );
                    }
                    compact_index = compact_index + 1;
                }
            }
            group_index = group_index + 1;
        }
        Ok(())
    }
}

} // verus!
