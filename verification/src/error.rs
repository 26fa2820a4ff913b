//! What can go wrong when a compute pass is run.
use crate::bind;
use crate::bind::LateMinBufferBindingSizeMismatch;
use crate::id::{
    BindGroupId, BufferId, CommandEncoderId, ComputePipelineId, DeviceId, QuerySetId,
};
use crate::push_constant::PushConstantUploadError;
use crate::query::QueryUseError;
use crate::resource::BindError;
use crate::track::UsageConflict;
use crate::types::{BufferUsages, DownlevelFlags, Features};
use vstd::prelude::*;

verus! {

/// The device failed.
#[derive(Clone, Copy, Debug, PartialEq, Eq, Structural)]
pub enum DeviceError {
    Invalid,
    Lost,
    OutOfMemory,
}

/// The encoder cannot record.
#[derive(Clone, Copy, Debug, PartialEq, Eq, Structural)]
pub enum CommandEncoderError {
    /// There is no such encoder, or an earlier error made it useless.
    Invalid,
    /// The encoder was finished.
    NotRecording,
}

/// A feature is needed that the device was not created with.
#[derive(Clone, Copy, Debug, PartialEq, Eq, Structural)]
pub struct MissingFeatures(pub Features);

/// An ability is needed that the device lacks.
#[derive(Clone, Copy, Debug, PartialEq, Eq, Structural)]
pub struct MissingDownlevelFlags(pub DownlevelFlags);

/// A buffer is used in a way that it was not created for.
#[derive(Clone, Copy, Debug, PartialEq, Eq, Structural)]
pub struct MissingBufferUsageError {
    pub id: BufferId,
    pub actual: BufferUsages,
    pub expected: BufferUsages,
}

/// A dispatch is impossible.
#[derive(Clone, Debug, PartialEq, Eq)]
#[non_exhaustive]
pub enum DispatchError {
    /// No pipeline is set.
    MissingPipeline,
    /// The group in a slot does not fit the pipeline.
    IncompatibleBindGroup { index: u32, diff: Vec<String> },
    /// The grid is too large in some dimension.
    InvalidGroupSize { current: [u32; 3], limit: u32 },
    /// A buffer is smaller than the pipeline expects.
    BindingSizeTooSmall(LateMinBufferBindingSizeMismatch),
}

/// Error encountered when performing a compute pass.
#[derive(Clone, Debug, PartialEq, Eq)]
pub enum ComputePassErrorInner {
    Device(DeviceError),
    Encoder(CommandEncoderError),
    InvalidBindGroup(u32),
    InvalidDevice(DeviceId),
    BindGroupIndexOutOfRange { index: u32, max: u32 },
    InvalidPipeline(ComputePipelineId),
    InvalidQuerySet(QuerySetId),
    InvalidIndirectBuffer(BufferId),
    IndirectBufferOverrun { offset: u64, end_offset: u64, buffer_size: u64 },
    InvalidBuffer(BufferId),
    ResourceUsageConflict(UsageConflict),
    MissingBufferUsage(MissingBufferUsageError),
    InvalidPopDebugGroup,
    Dispatch(DispatchError),
    Bind(BindError),
    PushConstants(PushConstantUploadError),
    QueryUse(QueryUseError),
    MissingFeatures(MissingFeatures),
    MissingDownlevelFlags(MissingDownlevelFlags),
}

/// What was going on when an error was encountered.
#[derive(Clone, Copy, Debug, PartialEq, Eq, Structural)]
pub enum PassErrorScope {
    /// The pass as a whole.
    Pass(CommandEncoderId),
    SetBindGroup(BindGroupId),
    SetPipelineCompute(ComputePipelineId),
    SetPushConstant,
    Dispatch { indirect: bool, pipeline: Option<ComputePipelineId> },
    PopDebugGroup,
    WriteTimestamp,
    BeginPipelineStatisticsQuery,
    EndPipelineStatisticsQuery,
}

/// Error encountered when performing a compute pass.
#[derive(Clone, Debug, PartialEq, Eq)]
pub struct ComputePassError {
    pub scope: PassErrorScope,
    pub inner: ComputePassErrorInner,
}

/// What a [`ComputePassErrorInner`] says.
pub enum Fault {
    /// The group in a slot does not fit the pipeline, for the reasons given line by line.
    IncompatibleBindGroup { index: u32, diff: Seq<Seq<char>> },
    /// Any other error, which says all by itself.
    Other(ComputePassErrorInner),
}

impl View for ComputePassErrorInner {
    type V = Fault;

    open spec fn view(&self) -> Fault {
        match *self {
            ComputePassErrorInner::Dispatch(DispatchError::IncompatibleBindGroup { index, diff })
                => Fault::IncompatibleBindGroup { index, diff: bind::texts(diff@) },
            other => Fault::Other(other),
        }
    }
}

impl View for DispatchError {
    type V = Fault;

    open spec fn view(&self) -> Fault {
        ComputePassErrorInner::Dispatch(*self)@
    }
}

/// What a [`ComputePassError`] says.
pub struct ErrorView {
    pub scope: PassErrorScope,
    pub fault: Fault,
}

impl View for ComputePassError {
    type V = ErrorView;

    open spec fn view(&self) -> ErrorView {
        ErrorView { scope: self.scope, fault: self.inner@ }
    }
}

impl From<LateMinBufferBindingSizeMismatch> for DispatchError {
    fn from(error: LateMinBufferBindingSizeMismatch) -> (r: Self) {
        DispatchError::BindingSizeTooSmall(error)
    }
}

impl vstd::std_specs::convert::FromSpecImpl<LateMinBufferBindingSizeMismatch> for DispatchError {
    open spec fn obeys_from_spec() -> bool {
        true
    }

    open spec fn from_spec(error: LateMinBufferBindingSizeMismatch) -> Self {
        DispatchError::BindingSizeTooSmall(error)
    }
}

impl From<DeviceError> for ComputePassErrorInner {
    fn from(error: DeviceError) -> (r: Self) {
        ComputePassErrorInner::Device(error)
    }
}

impl vstd::std_specs::convert::FromSpecImpl<DeviceError> for ComputePassErrorInner {
    open spec fn obeys_from_spec() -> bool {
        true
    }

    open spec fn from_spec(error: DeviceError) -> Self {
        ComputePassErrorInner::Device(error)
    }
}

impl From<CommandEncoderError> for ComputePassErrorInner {
    fn from(error: CommandEncoderError) -> (r: Self) {
        ComputePassErrorInner::Encoder(error)
    }
}

impl vstd::std_specs::convert::FromSpecImpl<CommandEncoderError> for ComputePassErrorInner {
    open spec fn obeys_from_spec() -> bool {
        true
    }

    open spec fn from_spec(error: CommandEncoderError) -> Self {
        ComputePassErrorInner::Encoder(error)
    }
}

impl From<UsageConflict> for ComputePassErrorInner {
    fn from(error: UsageConflict) -> (r: Self) {
        ComputePassErrorInner::ResourceUsageConflict(error)
    }
}

impl vstd::std_specs::convert::FromSpecImpl<UsageConflict> for ComputePassErrorInner {
    open spec fn obeys_from_spec() -> bool {
        true
    }

    open spec fn from_spec(error: UsageConflict) -> Self {
        ComputePassErrorInner::ResourceUsageConflict(error)
    }
}

impl From<MissingBufferUsageError> for ComputePassErrorInner {
    fn from(error: MissingBufferUsageError) -> (r: Self) {
        ComputePassErrorInner::MissingBufferUsage(error)
    }
}

impl vstd::std_specs::convert::FromSpecImpl<MissingBufferUsageError> for ComputePassErrorInner {
    open spec fn obeys_from_spec() -> bool {
        true
    }

    open spec fn from_spec(error: MissingBufferUsageError) -> Self {
        ComputePassErrorInner::MissingBufferUsage(error)
    }
}

impl From<DispatchError> for ComputePassErrorInner {
    fn from(error: DispatchError) -> (r: Self) {
        ComputePassErrorInner::Dispatch(error)
    }
}

impl vstd::std_specs::convert::FromSpecImpl<DispatchError> for ComputePassErrorInner {
    open spec fn obeys_from_spec() -> bool {
        true
    }

    open spec fn from_spec(error: DispatchError) -> Self {
        ComputePassErrorInner::Dispatch(error)
    }
}

impl From<BindError> for ComputePassErrorInner {
    fn from(error: BindError) -> (r: Self) {
        ComputePassErrorInner::Bind(error)
    }
}

impl vstd::std_specs::convert::FromSpecImpl<BindError> for ComputePassErrorInner {
    open spec fn obeys_from_spec() -> bool {
        true
    }

    open spec fn from_spec(error: BindError) -> Self {
        ComputePassErrorInner::Bind(error)
    }
}

impl From<PushConstantUploadError> for ComputePassErrorInner {
    fn from(error: PushConstantUploadError) -> (r: Self) {
        ComputePassErrorInner::PushConstants(error)
    }
}

impl vstd::std_specs::convert::FromSpecImpl<PushConstantUploadError> for ComputePassErrorInner {
    open spec fn obeys_from_spec() -> bool {
        true
    }

    open spec fn from_spec(error: PushConstantUploadError) -> Self {
        ComputePassErrorInner::PushConstants(error)
    }
}

impl From<QueryUseError> for ComputePassErrorInner {
    fn from(error: QueryUseError) -> (r: Self) {
        ComputePassErrorInner::QueryUse(error)
    }
}

impl vstd::std_specs::convert::FromSpecImpl<QueryUseError> for ComputePassErrorInner {
    open spec fn obeys_from_spec() -> bool {
        true
    }

    open spec fn from_spec(error: QueryUseError) -> Self {
        ComputePassErrorInner::QueryUse(error)
    }
}

impl From<MissingFeatures> for ComputePassErrorInner {
    fn from(error: MissingFeatures) -> (r: Self) {
        ComputePassErrorInner::MissingFeatures(error)
    }
}

impl vstd::std_specs::convert::FromSpecImpl<MissingFeatures> for ComputePassErrorInner {
    open spec fn obeys_from_spec() -> bool {
        true
    }

    open spec fn from_spec(error: MissingFeatures) -> Self {
        ComputePassErrorInner::MissingFeatures(error)
    }
}

impl From<MissingDownlevelFlags> for ComputePassErrorInner {
    fn from(error: MissingDownlevelFlags) -> (r: Self) {
        ComputePassErrorInner::MissingDownlevelFlags(error)
    }
}

impl vstd::std_specs::convert::FromSpecImpl<MissingDownlevelFlags> for ComputePassErrorInner {
    open spec fn obeys_from_spec() -> bool {
        true
    }

    open spec fn from_spec(error: MissingDownlevelFlags) -> Self {
        ComputePassErrorInner::MissingDownlevelFlags(error)
    }
}

/// Says what was going on when an error was encountered.
pub trait MapPassErr<T, O> {
    fn map_pass_err(self, scope: PassErrorScope) -> Result<T, O>;
}

impl<T, E> MapPassErr<T, ComputePassError> for Result<T, E> where E: Into<ComputePassErrorInner> {
    fn map_pass_err(self, scope: PassErrorScope) -> (r: Result<T, ComputePassError>)
        ensures
            self matches Ok(value) ==> r == Ok::<T, ComputePassError>(value),
            self matches Err(error) ==> r is Err && r->Err_0.scope == scope,
            self matches Err(error) ==> (<E as vstd::std_specs::convert::IntoSpec<
                ComputePassErrorInner,
            >>::obeys_into_spec() ==> r->Err_0.inner == <E as vstd::std_specs::convert::IntoSpec<
                ComputePassErrorInner,
            >>::into_spec(error)),
    {
        match self {
            Ok(value) => Ok(value),
            Err(error) => Err(ComputePassError { scope, inner: error.into() }),
        }
    }
}

/// A line of the text that explains an error.
#[derive(Debug, PartialEq, Eq)]
pub enum ErrorLine {
    /// The message of the error itself.
    Message,
    /// The label of a compute pipeline.
    ComputePipelineLabel(ComputePipelineId),
    /// The label of a buffer.
    BufferLabel(BufferId),
    /// The label of a bind group.
    BindGroupLabel(BindGroupId),
    /// The label of a command buffer.
    CommandBufferLabel(CommandEncoderId),
    /// A remark.
    Note(String),
}

/// The contents of an [`ErrorLine`].
pub enum ErrorLineView {
    Message,
    ComputePipelineLabel(ComputePipelineId),
    BufferLabel(BufferId),
    BindGroupLabel(BindGroupId),
    CommandBufferLabel(CommandEncoderId),
    Note(Seq<char>),
}

impl View for ErrorLine {
    type V = ErrorLineView;

    open spec fn view(&self) -> ErrorLineView {
        match *self {
            ErrorLine::Message => ErrorLineView::Message,
            ErrorLine::ComputePipelineLabel(id) => ErrorLineView::ComputePipelineLabel(id),
            ErrorLine::BufferLabel(id) => ErrorLineView::BufferLabel(id),
            ErrorLine::BindGroupLabel(id) => ErrorLineView::BindGroupLabel(id),
            ErrorLine::CommandBufferLabel(id) => ErrorLineView::CommandBufferLabel(id),
            ErrorLine::Note(text) => ErrorLineView::Note(text@),
        }
    }
}

/// Collects the lines of the text that explains an error.
#[derive(Debug)]
pub struct ErrorFormatter {
    pub lines: Vec<ErrorLine>,
}

impl View for ErrorFormatter {
    type V = Seq<ErrorLineView>;

    open spec fn view(&self) -> Seq<ErrorLineView> {
        Seq::new(self.lines@.len(), |i: int| self.lines@[i]@)
    }
}

impl ErrorFormatter {
    /// No lines yet.
    pub fn new() -> (r: Self)
        ensures
            r@ == Seq::<ErrorLineView>::empty(),
    {
        ErrorFormatter { lines: Vec::new() }
    }

    /// Adds a line.
    pub fn line(&mut self, line: ErrorLine)
        ensures
            final(self)@ == old(self)@.push(line@),
    {
        self.lines.push(line);
        assert(self@ =~= old(self)@.push(line@));
    }
}

/// An error that can be explained at length.
pub trait PrettyError {
    fn fmt_pretty(&self, fmt: &mut ErrorFormatter);
}

/// The remarks that a list of texts makes.
pub open spec fn notes(lines: Seq<Seq<char>>) -> Seq<ErrorLineView> {
    Seq::new(lines.len(), |i: int| ErrorLineView::Note(lines[i]))
}

/// The lines that explain an error: its message, and the objects or remarks that it names.
pub open spec fn explanation(fault: Fault) -> Seq<ErrorLineView> {
    match fault {
        Fault::Other(ComputePassErrorInner::InvalidPipeline(id)) => seq![
            ErrorLineView::Message,
            ErrorLineView::ComputePipelineLabel(id),
        ],
        Fault::Other(ComputePassErrorInner::InvalidIndirectBuffer(id)) => seq![
            ErrorLineView::Message,
            ErrorLineView::BufferLabel(id),
        ],
        Fault::IncompatibleBindGroup { diff, .. } => seq![ErrorLineView::Message] + notes(diff),
        Fault::Other(_) => seq![ErrorLineView::Message],
    }
}

/// The line that names the object that was being dealt with, if there was one.
pub open spec fn scope_lines(scope: PassErrorScope) -> Seq<ErrorLineView> {
    match scope {
        PassErrorScope::Pass(id) => seq![ErrorLineView::CommandBufferLabel(id)],
        PassErrorScope::SetBindGroup(id) => seq![ErrorLineView::BindGroupLabel(id)],
        PassErrorScope::SetPipelineCompute(id) => seq![ErrorLineView::ComputePipelineLabel(id)],
        PassErrorScope::Dispatch { pipeline: Some(id), .. } => seq![
            ErrorLineView::ComputePipelineLabel(id),
        ],
        _ => seq![],
    }
}

impl PrettyError for ComputePassErrorInner {
    fn fmt_pretty(&self, fmt: &mut ErrorFormatter)
        ensures
            final(fmt)@ == old(fmt)@ + explanation(self@),
    {
        let ghost before = fmt@;
        fmt.line(ErrorLine::Message);
        match self {
            ComputePassErrorInner::InvalidPipeline(id) => {
                fmt.line(ErrorLine::ComputePipelineLabel(*id));
            },
            ComputePassErrorInner::InvalidIndirectBuffer(id) => {
                fmt.line(ErrorLine::BufferLabel(*id));
            },
            ComputePassErrorInner::Dispatch(
                DispatchError::IncompatibleBindGroup { diff, .. },
            ) => {
                let ghost lines = bind::texts(diff@);
                let mut i: usize = 0;
                assert(fmt@ =~= before + (seq![ErrorLineView::Message] + notes(lines.take(0))));
                while i < diff.len()
                    invariant
                        i <= diff.len(),
                        lines == bind::texts(diff@),
                        fmt@ == before + (seq![ErrorLineView::Message] + notes(
                            lines.take(i as int),
                        )),
                    decreases diff.len() - i,
                {
                    fmt.line(ErrorLine::Note(diff[i].clone()));
                    i = i + 1;
                    assert(fmt@ =~= before + (seq![ErrorLineView::Message] + notes(
                        lines.take(i as int),
                    )));
                }
                assert(lines.take(lines.len() as int) =~= lines);
            },
            _ => {},
        }
        assert(fmt@ =~= before + explanation(self@));
    }
}

impl PrettyError for PassErrorScope {
    fn fmt_pretty(&self, fmt: &mut ErrorFormatter)
        ensures
            final(fmt)@ == old(fmt)@ + scope_lines(*self),
    {
        match *self {
            PassErrorScope::Pass(id) => {
                fmt.line(ErrorLine::CommandBufferLabel(id));
            },
            PassErrorScope::SetBindGroup(id) => {
                fmt.line(ErrorLine::BindGroupLabel(id));
            },
            PassErrorScope::SetPipelineCompute(id) => {
                fmt.line(ErrorLine::ComputePipelineLabel(id));
            },
            PassErrorScope::Dispatch { pipeline: Some(id), .. } => {
                fmt.line(ErrorLine::ComputePipelineLabel(id));
            },
            _ => {},
        }
        assert(fmt@ =~= old(fmt)@ + scope_lines(*self));
    }
}

impl PrettyError for ComputePassError {
    fn fmt_pretty(&self, fmt: &mut ErrorFormatter)
        ensures
            final(fmt)@ == old(fmt)@ + (seq![ErrorLineView::Message] + scope_lines(self.scope)),
    {
        fmt.line(ErrorLine::Message);
        self.scope.fmt_pretty(fmt);
        assert(fmt@ =~= old(fmt)@ + (seq![ErrorLineView::Message] + scope_lines(self.scope)));
    }
}

/// The explanation of an error begins with its message. An error about a pipeline or a buffer that is not there names
/// it, one about a group that does not fit gives all its reasons, and no other says more.
pub proof fn explanations_name_what_they_are_about(fault: Fault)
    ensures
        ({
            let lines = explanation(fault);
            &&& lines.len() > 0
            &&& lines[0] == ErrorLineView::Message
            &&& match fault {
                Fault::Other(ComputePassErrorInner::InvalidPipeline(id)) => lines.len() == 2
                    && lines[1] == ErrorLineView::ComputePipelineLabel(id),
                Fault::Other(ComputePassErrorInner::InvalidIndirectBuffer(id)) => lines.len() == 2
                    && lines[1] == ErrorLineView::BufferLabel(id),
                Fault::IncompatibleBindGroup { diff, .. } => {
                    &&& lines.len() == diff.len() + 1
                    &&& forall|i: int|
                        0 <= i < diff.len() ==> lines[i + 1] == ErrorLineView::Note(
                            #[trigger] diff[i],
                        )
                },
                _ => lines.len() == 1,
            }
        }),
{
}

/// What was going on is told by naming the object that it was about, where there was one.
pub proof fn scopes_name_their_objects(scope: PassErrorScope)
    ensures
        ({
            let lines = scope_lines(scope);
            match scope {
                PassErrorScope::Pass(id) => lines.len() == 1 && lines[0]
                    == ErrorLineView::CommandBufferLabel(id),
                PassErrorScope::SetBindGroup(id) => lines.len() == 1 && lines[0]
                    == ErrorLineView::BindGroupLabel(id),
                PassErrorScope::SetPipelineCompute(id) => lines.len() == 1 && lines[0]
                    == ErrorLineView::ComputePipelineLabel(id),
                PassErrorScope::Dispatch { pipeline, .. } => match pipeline {
                    Some(id) => lines.len() == 1 && lines[0] == ErrorLineView::ComputePipelineLabel(
                        id,
                    ),
                    None => lines.len() == 0,
                },
                _ => lines.len() == 0,
            }
        }),
{
}

} // verus!
