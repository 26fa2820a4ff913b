//! What a trace of the calls on an encoder holds.
use crate::command::{BasePass, BaseView, ComputeCommand};
use crate::pass::ComputePassTimestampWrites;
use vstd::prelude::*;

verus! {

/// A traced call.
#[derive(Debug)]
pub enum Command {
    RunComputePass {
        base: BasePass<ComputeCommand>,
        timestamp_writes: Option<ComputePassTimestampWrites>,
    },
}

/// The contents of a [`Command`].
pub enum CommandView {
    RunComputePass { base: BaseView, timestamp_writes: Option<ComputePassTimestampWrites> },
}

impl View for Command {
    type V = CommandView;

    open spec fn view(&self) -> CommandView {
        match *self {
            Command::RunComputePass { base, timestamp_writes } => CommandView::RunComputePass {
                base: base@,
                timestamp_writes,
            },
        }
    }
}

/// The contents of a list of traced calls.
pub open spec fn command_views(commands: Seq<Command>) -> Seq<CommandView> {
    Seq::new(commands.len(), |i: int| commands[i]@)
}

} // verus!
