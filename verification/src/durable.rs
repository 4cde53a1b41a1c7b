//! The order in which a file is written so that a crash leaves the old file or the whole new one.
use vstd::prelude::*;
use crate::commit::CommitFault;
use crate::parquet::ParquetFault;
use crate::retirement::RetirementFault;

verus! {

/// One step of writing a file under a temporary name and moving it into place.
#[derive(Clone, Copy, Debug, PartialEq, Eq, Structural)]
pub enum WriteStep {
    /// Write the bytes under the temporary name.
    Create,
    /// Sync those bytes.
    SyncFile,
    /// Move the temporary file into place.
    Rename,
    /// Sync the directories above it.
    SyncDir,
}

/// How far a write has come.
#[derive(Clone, Copy, Debug, PartialEq, Eq, Structural)]
pub enum WriteState {
    /// Nothing is written.
    Started,
    /// The bytes stand under the temporary name.
    Written,
    /// The bytes under the temporary name are durable.
    Synced,
    /// The file stands in place.
    Renamed,
    /// The file stands in place after a crash, too.
    Durable,
}

/// The step that comes next.
pub open spec fn step_for(state: WriteState) -> Option<WriteStep> {
    match state {
        WriteState::Started => Some(WriteStep::Create),
        WriteState::Written => Some(WriteStep::SyncFile),
        WriteState::Synced => Some(WriteStep::Rename),
        WriteState::Renamed => Some(WriteStep::SyncDir),
        WriteState::Durable => None,
    }
}

/// How far a write has come once its next step is done.
pub open spec fn advanced(state: WriteState) -> WriteState {
    match state {
        WriteState::Started => WriteState::Written,
        WriteState::Written => WriteState::Synced,
        WriteState::Synced => WriteState::Renamed,
        WriteState::Renamed => WriteState::Durable,
        WriteState::Durable => WriteState::Durable,
    }
}

/// Whether a file stands under the temporary name.
pub open spec fn has_temporary(state: WriteState) -> bool {
    state is Written || state is Synced
}

/// Whether the new file stands in place.
pub open spec fn in_place(state: WriteState) -> bool {
    state is Renamed || state is Durable
}

/// Whether all bytes of the new file are durable.
pub open spec fn bytes_durable(state: WriteState) -> bool {
    state is Synced || in_place(state)
}

impl WriteState {
    /// The step that comes next.
    #[must_use]
    pub fn step(self) -> (step: Option<WriteStep>)
        ensures
            step == step_for(self),
    {
        match self {
            WriteState::Started => Some(WriteStep::Create),
            WriteState::Written => Some(WriteStep::SyncFile),
            WriteState::Synced => Some(WriteStep::Rename),
            WriteState::Renamed => Some(WriteStep::SyncDir),
            WriteState::Durable => None,
        }
    }

    /// How far the write has come once that step is done.
    #[must_use]
    pub fn advance(self) -> (state: Self)
        ensures
            state == advanced(self),
    {
        match self {
            WriteState::Started => WriteState::Written,
            WriteState::Written => WriteState::Synced,
            WriteState::Synced => WriteState::Renamed,
            WriteState::Renamed => WriteState::Durable,
            WriteState::Durable => WriteState::Durable,
        }
    }
}

impl WriteStep {
    /// The step of a Parquet write at which an injected fault stops.
    #[must_use]
    pub fn parquet_fault(self) -> (fault: ParquetFault)
        ensures
            fault == match self {
                WriteStep::Create => ParquetFault::Create,
                WriteStep::SyncFile => ParquetFault::SyncFile,
                WriteStep::Rename => ParquetFault::Rename,
                WriteStep::SyncDir => ParquetFault::SyncDir,
            },
    {
        match self {
            WriteStep::Create => ParquetFault::Create,
            WriteStep::SyncFile => ParquetFault::SyncFile,
            WriteStep::Rename => ParquetFault::Rename,
            WriteStep::SyncDir => ParquetFault::SyncDir,
        }
    }

    /// The step of a commit write at which an injected fault stops.
    #[must_use]
    pub fn commit_fault(self) -> (fault: CommitFault)
        ensures
            fault == match self {
                WriteStep::Create => CommitFault::Create,
                WriteStep::SyncFile => CommitFault::SyncFile,
                WriteStep::Rename => CommitFault::Rename,
                WriteStep::SyncDir => CommitFault::SyncDir,
            },
    {
        match self {
            WriteStep::Create => CommitFault::Create,
            WriteStep::SyncFile => CommitFault::SyncFile,
            WriteStep::Rename => CommitFault::Rename,
            WriteStep::SyncDir => CommitFault::SyncDir,
        }
    }

    /// The step of a retirement write at which an injected fault stops.
    #[must_use]
    pub fn retirement_fault(self) -> (fault: RetirementFault)
        ensures
            fault == match self {
                WriteStep::Create => RetirementFault::Create,
                WriteStep::SyncFile => RetirementFault::SyncFile,
                WriteStep::Rename => RetirementFault::Rename,
                WriteStep::SyncDir => RetirementFault::SyncDir,
            },
    {
        match self {
            WriteStep::Create => RetirementFault::Create,
            WriteStep::SyncFile => RetirementFault::SyncFile,
            WriteStep::Rename => RetirementFault::Rename,
            WriteStep::SyncDir => RetirementFault::SyncDir,
        }
    }
}

/// The state after `count` steps.
pub open spec fn after_steps(count: nat) -> WriteState
    decreases count,
{
    if count == 0 {
        WriteState::Started
    } else {
        advanced(after_steps((count - 1) as nat))
    }
}

/// Wherever a write stops, a file in place has all its bytes durable, and a file that is not yet in
/// place stands at most under its temporary name. Four steps make it durable.
pub proof fn a_write_leaves_the_old_file_or_the_whole_new_one(count: nat)
    ensures
        in_place(after_steps(count)) ==> bytes_durable(after_steps(count)) && !has_temporary(
            after_steps(count),
        ),
        in_place(after_steps(count)) <==> count >= 3,
        has_temporary(after_steps(count)) <==> count == 1 || count == 2,
        after_steps(count) is Durable <==> count >= 4,
    decreases count,
{
    reveal_with_fuel(after_steps, 5);
    if count > 4 {
        a_write_leaves_the_old_file_or_the_whole_new_one((count - 1) as nat);
    }
}

} // verus!
