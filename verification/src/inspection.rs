//! The decisions of bounded, torn-read-free destination inspection: read
//! limits, handle classification, change detection between the stamps taken
//! around a read, and how each failed attempt is reported.
//!
//! The file-system calls themselves stay with the caller, which hands each
//! captured fact in as a plain value.

use vstd::prelude::*;
use vstd::string::StringExecFns;

use crate::observation::{FileChangeToken, FileIdentity, SpecialFileKind, TargetState};

verus! {

/// How many times a changing destination is inspected before giving up.
pub const MAX_STABILITY_ATTEMPTS: usize = 3;

/// The largest file, in bytes, that is read or fingerprinted: 64 MiB.
pub const MAX_SUPPORTED_FILE_BYTES: u64 = 67_108_864;

/// The message for a file over the supported size.
pub const FILE_TOO_LARGE_MESSAGE: &'static str = "file exceeds the supported 64 MiB document limit";

/// The stage of the save protocol at which a storage step ran.
#[derive(Clone, Copy, PartialEq, Eq, Structural, Hash, Debug)]
pub enum SaveStage {
    /// First inspection of the destination.
    InspectInitial,
    /// Writing the replacement content.
    Write,
    /// Syncing the parent directory.
    SyncParent,
    /// Re-inspection of the destination just before commit.
    Revalidate,
    /// Reconciling an uncertain commit.
    Reconcile,
    /// Removing temporary artifacts.
    Cleanup,
}

/// A stage-tagged storage failure whose message never holds a path.
#[derive(Clone, PartialEq, Eq, Debug)]
pub struct StorageError {
    stage: SaveStage,
    message: String,
}

impl StorageError {
    /// The stage at which the failure happened.
    pub closed spec fn spec_stage(&self) -> SaveStage {
        self.stage
    }

    /// The failure's message.
    pub closed spec fn spec_message(&self) -> Seq<char> {
        self.message@
    }

    /// Creates a stage-tagged failure.
    pub fn new(stage: SaveStage, message: &str) -> (error: Self)
        ensures
            error.spec_stage() == stage,
            error.spec_message() == message@,
    {
        StorageError { stage, message: String::from_str(message) }
    }

    /// Returns the stage at which the failure happened.
    pub fn stage(&self) -> (stage: SaveStage)
        ensures
            stage == self.spec_stage(),
    {
        self.stage
    }

    /// Returns the failure's message.
    pub fn message(&self) -> (message: &str)
        ensures
            message@ == self.spec_message(),
    {
        self.message.as_str()
    }
}

/// The kind of an operating-system I/O failure.
#[derive(Clone, Copy, PartialEq, Eq, Structural, Hash, Debug)]
pub enum IoErrorKind {
    /// The entry does not exist.
    NotFound,
    /// Access was refused.
    PermissionDenied,
    /// An entry already exists.
    AlreadyExists,
    /// An argument, such as a path, was invalid.
    InvalidInput,
    /// Data was malformed.
    InvalidData,
    /// A read ended early.
    UnexpectedEof,
    /// The operation was interrupted.
    Interrupted,
    /// The operation is not supported here.
    Unsupported,
    /// Memory could not be allocated.
    OutOfMemory,
    /// Any other failure.
    Other,
}

/// The name of an I/O failure kind, as shown in messages.
pub open spec fn io_kind_name(kind: IoErrorKind) -> Seq<char> {
    match kind {
        IoErrorKind::NotFound => "NotFound"@,
        IoErrorKind::PermissionDenied => "PermissionDenied"@,
        IoErrorKind::AlreadyExists => "AlreadyExists"@,
        IoErrorKind::InvalidInput => "InvalidInput"@,
        IoErrorKind::InvalidData => "InvalidData"@,
        IoErrorKind::UnexpectedEof => "UnexpectedEof"@,
        IoErrorKind::Interrupted => "Interrupted"@,
        IoErrorKind::Unsupported => "Unsupported"@,
        IoErrorKind::OutOfMemory => "OutOfMemory"@,
        IoErrorKind::Other => "Other"@,
    }
}

impl IoErrorKind {
    /// Returns the kind's name, as shown in messages.
    pub fn name(self) -> (name: &'static str)
        ensures
            name@ == io_kind_name(self),
    {
        match self {
            IoErrorKind::NotFound => "NotFound",
            IoErrorKind::PermissionDenied => "PermissionDenied",
            IoErrorKind::AlreadyExists => "AlreadyExists",
            IoErrorKind::InvalidInput => "InvalidInput",
            IoErrorKind::InvalidData => "InvalidData",
            IoErrorKind::UnexpectedEof => "UnexpectedEof",
            IoErrorKind::Interrupted => "Interrupted",
            IoErrorKind::Unsupported => "Unsupported",
            IoErrorKind::OutOfMemory => "OutOfMemory",
            IoErrorKind::Other => "Other",
        }
    }
}

/// Why one inspection attempt did not produce a stable observation.
#[derive(Clone, Copy, PartialEq, Eq, Debug)]
pub enum AttemptError {
    /// The destination changed during the attempt; another attempt may
    /// succeed.
    Changed,
    /// The destination is over the supported size.
    TooLarge,
    /// An I/O operation failed.
    Io {
        /// What was being done.
        operation: &'static str,
        /// How it failed.
        kind: IoErrorKind,
    },
}

impl AttemptError {
    /// The failure of I/O `operation` with error `kind`.
    pub fn io(operation: &'static str, kind: IoErrorKind) -> (error: Self)
        ensures
            error == (AttemptError::Io { operation, kind }),
    {
        AttemptError::Io { operation, kind }
    }
}

/// The read limit for a file announced at `announced_length` bytes: one byte
/// past `maximum`, so that growth past the maximum is detected.
///
/// # Errors
///
/// `TooLarge` when the announced length exceeds `maximum`; an I/O error when
/// the limit itself cannot be represented.
pub fn bounded_read_limit(announced_length: u64, maximum: u64) -> (limit: Result<u64, AttemptError>)
    ensures
        announced_length > maximum ==> limit == Err::<u64, AttemptError>(AttemptError::TooLarge),
        announced_length <= maximum && maximum < u64::MAX ==> limit == Ok::<u64, AttemptError>(
            (maximum + 1) as u64,
        ),
        announced_length <= maximum && maximum == u64::MAX ==> limit == Err::<u64, AttemptError>(
            AttemptError::Io {
                operation: "calculate bounded read limit",
                kind: IoErrorKind::InvalidInput,
            },
        ),
{
    if announced_length > maximum {
        return Err(AttemptError::TooLarge);
    }
    match maximum.checked_add(1) {
        Some(limit) => Ok(limit),
        None => Err(
            AttemptError::Io {
                operation: "calculate bounded read limit",
                kind: IoErrorKind::InvalidInput,
            },
        ),
    }
}

/// The identity, link count and change stamp the platform reports for an
/// open handle.
#[derive(Clone, Copy, PartialEq, Eq, Structural, Debug)]
pub struct FileFacts {
    /// The file object's identity.
    pub identity: FileIdentity,
    /// The number of directory entries naming the file.
    pub link_count: u64,
    /// The platform change stamp.
    pub change_token: FileChangeToken,
}

/// A modification time: seconds and nanoseconds since the Unix epoch.
#[derive(Clone, Copy, PartialEq, Eq, Structural, Debug)]
pub struct ModifiedTime {
    /// Whole seconds.
    pub seconds: u64,
    /// Nanoseconds within the second.
    pub nanoseconds: u32,
}

/// Everything captured about an open handle at one moment.
#[derive(Clone, Copy, PartialEq, Eq, Structural, Debug)]
pub struct HandleStamp {
    /// Identity, link count and change stamp.
    pub facts: FileFacts,
    /// The announced length in bytes.
    pub length: u64,
    /// The modification time, when the platform reports one.
    pub modified: Option<ModifiedTime>,
    /// Whether the handle is a regular file and not a final link.
    pub is_regular: bool,
}

/// Whether the file changed across a read: the stamps before and after
/// differ in any dimension, or the bytes read differ from the final length.
pub fn read_window_changed(
    before: HandleStamp,
    after: HandleStamp,
    observed_length: u64,
) -> (changed: bool)
    ensures
        changed == (before != after || observed_length != after.length),
{
    !(before == after) || observed_length != after.length
}

/// Whether the path no longer names the observed object: its final entry
/// became special, or a fresh handle differs from the observed one.
pub fn reopened_path_changed(
    final_entry_is_special: bool,
    reopened: HandleStamp,
    observed: HandleStamp,
) -> (changed: bool)
    ensures
        changed == (final_entry_is_special || reopened != observed),
{
    final_entry_is_special || !(reopened == observed)
}

/// Whether an open handle is a regular file: a file that is not a final
/// link.
pub fn handle_metadata_is_regular(is_file: bool, is_final_link: bool) -> (regular: bool)
    ensures
        regular == (is_file && !is_final_link),
{
    is_file && !is_final_link
}

/// Whether link attributes mark a final link: a symbolic link or a reparse
/// point.
pub fn link_attributes_indicate_link(is_symlink: bool, is_reparse_point: bool) -> (link: bool)
    ensures
        link == (is_symlink || is_reparse_point),
{
    is_symlink || is_reparse_point
}

/// The special state of a final path entry, or `None` for a regular file: a
/// link first, then a directory, then anything that is not a file.
pub fn non_regular_state(
    is_final_link: bool,
    is_dir: bool,
    is_file: bool,
) -> (state: Option<TargetState>)
    ensures
        state == if is_final_link {
            Some(TargetState::Special(SpecialFileKind::SymbolicLink))
        } else if is_dir {
            Some(TargetState::Special(SpecialFileKind::Directory))
        } else if is_file {
            None
        } else {
            Some(TargetState::Special(SpecialFileKind::Other))
        },
{
    if is_final_link {
        Some(TargetState::Special(SpecialFileKind::SymbolicLink))
    } else if is_dir {
        Some(TargetState::Special(SpecialFileKind::Directory))
    } else if is_file {
        None
    } else {
        Some(TargetState::Special(SpecialFileKind::Other))
    }
}

/// A missing entry mid-attempt means the path changed; any other failure is
/// reported with its operation.
pub fn changed_or_io(operation: &'static str, kind: IoErrorKind) -> (error: AttemptError)
    ensures
        error == if kind == IoErrorKind::NotFound {
            AttemptError::Changed
        } else {
            AttemptError::Io { operation, kind }
        },
{
    if kind == IoErrorKind::NotFound {
        AttemptError::Changed
    } else {
        AttemptError::Io { operation, kind }
    }
}

/// A stage-tagged error naming the failed operation and the failure kind,
/// and nothing of the path.
pub fn redacted_error(stage: SaveStage, operation: &str, kind: IoErrorKind) -> (error: StorageError)
    ensures
        error.spec_stage() == stage,
        error.spec_message() == operation@ + " failed with "@ + io_kind_name(kind),
{
    let mut message = String::from_str(operation);
    message.append(" failed with ");
    message.append(kind.name());
    StorageError { stage, message }
}

/// What follows a failed inspection attempt.
#[derive(Clone, PartialEq, Eq, Debug)]
pub enum AttemptStep {
    /// Inspect again.
    Retry,
    /// Stop and report this error.
    Fail(StorageError),
}

/// Decides what follows failed attempt number `attempts_made` (counting from
/// one) at `boundary`: a changed destination is inspected again until
/// [`MAX_STABILITY_ATTEMPTS`] attempts have run, then reported with
/// `exhausted_message`; a file over the size limit and an I/O failure are
/// reported at once.
pub fn after_failed_attempt(
    boundary: SaveStage,
    attempts_made: usize,
    error: AttemptError,
    exhausted_message: &str,
) -> (step: AttemptStep)
    ensures
        match error {
            AttemptError::Changed => if attempts_made < MAX_STABILITY_ATTEMPTS {
                step == AttemptStep::Retry
            } else {
                step matches AttemptStep::Fail(failure) && failure.spec_stage() == boundary
                    && failure.spec_message() == exhausted_message@
            },
            AttemptError::TooLarge => step matches AttemptStep::Fail(failure)
                && failure.spec_stage() == boundary && failure.spec_message()
                == FILE_TOO_LARGE_MESSAGE@,
            AttemptError::Io { operation, kind } => step matches AttemptStep::Fail(failure)
                && failure.spec_stage() == boundary && failure.spec_message() == operation@
                + " failed with "@ + io_kind_name(kind),
        },
{
    match error {
        AttemptError::Changed => {
            if attempts_made < MAX_STABILITY_ATTEMPTS {
                AttemptStep::Retry
            } else {
                AttemptStep::Fail(StorageError::new(boundary, exhausted_message))
            }
        },
        AttemptError::TooLarge => AttemptStep::Fail(
            StorageError::new(boundary, FILE_TOO_LARGE_MESSAGE),
        ),
        AttemptError::Io { operation, kind } => AttemptStep::Fail(
            redacted_error(boundary, operation, kind),
        ),
    }
}

} // verus!
