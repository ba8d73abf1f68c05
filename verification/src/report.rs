//! What the user is told when something goes wrong: one short message per
//! kind of trouble, no two alike.

use vstd::prelude::*;
use crate::launcher::LaunchError;
use crate::walker::{SkipReason, TraverseError};

verus! {

/// The kinds of trouble that a run can meet.
#[derive(Clone, Copy, Debug, PartialEq, Eq, Structural)]
pub enum Trouble {
    /// The root of the walk is missing or is no directory.
    NoSuchDirectory,
    /// An entry may not be read.
    PermissionDenied,
    /// A link points at a directory that the walk had already scheduled.
    SymlinkCycle,
    /// The editor could not be started.
    EditorNotFound,
    /// The editor ran and failed.
    EditorFailed,
}

/// The message for each kind of trouble.
pub open spec fn message_of(trouble: Trouble) -> Seq<char> {
    match trouble {
        Trouble::NoSuchDirectory => "no such directory"@,
        Trouble::PermissionDenied => "permission denied"@,
        Trouble::SymlinkCycle => "link to a directory already visited"@,
        Trouble::EditorNotFound => "editor not found"@,
        Trouble::EditorFailed => "editor failed"@,
    }
}

/// The kind of trouble behind a refused walk.
pub open spec fn trouble_of_walk(error: TraverseError) -> Trouble {
    match error {
        TraverseError::InvalidRoot => Trouble::NoSuchDirectory,
    }
}

/// The kind of trouble behind an entry that was passed over.
pub open spec fn trouble_of_skip(reason: SkipReason) -> Trouble {
    match reason {
        SkipReason::PermissionDenied => Trouble::PermissionDenied,
        SkipReason::SymlinkCycle => Trouble::SymlinkCycle,
    }
}

/// The kind of trouble behind a failed launch.
pub open spec fn trouble_of_launch(error: LaunchError) -> Trouble {
    match error {
        LaunchError::EditorNotFound => Trouble::EditorNotFound,
        LaunchError::EditorFailed(_) => Trouble::EditorFailed,
    }
}

/// The message for `trouble`.
pub fn message(trouble: Trouble) -> (text: &'static str)
    ensures
        text@ == message_of(trouble),
{
    match trouble {
        Trouble::NoSuchDirectory => "no such directory",
        Trouble::PermissionDenied => "permission denied",
        Trouble::SymlinkCycle => "link to a directory already visited",
        Trouble::EditorNotFound => "editor not found",
        Trouble::EditorFailed => "editor failed",
    }
}

/// The message for a refused walk.
pub fn walk_message(error: TraverseError) -> (text: &'static str)
    ensures
        text@ == message_of(trouble_of_walk(error)),
{
    match error {
        TraverseError::InvalidRoot => message(Trouble::NoSuchDirectory),
    }
}

/// The message for an entry that was passed over.
pub fn skip_message(reason: SkipReason) -> (text: &'static str)
    ensures
        text@ == message_of(trouble_of_skip(reason)),
{
    match reason {
        SkipReason::PermissionDenied => message(Trouble::PermissionDenied),
        SkipReason::SymlinkCycle => message(Trouble::SymlinkCycle),
    }
}

/// The message for a failed launch.
pub fn launch_message(error: LaunchError) -> (text: &'static str)
    ensures
        text@ == message_of(trouble_of_launch(error)),
{
    match error {
        LaunchError::EditorNotFound => message(Trouble::EditorNotFound),
        LaunchError::EditorFailed(_) => message(Trouble::EditorFailed),
    }
}

/// Different kinds of trouble have different messages, so a message tells
/// the user which kind was met.
pub proof fn law_messages_tell_apart(a: Trouble, b: Trouble)
    requires
        a != b,
    ensures
        message_of(a) != message_of(b),
{
    reveal_strlit("no such directory");
    reveal_strlit("permission denied");
    reveal_strlit("link to a directory already visited");
    reveal_strlit("editor not found");
    reveal_strlit("editor failed");
    assert("no such directory"@[0] == 'n');
    assert("permission denied"@[0] == 'p');
    assert("link to a directory already visited"@[0] == 'l');
    assert("editor not found"@[0] == 'e');
    assert("editor failed"@[0] == 'e');
    assert("editor not found"@.len() == 16);
    assert("editor failed"@.len() == 13);
}

} // verus!
