use vfinder::launcher::{ExitOutcome, LaunchError};
use vfinder::report::{launch_message, message, skip_message, walk_message, Trouble};
use vfinder::walker::{SkipReason, TraverseError};

const ALL: [Trouble; 5] = [
    Trouble::NoSuchDirectory,
    Trouble::PermissionDenied,
    Trouble::SymlinkCycle,
    Trouble::EditorNotFound,
    Trouble::EditorFailed,
];

#[test]
fn each_trouble_has_its_message() {
    assert_eq!(message(Trouble::NoSuchDirectory), "no such directory");
    assert_eq!(message(Trouble::PermissionDenied), "permission denied");
    assert_eq!(message(Trouble::SymlinkCycle), "link to a directory already visited");
    assert_eq!(message(Trouble::EditorNotFound), "editor not found");
    assert_eq!(message(Trouble::EditorFailed), "editor failed");
}

#[test]
fn no_two_messages_are_alike() {
    for (i, a) in ALL.iter().enumerate() {
        for (j, b) in ALL.iter().enumerate() {
            assert_eq!(i == j, message(*a) == message(*b));
        }
    }
}

#[test]
fn errors_speak_through_their_trouble() {
    assert_eq!(walk_message(TraverseError::InvalidRoot), "no such directory");
    assert_eq!(skip_message(SkipReason::PermissionDenied), "permission denied");
    assert_eq!(skip_message(SkipReason::SymlinkCycle), "link to a directory already visited");
    assert_eq!(launch_message(LaunchError::EditorNotFound), "editor not found");
    assert_eq!(
        launch_message(LaunchError::EditorFailed(ExitOutcome { success: false, code: Some(3) })),
        "editor failed"
    );
}
