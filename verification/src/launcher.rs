//! The editor hand-off: how a command line is assembled from the configured
//! editor and the chosen path, and how the end of the editor is judged.
//!
//! Running the process is the caller's part. The caller asks [`plan_launch`]
//! what to run, runs it, reports what became of it, and lets [`conclude`]
//! judge the report.

use vstd::prelude::*;
use crate::text::{lemma_texts_push, split_words, texts, words};

verus! {

/// What to run: a program and its arguments, the chosen path last.
#[derive(Debug, PartialEq, Eq)]
pub struct Invocation {
    pub program: String,
    pub args: Vec<String>,
}

/// The mathematical value of an [`Invocation`].
pub struct InvocationModel {
    pub program: Seq<char>,
    pub args: Seq<Seq<char>>,
}

impl View for Invocation {
    type V = InvocationModel;

    open spec fn view(&self) -> InvocationModel {
        InvocationModel { program: self.program@, args: texts(self.args@) }
    }
}

/// How a process ended: whether it succeeded, and its exit code where it
/// has one.
#[derive(Clone, Copy, Debug, PartialEq, Eq)]
pub struct ExitOutcome {
    pub success: bool,
    pub code: Option<i32>,
}

/// Why a launch failed.
#[derive(Clone, Copy, Debug, PartialEq, Eq)]
pub enum LaunchError {
    /// The editor names no program, or the program could not be started.
    EditorNotFound,
    /// The editor ran and did not exit with code 0.
    EditorFailed(ExitOutcome),
}

/// What the caller saw of the process it was asked to run.
#[derive(Clone, Copy, Debug, PartialEq, Eq)]
pub enum ProcessReport {
    /// The program could not be located or executed.
    NotStarted,
    /// The process ran and ended, with this exit code if it has one.
    Exited { code: Option<i32> },
}

/// The command line for `editor` on `path`: the first word of the editor is
/// the program, its other words are the leading arguments, and the path is
/// the last argument. An editor without a word gives no command line.
pub open spec fn command_line(editor: Seq<char>, path: Seq<char>) -> Option<InvocationModel> {
    let parts = words(editor);
    if parts.len() == 0 {
        None
    } else {
        Some(InvocationModel { program: parts[0], args: parts.skip(1).push(path) })
    }
}

/// The judgement on a report: a process that did not start means the editor
/// was not found; exit code 0 is success; anything else is a failure that
/// carries the code.
pub open spec fn judgement(report: ProcessReport) -> Result<ExitOutcome, LaunchError> {
    match report {
        ProcessReport::NotStarted => Err(LaunchError::EditorNotFound),
        ProcessReport::Exited { code } => if code == Some(0i32) {
            Ok(ExitOutcome { success: true, code })
        } else {
            Err(LaunchError::EditorFailed(ExitOutcome { success: false, code }))
        },
    }
}

/// Assembles the command line that opens `path` in `editor`. Fails with
/// `EditorNotFound` exactly when the editor holds no word.
pub fn plan_launch(editor: &str, path: &str) -> (plan: Result<Invocation, LaunchError>)
    ensures
        match plan {
            Ok(invocation) => command_line(editor@, path@) == Some(invocation@),
            Err(error) => command_line(editor@, path@) is None && error
                == LaunchError::EditorNotFound,
        },
{
    let mut parts = split_words(editor);
    if parts.len() == 0 {
        return Err(LaunchError::EditorNotFound);
    }
    let ghost all = parts@;
    let program = parts.remove(0);
    let ghost leading = parts@;
    parts.push(path.to_owned());
    let invocation = Invocation { program, args: parts };
    proof {
        assert(texts(leading) =~= texts(all).skip(1));
        lemma_texts_push(leading, invocation.args@.last());
        assert(invocation.program@ == texts(all)[0]);
    }
    Ok(invocation)
}

/// Judges what became of the editor.
pub fn conclude(report: ProcessReport) -> (outcome: Result<ExitOutcome, LaunchError>)
    ensures
        outcome == judgement(report),
{
    match report {
        ProcessReport::NotStarted => Err(LaunchError::EditorNotFound),
        ProcessReport::Exited { code } => {
            let clean = match code {
                Some(value) => value == 0,
                None => false,
            };
            if clean {
                Ok(ExitOutcome { success: true, code })
            } else {
                Err(LaunchError::EditorFailed(ExitOutcome { success: false, code }))
            }
        },
    }
}

} // verus!
