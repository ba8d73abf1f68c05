use vfinder::launcher::{
    conclude, plan_launch, ExitOutcome, Invocation, LaunchError, ProcessReport,
};

fn invocation(program: &str, args: &[&str]) -> Invocation {
    Invocation { program: program.to_string(), args: args.iter().map(|s| s.to_string()).collect() }
}

#[test]
fn plain_editor_gets_the_path() {
    assert_eq!(plan_launch("true", "/tmp/f"), Ok(invocation("true", &["/tmp/f"])));
    assert_eq!(
        plan_launch("nonexistent-editor-xyz", "/tmp/f"),
        Ok(invocation("nonexistent-editor-xyz", &["/tmp/f"]))
    );
}

#[test]
fn editor_with_flags_keeps_them_before_the_path() {
    assert_eq!(
        plan_launch("code --wait", "/tmp/t/a.txt"),
        Ok(invocation("code", &["--wait", "/tmp/t/a.txt"]))
    );
    assert_eq!(
        plan_launch("  emacs\t-nw   -Q \n", "notes.md"),
        Ok(invocation("emacs", &["-nw", "-Q", "notes.md"]))
    );
}

#[test]
fn path_is_one_argument_whatever_it_holds() {
    assert_eq!(
        plan_launch("vi", "/tmp/my file.txt"),
        Ok(invocation("vi", &["/tmp/my file.txt"]))
    );
    assert_eq!(plan_launch("vi", ""), Ok(invocation("vi", &[""])));
}

#[test]
fn editor_without_a_word_is_not_found() {
    assert_eq!(plan_launch("", "/tmp/f"), Err(LaunchError::EditorNotFound));
    assert_eq!(plan_launch(" \t\r\n ", "/tmp/f"), Err(LaunchError::EditorNotFound));
}

#[test]
fn editor_in_another_script_is_split_at_blanks_only() {
    assert_eq!(
        plan_launch("éditeur --attendre", "/tmp/é"),
        Ok(invocation("éditeur", &["--attendre", "/tmp/é"]))
    );
    assert_eq!(plan_launch("a\u{a0}b", "f"), Ok(invocation("a\u{a0}b", &["f"])));
}

#[test]
fn program_that_did_not_start_means_editor_not_found() {
    assert_eq!(conclude(ProcessReport::NotStarted), Err(LaunchError::EditorNotFound));
}

#[test]
fn exit_code_zero_is_success() {
    assert_eq!(
        conclude(ProcessReport::Exited { code: Some(0) }),
        Ok(ExitOutcome { success: true, code: Some(0) })
    );
}

#[test]
fn other_exit_codes_are_failures_that_carry_the_code() {
    assert_eq!(
        conclude(ProcessReport::Exited { code: Some(1) }),
        Err(LaunchError::EditorFailed(ExitOutcome { success: false, code: Some(1) }))
    );
    assert_eq!(
        conclude(ProcessReport::Exited { code: Some(-1) }),
        Err(LaunchError::EditorFailed(ExitOutcome { success: false, code: Some(-1) }))
    );
    assert_eq!(
        conclude(ProcessReport::Exited { code: Some(i32::MIN) }),
        Err(LaunchError::EditorFailed(ExitOutcome { success: false, code: Some(i32::MIN) }))
    );
}

#[test]
fn process_without_exit_code_is_a_failure() {
    assert_eq!(
        conclude(ProcessReport::Exited { code: None }),
        Err(LaunchError::EditorFailed(ExitOutcome { success: false, code: None }))
    );
}
