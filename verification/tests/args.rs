use vfinder::config::{exit_code, parse_args, ArgError, Config, Overrides};
use vfinder::flags::{Binding, Flag, FlagTable};

fn binding(short: &str, long: &str, flag: Flag) -> Binding {
    Binding { short: Some(short.to_string()), long: long.to_string(), flag }
}

fn long_only(long: &str, flag: Flag) -> Binding {
    Binding { short: None, long: long.to_string(), flag }
}

fn table() -> FlagTable {
    FlagTable::standard()
}

fn list(words: &[&str]) -> Vec<String> {
    words.iter().map(|s| s.to_string()).collect()
}

fn parse(words: &[&str]) -> Result<Overrides, ArgError> {
    parse_args(&table(), &list(words))
}

fn defaults() -> Config {
    Config::with_defaults("/home/u".to_string(), "vi".to_string())
}

#[test]
fn table_refuses_a_name_bound_twice() {
    assert!(FlagTable::new(vec![
        binding("-h", "--help", Flag::Help),
        binding("-h", "--ignore-hidden", Flag::IgnoreHidden),
    ])
    .is_none());
    assert!(FlagTable::new(vec![
        binding("-a", "--same", Flag::Target),
        binding("-b", "--same", Flag::Editor),
    ])
    .is_none());
    assert!(FlagTable::new(vec![
        binding("-a", "--x", Flag::Target),
        binding("-b", "--y", Flag::Editor),
        binding("--x", "--z", Flag::Help),
    ])
    .is_none());
    assert!(FlagTable::new(vec![
        binding("-a", "--x", Flag::Target),
        binding("-b", "-a", Flag::Editor),
    ])
    .is_none());
}

#[test]
fn table_refuses_a_long_name_bound_twice_without_short_names() {
    assert!(FlagTable::new(vec![
        long_only("--same", Flag::Target),
        long_only("--same", Flag::Editor),
    ])
    .is_none());
    assert!(FlagTable::new(vec![
        binding("--same", "--other", Flag::Target),
        long_only("--same", Flag::Editor),
    ])
    .is_none());
    assert!(FlagTable::new(vec![
        long_only("--one", Flag::Target),
        long_only("--two", Flag::Editor),
    ])
    .is_some());
}

#[test]
fn table_built_by_hand_agrees_with_the_standard_one() {
    let by_hand = FlagTable::new(vec![
        binding("-h", "--help", Flag::Help),
        binding("-t", "--target", Flag::Target),
        binding("-e", "--editor", Flag::Editor),
        long_only("--ignore-hidden", Flag::IgnoreHidden),
    ])
    .unwrap();
    let names = [
        "-h", "--help", "-t", "--target", "-e", "--editor", "--ignore-hidden", "-i", "", "--", "-",
    ];
    for name in names {
        assert_eq!(by_hand.lookup(&name.to_string()), table().lookup(&name.to_string()));
    }
}

#[test]
fn table_accepts_distinct_names() {
    assert!(FlagTable::new(vec![]).is_some());
    assert!(FlagTable::new(vec![binding("-x", "-x", Flag::Help)]).is_some());
    let t = table();
    assert_eq!(t.lookup(&"-h".to_string()), Some(Flag::Help));
    assert_eq!(t.lookup(&"--help".to_string()), Some(Flag::Help));
    assert_eq!(t.lookup(&"-t".to_string()), Some(Flag::Target));
    assert_eq!(t.lookup(&"--target".to_string()), Some(Flag::Target));
    assert_eq!(t.lookup(&"-e".to_string()), Some(Flag::Editor));
    assert_eq!(t.lookup(&"--editor".to_string()), Some(Flag::Editor));
    assert_eq!(t.lookup(&"--ignore-hidden".to_string()), Some(Flag::IgnoreHidden));
    assert_eq!(t.lookup(&"-i".to_string()), None);
    assert_eq!(t.lookup(&"-x".to_string()), None);
    assert_eq!(t.lookup(&"".to_string()), None);
    assert_eq!(t.lookup(&"-H".to_string()), None);
}

#[test]
fn empty_command_line_changes_nothing() {
    let o = parse(&[]).unwrap();
    assert_eq!(o, Overrides { targets: vec![], editor: None, ignore_hidden: None });
    assert_eq!(o, Overrides::new());
    assert_eq!(Config::resolve(defaults(), o, &vec![]), defaults());
}

#[test]
fn defaults_leave_hidden_entries_out() {
    assert_eq!(
        defaults(),
        Config { target_dir: "/home/u".to_string(), editor: "vi".to_string(), ignore_hidden: true }
    );
}

#[test]
fn all_three_flags() {
    let o = parse(&["-t", "/home/u/Documents", "-e", "nano", "--ignore-hidden", "false"]).unwrap();
    assert_eq!(
        o,
        Overrides {
            targets: list(&["/home/u/Documents"]),
            editor: Some("nano".to_string()),
            ignore_hidden: Some(false),
        }
    );
    assert_eq!(
        Config::resolve(defaults(), o, &vec![true]),
        Config {
            target_dir: "/home/u/Documents".to_string(),
            editor: "nano".to_string(),
            ignore_hidden: false,
        }
    );
}

#[test]
fn long_names_mean_the_same() {
    assert_eq!(
        parse(&["--target", "/srv", "--editor", "code --wait", "--ignore-hidden", "true"]).unwrap(),
        Overrides {
            targets: list(&["/srv"]),
            editor: Some("code --wait".to_string()),
            ignore_hidden: Some(true),
        }
    );
}

#[test]
fn editor_alone() {
    let o = parse(&["-e", "nano"]).unwrap();
    assert_eq!(
        Config::resolve(defaults(), o, &vec![]),
        Config { target_dir: "/home/u".to_string(), editor: "nano".to_string(), ignore_hidden: true }
    );
}

#[test]
fn empty_values_fall_back_to_the_defaults() {
    let o = parse(&["-t", "", "-e", "", "--ignore-hidden", ""]).unwrap();
    assert_eq!(o, Overrides::new());
    assert_eq!(Config::resolve(defaults(), o, &vec![]), defaults());
}

#[test]
fn later_flags_win() {
    let o = parse(&["-e", "nano", "--ignore-hidden", "false", "-e", "vim", "--ignore-hidden", "true", "-e", ""]).unwrap();
    assert_eq!(o.editor, Some("vim".to_string()));
    assert_eq!(o.ignore_hidden, Some(true));
}

#[test]
fn target_that_is_no_directory_is_ignored() {
    let o = parse(&["-t", "/etc/passwd"]).unwrap();
    assert_eq!(Config::resolve(defaults(), o, &vec![false]).target_dir, "/home/u");
    let o = parse(&["-t", "/etc/passwd"]).unwrap();
    assert_eq!(Config::resolve(defaults(), o, &vec![]).target_dir, "/home/u");
}

#[test]
fn last_target_that_is_a_directory_counts() {
    let words = ["-t", "/a", "-t", "/b", "-t", "/c"];
    let pick = |checks: Vec<bool>| Config::resolve(defaults(), parse(&words).unwrap(), &checks).target_dir;
    assert_eq!(pick(vec![true, true, true]), "/c");
    assert_eq!(pick(vec![true, true, false]), "/b");
    assert_eq!(pick(vec![true, false, false]), "/a");
    assert_eq!(pick(vec![false, true, false]), "/b");
    assert_eq!(pick(vec![false, false, false]), "/home/u");
    assert_eq!(pick(vec![true, true]), "/b");
    assert_eq!(pick(vec![true, true, true, true]), "/c");
}

#[test]
fn help_ends_the_parsing() {
    assert_eq!(parse(&["-h"]), Err(ArgError::HelpRequested));
    assert_eq!(parse(&["--help"]), Err(ArgError::HelpRequested));
    assert_eq!(parse(&["-e", "nano", "-h", "bogus"]), Err(ArgError::HelpRequested));
    assert_eq!(parse(&["bogus", "-h"]), Err(ArgError::InvalidArgument("bogus".to_string())));
}

#[test]
fn flag_as_a_value_is_a_value() {
    assert_eq!(parse(&["-e", "-h"]).unwrap().editor, Some("-h".to_string()));
    assert_eq!(parse(&["-t", "-t"]).unwrap().targets, list(&["-t"]));
}

#[test]
fn unknown_word_is_an_invalid_argument() {
    assert_eq!(parse(&["--verbose"]), Err(ArgError::InvalidArgument("--verbose".to_string())));
    assert_eq!(parse(&[""]), Err(ArgError::InvalidArgument("".to_string())));
    assert_eq!(
        parse(&["-e", "nano", "file.txt"]),
        Err(ArgError::InvalidArgument("file.txt".to_string()))
    );
}

#[test]
fn flag_without_a_value() {
    assert_eq!(parse(&["-t"]), Err(ArgError::MissingValue("-t".to_string())));
    assert_eq!(parse(&["-e", "nano", "--editor"]), Err(ArgError::MissingValue("--editor".to_string())));
    assert_eq!(parse(&["--ignore-hidden"]), Err(ArgError::MissingValue("--ignore-hidden".to_string())));
}

#[test]
fn hidden_policy_is_on_for_true_and_off_for_any_other_word() {
    assert_eq!(parse(&["--ignore-hidden", "true"]).unwrap().ignore_hidden, Some(true));
    assert_eq!(parse(&["--ignore-hidden", "false"]).unwrap().ignore_hidden, Some(false));
    for other in ["maybe", "yes", "no", "True", "FALSE", "0", "1", "true ", "falsey", "tru", " "] {
        assert_eq!(parse(&["--ignore-hidden", other]).unwrap().ignore_hidden, Some(false));
    }
    assert_eq!(parse(&["--ignore-hidden", ""]).unwrap().ignore_hidden, None);
}

#[test]
fn any_value_after_a_value_flag_gives_a_configuration() {
    let o = parse(&["--ignore-hidden", "maybe"]).unwrap();
    assert_eq!(
        Config::resolve(defaults(), o, &vec![]),
        Config { target_dir: "/home/u".to_string(), editor: "vi".to_string(), ignore_hidden: false }
    );
    for value in ["", "maybe", "--bogus", "--help", "-h", "-t", "true", "a b"] {
        for flag in ["-t", "--target", "-e", "--editor", "--ignore-hidden"] {
            let outcome = parse(&[flag, value]);
            assert!(outcome.is_ok());
            assert_eq!(exit_code(&outcome), 0);
        }
    }
}

#[test]
fn first_error_wins() {
    assert_eq!(
        parse(&["--ignore-hidden", "maybe", "--bogus"]),
        Err(ArgError::InvalidArgument("--bogus".to_string()))
    );
    assert_eq!(
        parse(&["--bogus", "--ignore-hidden", "maybe"]),
        Err(ArgError::InvalidArgument("--bogus".to_string()))
    );
    assert_eq!(parse(&["--bogus", "--help"]), Err(ArgError::InvalidArgument("--bogus".to_string())));
    assert_eq!(parse(&["--help", "--bogus"]), Err(ArgError::HelpRequested));
    assert_eq!(parse(&["-e"]), Err(ArgError::MissingValue("-e".to_string())));
    assert_eq!(parse(&["-e", "vi", "-x", "-t"]), Err(ArgError::InvalidArgument("-x".to_string())));
}

#[test]
fn exit_codes() {
    assert_eq!(exit_code(&parse(&[])), 0);
    assert_eq!(exit_code(&parse(&["-e", "nano"])), 0);
    assert_eq!(exit_code(&parse(&["-h"])), 2);
    assert_eq!(exit_code(&parse(&["--bogus"])), 1);
    assert_eq!(exit_code(&parse(&["-t"])), 1);
    assert_eq!(exit_code(&parse(&["--ignore-hidden", "maybe"])), 0);
    assert_eq!(exit_code(&parse(&["--help"])), 2);
    assert_eq!(exit_code(&parse(&["-i", "true"])), 1);
}

#[test]
fn table_without_bindings_knows_no_flag() {
    let empty = FlagTable::new(vec![]).unwrap();
    assert_eq!(parse_args(&empty, &list(&[])), Ok(Overrides::new()));
    assert_eq!(
        parse_args(&empty, &list(&["-h"])),
        Err(ArgError::InvalidArgument("-h".to_string()))
    );
}
