//! The configuration of a run, and how command-line arguments change it.
//!
//! Parsing is split from everything that touches the process: the caller
//! supplies the arguments and the defaults, checks which target candidates
//! are directories, and prints what has to be printed.

use vstd::prelude::*;
use crate::flags::{meaning, BindingModel, Flag, FlagTable};
use crate::text::{lemma_texts_push, texts};

verus! {

/// The configuration of a run.
#[derive(Debug, PartialEq, Eq)]
pub struct Config {
    pub target_dir: String,
    pub editor: String,
    pub ignore_hidden: bool,
}

/// The mathematical value of a [`Config`].
pub struct ConfigModel {
    pub target_dir: Seq<char>,
    pub editor: Seq<char>,
    pub ignore_hidden: bool,
}

impl View for Config {
    type V = ConfigModel;

    open spec fn view(&self) -> ConfigModel {
        ConfigModel {
            target_dir: self.target_dir@,
            editor: self.editor@,
            ignore_hidden: self.ignore_hidden,
        }
    }
}

/// What the command line asks to change: every non-empty target it named,
/// in order; the last non-empty editor; the last hidden-entry policy.
#[derive(Debug, PartialEq, Eq)]
pub struct Overrides {
    pub targets: Vec<String>,
    pub editor: Option<String>,
    pub ignore_hidden: Option<bool>,
}

/// The mathematical value of an [`Overrides`].
pub struct OverridesModel {
    pub targets: Seq<Seq<char>>,
    pub editor: Option<Seq<char>>,
    pub ignore_hidden: Option<bool>,
}

/// The text of a string that may be absent.
pub open spec fn text_of(s: Option<String>) -> Option<Seq<char>> {
    match s {
        Some(s) => Some(s@),
        None => None,
    }
}

impl View for Overrides {
    type V = OverridesModel;

    open spec fn view(&self) -> OverridesModel {
        OverridesModel {
            targets: texts(self.targets@),
            editor: text_of(self.editor),
            ignore_hidden: self.ignore_hidden,
        }
    }
}

/// Why a command line was not accepted. Each error but the first carries the
/// word that caused it.
#[derive(Debug, PartialEq, Eq)]
pub enum ArgError {
    /// The command line asks for the help text.
    HelpRequested,
    /// A word stands where a flag is expected and is none.
    InvalidArgument(String),
    /// A flag is the last word and lacks its value.
    MissingValue(String),
}

/// The mathematical value of an [`ArgError`].
pub enum ArgErrorModel {
    HelpRequested,
    InvalidArgument(Seq<char>),
    MissingValue(Seq<char>),
}

impl View for ArgError {
    type V = ArgErrorModel;

    open spec fn view(&self) -> ArgErrorModel {
        match self {
            ArgError::HelpRequested => ArgErrorModel::HelpRequested,
            ArgError::InvalidArgument(word) => ArgErrorModel::InvalidArgument(word@),
            ArgError::MissingValue(word) => ArgErrorModel::MissingValue(word@),
        }
    }
}

/// The value of the outcome of parsing.
pub open spec fn outcome_model(outcome: Result<Overrides, ArgError>) -> Result<
    OverridesModel,
    ArgErrorModel,
> {
    match outcome {
        Ok(overrides) => Ok(overrides@),
        Err(error) => Err(error@),
    }
}

/// The overrides of an empty command line.
pub open spec fn nothing() -> OverridesModel {
    OverridesModel { targets: Seq::empty(), editor: None, ignore_hidden: None }
}

/// The word that switches the hidden-entry filter on.
pub open spec fn yes() -> Seq<char> {
    seq!['t', 'r', 'u', 'e']
}

/// What a flag with its value does to the overrides. No value is refused.
/// An empty value changes nothing. A target is added to the targets named so
/// far; an editor replaces the one named before; the hidden-entry policy is
/// switched on by the word `true` and off by every other word.
pub open spec fn apply(o: OverridesModel, flag: Flag, value: Seq<char>) -> OverridesModel {
    if value.len() == 0 {
        o
    } else {
        match flag {
            Flag::Help => o,
            Flag::Target => OverridesModel { targets: o.targets.push(value), ..o },
            Flag::Editor => OverridesModel { editor: Some(value), ..o },
            Flag::IgnoreHidden => OverridesModel { ignore_hidden: Some(value == yes()), ..o },
        }
    }
}

/// Parsing from left to right, starting from the overrides `o`: each flag
/// takes the word after it as its value; the first word that is in the way
/// ends the parsing with its error; a request for help ends it at once.
pub open spec fn parse_from(table: Seq<BindingModel>, args: Seq<Seq<char>>, o: OverridesModel)
    -> Result<OverridesModel, ArgErrorModel>
    decreases args.len(),
{
    if args.len() == 0 {
        Ok(o)
    } else {
        match meaning(table, args[0]) {
            None => Err(ArgErrorModel::InvalidArgument(args[0])),
            Some(Flag::Help) => Err(ArgErrorModel::HelpRequested),
            Some(flag) => if args.len() < 2 {
                Err(ArgErrorModel::MissingValue(args[0]))
            } else {
                parse_from(table, args.skip(2), apply(o, flag, args[1]))
            },
        }
    }
}

/// What a command line asks for.
pub open spec fn parsed(table: Seq<BindingModel>, args: Seq<Seq<char>>) -> Result<
    OverridesModel,
    ArgErrorModel,
> {
    parse_from(table, args, nothing())
}

/// The exit code that belongs to an outcome of parsing: 0 for success, 2
/// where help was requested, 1 for every other error.
pub open spec fn exit_code_of(outcome: Result<OverridesModel, ArgErrorModel>) -> u8 {
    match outcome {
        Ok(_) => 0,
        Err(ArgErrorModel::HelpRequested) => 2,
        Err(_) => 1,
    }
}

/// The word is a flag that takes a value.
pub open spec fn value_flag(table: Seq<BindingModel>, word: Seq<char>) -> bool {
    meaning(table, word) is Some && meaning(table, word) != Some(Flag::Help)
}

/// Every second word before position `i`, from the first on, is a flag that
/// takes a value.
pub open spec fn value_flags_before(table: Seq<BindingModel>, args: Seq<Seq<char>>, i: int)
    -> bool {
    forall|k: int| 0 <= k < i && k % 2 == 0 ==> value_flag(table, #[trigger] args[k])
}

/// What the word at position `i` makes of the parsing when it stands where
/// a flag is expected: a word that is no flag is an invalid argument, the help
/// flag asks for help, and a flag that takes a value lacks it when it is the
/// last word.
pub open spec fn refusal_at(table: Seq<BindingModel>, args: Seq<Seq<char>>, i: int)
    -> ArgErrorModel {
    if meaning(table, args[i]) is None {
        ArgErrorModel::InvalidArgument(args[i])
    } else if meaning(table, args[i]) == Some(Flag::Help) {
        ArgErrorModel::HelpRequested
    } else {
        ArgErrorModel::MissingValue(args[i])
    }
}

proof fn lemma_value_flags_shift(table: Seq<BindingModel>, args: Seq<Seq<char>>, i: int)
    requires
        args.len() >= 2,
        2 <= i <= args.len(),
        value_flags_before(table, args, i),
    ensures
        value_flags_before(table, args.skip(2), i - 2),
{
    let rest = args.skip(2);
    assert forall|k: int| 0 <= k < i - 2 && k % 2 == 0 implies value_flag(
        table,
        #[trigger] rest[k],
    ) by {
        assert(rest[k] == args[k + 2]);
    }
}

proof fn lemma_parse_accepts(table: Seq<BindingModel>, args: Seq<Seq<char>>, o: OverridesModel)
    requires
        args.len() % 2 == 0,
        value_flags_before(table, args, args.len() as int),
    ensures
        parse_from(table, args, o) is Ok,
    decreases args.len(),
{
    if args.len() > 0 {
        assert(value_flag(table, args[0]));
        lemma_value_flags_shift(table, args, args.len() as int);
        lemma_parse_accepts(table, args.skip(2), apply(o, meaning(table, args[0])->Some_0, args[1]));
    }
}

proof fn lemma_parse_refuses(
    table: Seq<BindingModel>,
    args: Seq<Seq<char>>,
    o: OverridesModel,
    i: int,
)
    requires
        0 <= i < args.len(),
        i % 2 == 0,
        value_flags_before(table, args, i),
        !value_flag(table, args[i]) || i == args.len() - 1,
    ensures
        parse_from(table, args, o) == Err::<OverridesModel, ArgErrorModel>(
            refusal_at(table, args, i),
        ),
    decreases i,
{
    if i > 0 {
        assert(value_flag(table, args[0]));
        let rest = args.skip(2);
        lemma_value_flags_shift(table, args, i);
        assert(rest[i - 2] == args[i]);
        lemma_parse_refuses(table, rest, apply(o, meaning(table, args[0])->Some_0, args[1]), i - 2);
    }
}

/// A command line on which every word in flag position is a flag that
/// takes a value, and has one, is accepted whatever the values are; the exit
/// code is 0.
pub proof fn law_value_flags_accepted(table: Seq<BindingModel>, args: Seq<Seq<char>>)
    requires
        args.len() % 2 == 0,
        value_flags_before(table, args, args.len() as int),
    ensures
        parsed(table, args) is Ok,
        exit_code_of(parsed(table, args)) == 0,
{
    lemma_parse_accepts(table, args, nothing());
}

/// The first word in flag position that is no flag taking a value ends the
/// parsing: the help flag with a request for help and exit code 2, any other
/// word as an invalid argument with exit code 1.
pub proof fn law_first_stranger_refused(table: Seq<BindingModel>, args: Seq<Seq<char>>, i: int)
    requires
        0 <= i < args.len(),
        i % 2 == 0,
        value_flags_before(table, args, i),
        !value_flag(table, args[i]),
    ensures
        parsed(table, args) == Err::<OverridesModel, ArgErrorModel>(refusal_at(table, args, i)),
        !(refusal_at(table, args, i) is MissingValue),
        exit_code_of(parsed(table, args)) == if meaning(table, args[i]) is None {
            1u8
        } else {
            2u8
        },
{
    lemma_parse_refuses(table, args, nothing(), i);
}

/// A command line that ends in a flag without its value is refused for the
/// missing value, with exit code 1, where nothing before it was refused.
pub proof fn law_last_flag_needs_value(table: Seq<BindingModel>, args: Seq<Seq<char>>)
    requires
        args.len() % 2 == 1,
        value_flags_before(table, args, args.len() as int),
    ensures
        parsed(table, args) == Err::<OverridesModel, ArgErrorModel>(
            ArgErrorModel::MissingValue(args.last()),
        ),
        exit_code_of(parsed(table, args)) == 1,
{
    let i = args.len() - 1;
    assert(value_flag(table, args[i]));
    lemma_parse_refuses(table, args, nothing(), i);
}

/// The target that counts: the last candidate that was found to be a
/// directory, or the fallback where none was. A candidate without a check
/// counts as no directory.
pub open spec fn chosen_target(
    targets: Seq<Seq<char>>,
    is_dir: Seq<bool>,
    fallback: Seq<char>,
) -> Seq<char>
    decreases targets.len(),
{
    if targets.len() == 0 {
        fallback
    } else if targets.len() <= is_dir.len() && is_dir[targets.len() - 1] {
        targets.last()
    } else {
        chosen_target(targets.drop_last(), is_dir, fallback)
    }
}

/// The configuration that `defaults` and the overrides `o` give.
pub open spec fn resolved(defaults: ConfigModel, o: OverridesModel, is_dir: Seq<bool>)
    -> ConfigModel {
    ConfigModel {
        target_dir: chosen_target(o.targets, is_dir, defaults.target_dir),
        editor: match o.editor {
            Some(editor) => editor,
            None => defaults.editor,
        },
        ignore_hidden: match o.ignore_hidden {
            Some(flag) => flag,
            None => defaults.ignore_hidden,
        },
    }
}

/// Tells whether `word` is the word `true`.
fn is_yes(word: &String) -> (same: bool)
    ensures
        same == (word@ == yes()),
{
    proof {
        reveal_strlit("true");
    }
    assert("true"@ =~= yes());
    *word == "true".to_owned()
}

impl Overrides {
    /// The overrides of an empty command line.
    pub fn new() -> (o: Overrides)
        ensures
            o@ == nothing(),
    {
        let o = Overrides { targets: Vec::new(), editor: None, ignore_hidden: None };
        assert(o@.targets =~= nothing().targets);
        o
    }

    /// Applies a flag with its value.
    fn apply_flag(&mut self, flag: Flag, value: &String)
        ensures
            final(self)@ == apply(old(self)@, flag, value@),
    {
        if value.as_str().is_empty() {
            return ;
        }
        match flag {
            Flag::Help => {},
            Flag::Target => {
                let ghost before = self.targets@;
                self.targets.push(value.clone());
                proof {
                    lemma_texts_push(before, *value);
                }
            },
            Flag::Editor => {
                self.editor = Some(value.clone());
            },
            Flag::IgnoreHidden => {
                self.ignore_hidden = Some(is_yes(value));
            },
        }
    }
}

/// Parses a command line, without the program's name, against `table`.
pub fn parse_args(table: &FlagTable, args: &Vec<String>) -> (outcome: Result<Overrides, ArgError>)
    ensures
        outcome_model(outcome) == parsed(table@, texts(args@)),
{
    let mut overrides = Overrides::new();
    let mut i: usize = 0;
    let ghost all = texts(args@);
    assert(all.skip(0) =~= all);
    while i < args.len()
        invariant
            i <= args.len(),
            all == texts(args@),
            parsed(table@, all) == parse_from(table@, all.skip(i as int), overrides@),
        decreases args.len() - i,
    {
        let ghost rest = all.skip(i as int);
        assert(rest[0] == args@[i as int]@);
        match table.lookup(&args[i]) {
            None => {
                return Err(ArgError::InvalidArgument(args[i].clone()));
            },
            Some(Flag::Help) => {
                return Err(ArgError::HelpRequested);
            },
            Some(flag) => {
                if args.len() - i < 2 {
                    return Err(ArgError::MissingValue(args[i].clone()));
                }
                assert(rest[1] == args@[i + 1]@);
                assert(rest.skip(2) =~= all.skip(i + 2));
                overrides.apply_flag(flag, &args[i + 1]);
                i += 2;
            },
        }
    }
    Ok(overrides)
}

/// The exit code that belongs to an outcome of parsing.
pub fn exit_code(outcome: &Result<Overrides, ArgError>) -> (code: u8)
    ensures
        code == exit_code_of(outcome_model(*outcome)),
{
    match outcome {
        Ok(_) => 0,
        Err(ArgError::HelpRequested) => 2,
        Err(_) => 1,
    }
}

impl Config {
    /// The configuration of a run without arguments: the home directory, the
    /// editor that the user has set, hidden entries left out.
    pub fn with_defaults(home: String, editor: String) -> (config: Config)
        ensures
            config@ == (ConfigModel { target_dir: home@, editor: editor@, ignore_hidden: true }),
    {
        Config { target_dir: home, editor, ignore_hidden: true }
    }

    /// The configuration that the overrides make of `defaults`. The caller
    /// says of each target candidate, in order, whether it is a directory.
    pub fn resolve(defaults: Config, overrides: Overrides, is_dir: &Vec<bool>) -> (config: Config)
        ensures
            config@ == resolved(defaults@, overrides@, is_dir@),
    {
        let mut target_dir = defaults.target_dir;
        let mut i: usize = 0;
        let ghost fallback = target_dir@;
        let ghost targets = texts(overrides.targets@);
        assert(targets.take(0).len() == 0);
        while i < overrides.targets.len()
            invariant
                i <= overrides.targets.len(),
                targets == texts(overrides.targets@),
                target_dir@ == chosen_target(targets.take(i as int), is_dir@, fallback),
            decreases overrides.targets.len() - i,
        {
            proof {
                assert(targets.take(i + 1).drop_last() =~= targets.take(i as int));
                assert(targets.take(i + 1).last() == overrides.targets@[i as int]@);
            }
            if i < is_dir.len() && is_dir[i] {
                target_dir = overrides.targets[i].clone();
            }
            i += 1;
        }
        assert(targets.take(i as int) =~= targets);
        let editor = match overrides.editor {
            Some(editor) => editor,
            None => defaults.editor,
        };
        let ignore_hidden = match overrides.ignore_hidden {
            Some(flag) => flag,
            None => defaults.ignore_hidden,
        };
        Config { target_dir, editor, ignore_hidden }
    }
}

} // verus!
