//! The table that says which words of a command line are flags.
//!
//! A table is examined once, when it is built: no name may be bound by two
//! bindings. The table of the tool itself is [`FlagTable::standard`].

use vstd::prelude::*;

verus! {

/// What a flag asks for.
#[derive(Clone, Copy, Debug, PartialEq, Eq, Structural)]
pub enum Flag {
    Help,
    Target,
    Editor,
    IgnoreHidden,
}

/// The spellings of a flag: a long one, and a short one where it has one.
#[derive(Debug)]
pub struct Binding {
    pub short: Option<String>,
    pub long: String,
    pub flag: Flag,
}

/// The mathematical value of a [`Binding`].
pub struct BindingModel {
    pub short: Option<Seq<char>>,
    pub long: Seq<char>,
    pub flag: Flag,
}

impl View for Binding {
    type V = BindingModel;

    open spec fn view(&self) -> BindingModel {
        BindingModel {
            short: match self.short {
                Some(short) => Some(short@),
                None => None,
            },
            long: self.long@,
            flag: self.flag,
        }
    }
}

/// The values of a list of bindings, in order.
pub open spec fn binding_models(bindings: Seq<Binding>) -> Seq<BindingModel> {
    bindings.map_values(|b: Binding| b@)
}

/// The binding spells its flag as `name`.
pub open spec fn binds(b: BindingModel, name: Seq<char>) -> bool {
    b.short == Some(name) || b.long == name
}

/// Two bindings clash when a name of one is a name of the other.
pub open spec fn clash(a: BindingModel, b: BindingModel) -> bool {
    (b.short is Some && binds(a, b.short->Some_0)) || binds(a, b.long)
}

/// The table of the tool: help as `-h` and `--help`, the target directory
/// as `-t` and `--target`, the editor as `-e` and `--editor`, and the
/// hidden-entry policy as `--ignore-hidden`, which has no short spelling
/// because `-h` is taken.
pub open spec fn standard_bindings() -> Seq<BindingModel> {
    seq![
        BindingModel { short: Some("-h"@), long: "--help"@, flag: Flag::Help },
        BindingModel { short: Some("-t"@), long: "--target"@, flag: Flag::Target },
        BindingModel { short: Some("-e"@), long: "--editor"@, flag: Flag::Editor },
        BindingModel { short: None, long: "--ignore-hidden"@, flag: Flag::IgnoreHidden },
    ]
}

/// The names of the tool's table differ from one another.
pub proof fn lemma_standard_unambiguous()
    ensures
        unambiguous(standard_bindings()),
{
    reveal_strlit("-h");
    reveal_strlit("--help");
    reveal_strlit("-t");
    reveal_strlit("--target");
    reveal_strlit("-e");
    reveal_strlit("--editor");
    reveal_strlit("--ignore-hidden");
    assert("-h"@[1] == 'h' && "-t"@[1] == 't' && "-e"@[1] == 'e');
    assert("--target"@[2] == 't' && "--editor"@[2] == 'e');
    assert("-h"@.len() == 2 && "-t"@.len() == 2 && "-e"@.len() == 2);
    assert("--help"@.len() == 6 && "--target"@.len() == 8 && "--editor"@.len() == 8);
    assert("--ignore-hidden"@.len() == 15);
}

/// No two bindings of the table clash.
pub open spec fn unambiguous(table: Seq<BindingModel>) -> bool {
    forall|i: int, j: int|
        0 <= i < j < table.len() ==> !clash(#[trigger] table[i], #[trigger] table[j])
}

/// The flag that the first binding for `name` gives, if any binds it.
pub open spec fn meaning(table: Seq<BindingModel>, name: Seq<char>) -> Option<Flag>
    decreases table.len(),
{
    if table.len() == 0 {
        None
    } else if binds(table[0], name) {
        Some(table[0].flag)
    } else {
        meaning(table.skip(1), name)
    }
}

/// A checked table of flags.
pub struct FlagTable {
    bindings: Vec<Binding>,
}

impl View for FlagTable {
    type V = Seq<BindingModel>;

    closed spec fn view(&self) -> Seq<BindingModel> {
        binding_models(self.bindings@)
    }
}

/// Tells whether the binding spells its flag as `name`.
fn binding_binds(b: &Binding, name: &String) -> (found: bool)
    ensures
        found == binds(b@, name@),
{
    let short = match &b.short {
        Some(short) => *short == *name,
        None => false,
    };
    short || b.long == *name
}

/// Tells whether a name of `b` is a name of `a`.
fn bindings_clash(a: &Binding, b: &Binding) -> (found: bool)
    ensures
        found == clash(a@, b@),
{
    let short = match &b.short {
        Some(short) => binding_binds(a, short),
        None => false,
    };
    short || binding_binds(a, &b.long)
}

impl FlagTable {
    /// The validity of a table: no two of its bindings clash.
    pub open spec fn wf(&self) -> bool {
        unambiguous(self@)
    }

    /// Builds a table from `bindings`, which is refused where two of them
    /// clash.
    pub fn new(bindings: Vec<Binding>) -> (table: Option<FlagTable>)
        ensures
            table is Some == unambiguous(binding_models(bindings@)),
            table is Some ==> table->Some_0.wf() && table->Some_0@ == binding_models(bindings@),
    {
        let ghost models = binding_models(bindings@);
        let mut j: usize = 0;
        while j < bindings.len()
            invariant
                j <= bindings.len(),
                models == binding_models(bindings@),
                forall|a: int, b: int|
                    0 <= a < b < j ==> !clash(#[trigger] models[a], #[trigger] models[b]),
            decreases bindings.len() - j,
        {
            let mut i: usize = 0;
            while i < j
                invariant
                    i <= j < bindings.len(),
                    models == binding_models(bindings@),
                    forall|a: int| 0 <= a < i ==> !clash(#[trigger] models[a], models[j as int]),
                decreases j - i,
            {
                if bindings_clash(&bindings[i], &bindings[j]) {
                    assert(clash(models[i as int], models[j as int]));
                    return None;
                }
                i += 1;
            }
            j += 1;
        }
        Some(FlagTable { bindings })
    }

    /// The table of the tool.
    pub fn standard() -> (table: FlagTable)
        ensures
            table.wf(),
            table@ == standard_bindings(),
    {
        let mut bindings: Vec<Binding> = Vec::new();
        bindings.push(
            Binding { short: Some("-h".to_owned()), long: "--help".to_owned(), flag: Flag::Help },
        );
        bindings.push(
            Binding {
                short: Some("-t".to_owned()),
                long: "--target".to_owned(),
                flag: Flag::Target,
            },
        );
        bindings.push(
            Binding {
                short: Some("-e".to_owned()),
                long: "--editor".to_owned(),
                flag: Flag::Editor,
            },
        );
        bindings.push(
            Binding { short: None, long: "--ignore-hidden".to_owned(), flag: Flag::IgnoreHidden },
        );
        let table = FlagTable { bindings };
        proof {
            lemma_standard_unambiguous();
            assert(table@ =~= standard_bindings());
        }
        table
    }

    /// The flag that `name` spells, if the table binds it.
    pub fn lookup(&self, name: &String) -> (flag: Option<Flag>)
        ensures
            flag == meaning(self@, name@),
    {
        let mut i: usize = 0;
        assert(self@.skip(0) =~= self@);
        while i < self.bindings.len()
            invariant
                i <= self.bindings.len(),
                meaning(self@, name@) == meaning(self@.skip(i as int), name@),
            decreases self.bindings.len() - i,
        {
            if binding_binds(&self.bindings[i], name) {
                return Some(self.bindings[i].flag);
            }
            assert(self@.skip(i as int).skip(1) =~= self@.skip(i + 1));
            i += 1;
        }
        None
    }
}

/// In a table without clashes, a name means the flag of whichever binding
/// spells it: the order of the bindings does not matter.
pub proof fn law_binding_decides(table: Seq<BindingModel>, i: int, name: Seq<char>)
    requires
        unambiguous(table),
        0 <= i < table.len(),
        binds(table[i], name),
    ensures
        meaning(table, name) == Some(table[i].flag),
    decreases i,
{
    if i > 0 {
        assert(!clash(table[0], table[i]));
        let rest = table.skip(1);
        assert forall|a: int, b: int| 0 <= a < b < rest.len() implies !clash(
            #[trigger] rest[a],
            #[trigger] rest[b],
        ) by {
            assert(rest[a] == table[a + 1] && rest[b] == table[b + 1]);
        }
        assert(rest[i - 1] == table[i]);
        law_binding_decides(rest, i - 1, name);
    }
}

/// In the table of the tool every spelling means its flag.
pub proof fn law_standard_meanings()
    ensures
        meaning(standard_bindings(), "-h"@) == Some(Flag::Help),
        meaning(standard_bindings(), "--help"@) == Some(Flag::Help),
        meaning(standard_bindings(), "-t"@) == Some(Flag::Target),
        meaning(standard_bindings(), "--target"@) == Some(Flag::Target),
        meaning(standard_bindings(), "-e"@) == Some(Flag::Editor),
        meaning(standard_bindings(), "--editor"@) == Some(Flag::Editor),
        meaning(standard_bindings(), "--ignore-hidden"@) == Some(Flag::IgnoreHidden),
{
    let table = standard_bindings();
    lemma_standard_unambiguous();
    law_binding_decides(table, 0, "-h"@);
    law_binding_decides(table, 0, "--help"@);
    law_binding_decides(table, 1, "-t"@);
    law_binding_decides(table, 1, "--target"@);
    law_binding_decides(table, 2, "-e"@);
    law_binding_decides(table, 2, "--editor"@);
    law_binding_decides(table, 3, "--ignore-hidden"@);
}

/// A name that no binding spells means nothing.
pub proof fn law_unbound_means_nothing(table: Seq<BindingModel>, name: Seq<char>)
    requires
        forall|i: int| 0 <= i < table.len() ==> !binds(#[trigger] table[i], name),
    ensures
        meaning(table, name) is None,
    decreases table.len(),
{
    if table.len() > 0 {
        let rest = table.skip(1);
        assert forall|i: int| 0 <= i < rest.len() implies !binds(#[trigger] rest[i], name) by {
            assert(rest[i] == table[i + 1]);
        }
        law_unbound_means_nothing(rest, name);
    }
}

} // verus!
