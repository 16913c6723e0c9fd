//! Runnable test commands for a change, out of everything that suggests one.
use vstd::prelude::*;
use crate::history::commands;
use crate::history::commands::{merge_commands, TestCommand};
use crate::history::conventions;
use crate::history::conventions::{convention_commands, RootFiles};
use crate::history::crates::{DirPackageView, ManifestMemo};
use crate::history::inline_tests;
use crate::history::inline_tests::{
    feature_commands, inline_commands, ChangedFile, FeatureHit, FoundView, InlineTestModule,
};
use crate::order;
use crate::text;
use crate::text::append_strings;

verus! {

/// The commands for a change, the test modules inside its files, and what had
/// to be left out.
#[derive(Debug)]
pub struct Derived {
    pub commands: Vec<TestCommand>,
    pub modules: Vec<InlineTestModule>,
    pub notes: Vec<String>,
}

pub open spec fn found_inline(
    packages: Option<Seq<DirPackageView>>,
    tests: Seq<Seq<char>>,
    changed: Seq<ChangedFile>,
) -> FoundView {
    inline_tests::found_in(
        FoundView { commands: Seq::empty(), modules: Seq::empty(), notes: Seq::empty(), python: Seq::empty() },
        packages,
        tests,
        changed,
    )
}

/// Derives the commands for a change. `tests` are the test files to run,
/// `withheld` those of which only the directories are named.
pub fn derive_commands(
    memo: Option<&ManifestMemo>,
    root: RootFiles,
    tests: &Vec<String>,
    withheld: &Vec<String>,
    changed: &Vec<ChangedFile>,
    hits: &Vec<FeatureHit>,
) -> (out: Derived)
    ensures
        ({
            let packages = match memo {
                Some(m) => Some(text::views(m.packages@)),
                None => None,
            };
            let ts = text::views(tests@);
            let found = found_inline(packages, ts, changed@);
            &&& text::views(out.commands@) == commands::all_commands(
                found.commands + inline_tests::python_command(found.python),
                order::ascending_set(inline_tests::runnable(hits@)).map_values(
                    |c: Seq<char>| inline_tests::feature_command(hits@, c),
                ),
                conventions::conventional(packages, ts, text::views(withheld@), root),
            )
            &&& text::views(out.modules@) == found.modules
            &&& text::views(out.notes@) == found.notes + inline_tests::feature_notes(hits@)
                + conventions::conventional_notes(packages, ts)
        }),
{
    let inline = inline_commands(memo, tests, changed);
    let (feature, feature_notes) = feature_commands(hits);
    let mut notes = inline.notes;
    append_strings(&mut notes, &feature_notes);
    let convention = convention_commands(memo, root, tests, withheld, &mut notes);
    Derived {
        commands: merge_commands(&inline.commands, &feature, &convention),
        modules: inline.modules,
        notes,
    }
}

} // verus!
