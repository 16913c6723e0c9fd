//! Test commands that the names of test files and the files at the project root
//! suggest.
use vstd::prelude::*;
use vstd::string::*;
use crate::history::commands;
use crate::history::commands::{command, CommandView, TestCommand, SOURCE_CONVENTION};
use crate::history::crates;
use crate::history::crates::{rust_integration_target, CrateView, DirPackageView, ManifestMemo, RustCrate};
use crate::history::shell;
use crate::history::shell::{dropped_token_note, flag_safe, path_arg, path_args, shell_quote};
use crate::imports;
use crate::imports::directory_of;
use crate::order;
use crate::order::{ascending_list, sort};
use crate::paths;
use crate::paths::{extension_of, stem_of};
use crate::text;
use crate::text::{concat2, concat3, join, same};

verus! {

/// Above this many integration test targets of one package its whole suite is
/// run.
pub const CARGO_PER_TARGET_CAP: usize = 3;

/// What lies at the project root.
#[derive(Debug, Clone, Copy)]
pub struct RootFiles {
    pub artisan: bool,
    /// A configuration or workspace file of Vitest.
    pub vitest: bool,
    pub pom: bool,
    pub gradle: bool,
}

// ---------------------------------------------------------------------------
// Families
// ---------------------------------------------------------------------------

/// The test runner family of a file.
#[derive(Debug, Clone, Copy, PartialEq, Eq, Structural)]
pub enum Family {
    Rust,
    Python,
    Php,
    Phpt,
    Go,
    Js,
    Java,
    Unknown,
}

pub open spec fn family_of_extension(e: Seq<char>) -> Family {
    if e == "rs"@ {
        Family::Rust
    } else if e == "py"@ {
        Family::Python
    } else if e == "php"@ {
        Family::Php
    } else if e == "phpt"@ {
        Family::Phpt
    } else if e == "go"@ {
        Family::Go
    } else if e == "js"@ || e == "jsx"@ || e == "ts"@ || e == "tsx"@ || e == "mjs"@ || e == "cjs"@ || e == "mts"@ || e
        == "cts"@ {
        Family::Js
    } else if e == "java"@ {
        Family::Java
    } else {
        Family::Unknown
    }
}

pub open spec fn family(path: Seq<char>) -> Family {
    match paths::extension(path) {
        Some(e) => family_of_extension(e),
        None => Family::Unknown,
    }
}

pub fn family_of(path: &str) -> (out: Family)
    ensures
        out == family(path@),
{
    match extension_of(path) {
        None => Family::Unknown,
        Some(e) => if same(e, "rs") {
            Family::Rust
        } else if same(e, "py") {
            Family::Python
        } else if same(e, "php") {
            Family::Php
        } else if same(e, "phpt") {
            Family::Phpt
        } else if same(e, "go") {
            Family::Go
        } else if same(e, "js") || same(e, "jsx") || same(e, "ts") || same(e, "tsx") || same(e, "mjs") || same(
            e,
            "cjs",
        ) || same(e, "mts") || same(e, "cts") {
            Family::Js
        } else if same(e, "java") {
            Family::Java
        } else {
            Family::Unknown
        },
    }
}

pub open spec fn of_family(files: Seq<Seq<char>>, f: Family) -> Seq<Seq<char>> {
    files.filter(|p: Seq<char>| family(p) == f)
}

fn select(files: &Vec<String>, f: Family) -> (out: Vec<String>)
    ensures
        text::views(out@) == of_family(text::views(files@), f),
{
    broadcast use text::group_views;
    let ghost all = text::views(files@);
    let ghost keep = |p: Seq<char>| family(p) == f;
    let mut out: Vec<String> = Vec::new();
    let mut i: usize = 0;
    assert(all.take(0).filter(keep) =~= Seq::<Seq<char>>::empty()) by {
        reveal(Seq::filter);
    }
    while i < files.len()
        invariant
            i <= files@.len(),
            all == text::views(files@),
            keep == (|p: Seq<char>| family(p) == f),
            text::views(out@) == all.take(i as int).filter(keep),
        decreases files@.len() - i,
    {
        broadcast use text::group_views;
        proof {
            reveal(Seq::filter);
            assert(all.take(i + 1).drop_last() =~= all.take(i as int));
            assert(all.take(i + 1).last() == files@[i as int]@);
        }
        if family_of(files[i].as_str()) == f {
            out.push(files[i].clone());
        }
        i += 1;
    }
    assert(all.take(all.len() as int) =~= all);
    out
}

/// A command that convention suggests.
pub open spec fn suggested(line: Seq<char>, covers: Seq<Seq<char>>, framework: Seq<char>) -> CommandView {
    CommandView { command: line, covers, framework, source: SOURCE_CONVENTION@ }
}

/// One command for all files of a runner, if there are any.
pub open spec fn one_for_all(runner: Seq<char>, files: Seq<Seq<char>>, framework: Seq<char>) -> Seq<CommandView> {
    if files.len() == 0 {
        Seq::empty()
    } else {
        let sorted = order::sorted::<String>(files);
        seq![suggested(runner + " "@ + shell::arguments(sorted), sorted, framework)]
    }
}

fn run_all(out: &mut Vec<TestCommand>, runner: &str, files: Vec<String>, framework: &str)
    ensures
        text::views(final(out)@) == text::views(old(out)@) + one_for_all(runner@, text::views(files@), framework@),
{
    broadcast use text::group_views;
    let ghost start = text::views(out@);
    if files.len() > 0 {
        let sorted = sort(files);
        let line = concat3(runner, " ", path_args(&sorted).as_str());
        out.push(command(line, sorted, framework, SOURCE_CONVENTION));
        assert(text::views(out@) =~= start + one_for_all(runner@, text::views(files@), framework@));
    } else {
        assert(start + Seq::<CommandView>::empty() =~= start);
    }
}

// ---------------------------------------------------------------------------
// Rust
// ---------------------------------------------------------------------------

/// A Rust test file: its package, and its target where it has one.
#[derive(Debug)]
pub struct RustEntry {
    pub krate: RustCrate,
    pub target: Option<String>,
    pub path: String,
}

pub struct RustEntryView {
    pub krate: CrateView,
    pub target: Option<Seq<char>>,
    pub path: Seq<char>,
}

impl View for RustEntry {
    type V = RustEntryView;

    open spec fn view(&self) -> RustEntryView {
        RustEntryView { krate: self.krate@, target: text::view_opt(self.target), path: self.path@ }
    }
}

pub open spec fn entry_of(packages: Option<Seq<DirPackageView>>, path: Seq<char>) -> RustEntryView {
    let k = crates::crate_of(packages, path);
    RustEntryView { krate: k, target: crates::integration_target(k, path), path }
}

/// The target can stand behind its flag.
pub open spec fn usable(e: RustEntryView) -> bool {
    e.target matches Some(t) ==> shell::safe_name(t)
}

/// The Rust test files that can be run, in order.
pub open spec fn entries(packages: Option<Seq<DirPackageView>>, files: Seq<Seq<char>>) -> Seq<RustEntryView>
    decreases files.len(),
{
    if files.len() == 0 {
        Seq::empty()
    } else {
        let front = entries(packages, files.drop_last());
        let e = entry_of(packages, files.last());
        if usable(e) {
            front.push(e)
        } else {
            front
        }
    }
}

/// What is said of those that cannot.
pub open spec fn unusable_notes(packages: Option<Seq<DirPackageView>>, files: Seq<Seq<char>>) -> Seq<Seq<char>>
    decreases files.len(),
{
    if files.len() == 0 {
        Seq::empty()
    } else {
        let front = unusable_notes(packages, files.drop_last());
        let e = entry_of(packages, files.last());
        match e.target {
            Some(t) => if shell::safe_name(t) {
                front
            } else {
                front.push(shell::dropped("cargo test target"@, t))
            },
            None => front,
        }
    }
}

pub open spec fn dirs_of(es: Seq<RustEntryView>) -> Seq<Seq<char>> {
    es.map_values(|e: RustEntryView| e.krate.dir)
}

pub open spec fn in_dir(es: Seq<RustEntryView>, dir: Seq<char>) -> Seq<RustEntryView> {
    es.filter(|e: RustEntryView| e.krate.dir == dir)
}

pub open spec fn with_target(es: Seq<RustEntryView>) -> nat {
    es.filter(|e: RustEntryView| e.target is Some).len()
}

pub open spec fn entry_command(whole: Seq<char>, e: RustEntryView) -> CommandView {
    suggested(
        match e.target {
            Some(t) => whole + " --test "@ + shell::quoted(t),
            None => whole,
        },
        seq![e.path],
        "cargo"@,
    )
}

/// The commands of one package: one per target, or its whole suite where those
/// are many.
pub open spec fn package_commands(es: Seq<RustEntryView>) -> Seq<CommandView> {
    if es.len() == 0 {
        Seq::empty()
    } else {
        let whole = "cargo test"@ + crates::package_flag_text(es[0].krate);
        if with_target(es) > CARGO_PER_TARGET_CAP {
            seq![suggested(whole, es.map_values(|e: RustEntryView| e.path), "cargo"@)]
        } else {
            es.map_values(|e: RustEntryView| entry_command(whole, e))
        }
    }
}

pub open spec fn cargo_commands(es: Seq<RustEntryView>, dirs: Seq<Seq<char>>) -> Seq<CommandView>
    decreases dirs.len(),
{
    if dirs.len() == 0 {
        Seq::empty()
    } else {
        cargo_commands(es, dirs.drop_last()) + package_commands(in_dir(es, dirs.last()))
    }
}

fn collect_entries(memo: Option<&ManifestMemo>, files: &Vec<String>, notes: &mut Vec<String>) -> (out: Vec<RustEntry>)
    ensures
        ({
            let packages = match memo {
                Some(m) => Some(text::views(m.packages@)),
                None => None,
            };
            &&& text::views(out@) == entries(packages, text::views(files@))
            &&& text::views(final(notes)@) == text::views(old(notes)@) + unusable_notes(
                packages,
                text::views(files@),
            )
        }),
{
    broadcast use text::group_views;
    let ghost packages = match memo {
        Some(m) => Some(text::views(m.packages@)),
        None => None,
    };
    let ghost all = text::views(files@);
    let ghost start = text::views(notes@);
    let mut out: Vec<RustEntry> = Vec::new();
    let mut i: usize = 0;
    assert(start + unusable_notes(packages, all.take(0)) =~= start);
    while i < files.len()
        invariant
            i <= files@.len(),
            all == text::views(files@),
            packages == (match memo {
                Some(m) => Some(text::views(m.packages@)),
                None => None,
            }),
            text::views(out@) == entries(packages, all.take(i as int)),
            text::views(notes@) == start + unusable_notes(packages, all.take(i as int)),
        decreases files@.len() - i,
    {
        broadcast use text::group_views;
        proof {
            assert(all.take(i + 1).drop_last() =~= all.take(i as int));
            assert(all.take(i + 1).last() == files@[i as int]@);
        }
        let krate = RustCrate::for_path(memo, files[i].as_str());
        let target = rust_integration_target(&krate, files[i].as_str());
        let safe = match &target {
            Some(t) => flag_safe(t.as_str()),
            None => true,
        };
        if safe {
            out.push(RustEntry { krate, target, path: files[i].clone() });
        } else if let Some(t) = &target {
            let ghost before = text::views(notes@);
            notes.push(dropped_token_note("cargo test target", t.as_str()));
            assert(text::views(notes@) =~= start + unusable_notes(packages, all.take(i + 1)));
        }
        i += 1;
    }
    assert(all.take(all.len() as int) =~= all);
    out
}

fn entry_dirs(es: &Vec<RustEntry>) -> (out: Vec<String>)
    ensures
        text::views(out@) == order::ascending_set(dirs_of(text::views(es@))),
{
    broadcast use text::group_views;
    let ghost all = dirs_of(text::views(es@));
    let mut dirs: Vec<String> = Vec::new();
    let mut i: usize = 0;
    while i < es.len()
        invariant
            i <= es@.len(),
            all == dirs_of(text::views(es@)),
            text::views(dirs@) == all.take(i as int),
        decreases es@.len() - i,
    {
        broadcast use text::group_views;
        assert(all.take(i + 1) =~= all.take(i as int).push(es@[i as int].krate.dir@));
        dirs.push(es[i].krate.dir.clone());
        i += 1;
    }
    assert(all.take(all.len() as int) =~= all);
    ascending_list(&dirs)
}

/// The places of the entries of one package.
fn places_in_dir(es: &Vec<RustEntry>, dir: &str) -> (out: Vec<usize>)
    ensures
        forall|k: int| 0 <= k < out@.len() ==> #[trigger] out@[k] < es@.len(),
        out@.len() == in_dir(text::views(es@), dir@).len(),
        forall|k: int|
            0 <= k < out@.len() ==> #[trigger] in_dir(text::views(es@), dir@)[k] == es@[out@[k] as int]@,
{
    broadcast use text::group_views;
    let ghost all = text::views(es@);
    let ghost keep = |e: RustEntryView| e.krate.dir == dir@;
    let mut out: Vec<usize> = Vec::new();
    let mut i: usize = 0;
    assert(all.take(0).filter(keep) =~= Seq::<RustEntryView>::empty()) by {
        reveal(Seq::filter);
    }
    while i < es.len()
        invariant
            i <= es@.len(),
            all == text::views(es@),
            keep == (|e: RustEntryView| e.krate.dir == dir@),
            forall|k: int| 0 <= k < out@.len() ==> #[trigger] out@[k] < es@.len(),
            out@.len() == all.take(i as int).filter(keep).len(),
            forall|k: int|
                0 <= k < out@.len() ==> #[trigger] all.take(i as int).filter(keep)[k] == es@[out@[k] as int]@,
        decreases es@.len() - i,
    {
        broadcast use text::group_views;
        let ghost before = out@;
        proof {
            reveal(Seq::filter);
            assert(all.take(i + 1).drop_last() =~= all.take(i as int));
            assert(all.take(i + 1).last() == es@[i as int]@);
        }
        if same(es[i].krate.dir.as_str(), dir) {
            out.push(i);
            assert(forall|k: int| 0 <= k < before.len() ==> out@[k] == before[k]);
        }
        i += 1;
    }
    assert(all.take(all.len() as int) =~= all);
    out
}

fn run_package(out: &mut Vec<TestCommand>, es: &Vec<RustEntry>, dir: &str)
    ensures
        text::views(final(out)@) == text::views(old(out)@) + package_commands(in_dir(text::views(es@), dir@)),
{
    broadcast use text::group_views;
    let ghost start = text::views(out@);
    let places = places_in_dir(es, dir);
    let ghost mine = in_dir(text::views(es@), dir@);
    if places.len() == 0 {
        assert(start + Seq::<CommandView>::empty() =~= start);
        return ;
    }
    assert(mine[0] == es@[places@[0] as int]@);
    let whole = concat2("cargo test", es[places[0]].krate.package_flag().as_str());
    let ghost has_target = |e: RustEntryView| e.target is Some;
    let ghost path_of = |e: RustEntryView| e.path;
    let mut named: usize = 0;
    let mut covers: Vec<String> = Vec::new();
    let mut k: usize = 0;
    assert(mine.take(0).filter(has_target) =~= Seq::<RustEntryView>::empty()) by {
        reveal(Seq::filter);
    }
    while k < places.len()
        invariant
            k <= places@.len(),
            mine == in_dir(text::views(es@), dir@),
            has_target == (|e: RustEntryView| e.target is Some),
            path_of == (|e: RustEntryView| e.path),
            places@.len() == mine.len(),
            forall|j: int| 0 <= j < places@.len() ==> #[trigger] places@[j] < es@.len(),
            forall|j: int| 0 <= j < places@.len() ==> #[trigger] mine[j] == es@[places@[j] as int]@,
            named == mine.take(k as int).filter(has_target).len(),
            named <= k,
            text::views(covers@) == mine.map_values(path_of).take(k as int),
        decreases places@.len() - k,
    {
        broadcast use text::group_views;
        proof {
            reveal(Seq::filter);
            assert(mine.take(k + 1).drop_last() =~= mine.take(k as int));
            assert(mine.take(k + 1).last() == mine[k as int]);
            assert(mine.map_values(path_of).take(k + 1) =~= mine.map_values(path_of).take(k as int).push(
                mine[k as int].path,
            ));
        }
        let e = &es[places[k]];
        if e.target.is_some() {
            named += 1;
        }
        covers.push(e.path.clone());
        k += 1;
    }
    assert(mine.take(mine.len() as int) =~= mine);
    assert(mine.map_values(path_of).take(mine.len() as int) =~= mine.map_values(path_of));
    if named > CARGO_PER_TARGET_CAP {
        out.push(command(whole, covers, "cargo", SOURCE_CONVENTION));
        assert(text::views(out@) =~= start + package_commands(mine));
        return ;
    }
    let ghost want = mine.map_values(|e: RustEntryView| entry_command(whole@, e));
    let mut k: usize = 0;
    assert(start + want.take(0) =~= start);
    while k < places.len()
        invariant
            k <= places@.len(),
            places@.len() == mine.len(),
            want == mine.map_values(|e: RustEntryView| entry_command(whole@, e)),
            forall|j: int| 0 <= j < places@.len() ==> #[trigger] places@[j] < es@.len(),
            forall|j: int| 0 <= j < places@.len() ==> #[trigger] mine[j] == es@[places@[j] as int]@,
            text::views(out@) == start + want.take(k as int),
        decreases places@.len() - k,
    {
        broadcast use text::group_views;
        assert(want.take(k + 1) =~= want.take(k as int).push(entry_command(whole@, mine[k as int])));
        let e = &es[places[k]];
        let line = match &e.target {
            Some(t) => concat3(whole.as_str(), " --test ", shell_quote(t.as_str()).as_str()),
            None => whole.clone(),
        };
        let mut one: Vec<String> = Vec::new();
        one.push(e.path.clone());
        assert(text::views(one@) =~= seq![e.path@]);
        out.push(command(line, one, "cargo", SOURCE_CONVENTION));
        assert(text::views(out@) =~= start + want.take(k + 1));
        k += 1;
    }
    assert(want.take(want.len() as int) =~= want);
    assert(want == package_commands(mine));
}

fn run_cargo(out: &mut Vec<TestCommand>, es: &Vec<RustEntry>)
    ensures
        text::views(final(out)@) == text::views(old(out)@) + cargo_commands(
            text::views(es@),
            order::ascending_set(dirs_of(text::views(es@))),
        ),
{
    broadcast use text::group_views;
    let ghost start = text::views(out@);
    let ghost all = text::views(es@);
    let dirs = entry_dirs(es);
    let ghost ds = text::views(dirs@);
    let mut i: usize = 0;
    assert(start + cargo_commands(all, ds.take(0)) =~= start);
    while i < dirs.len()
        invariant
            i <= dirs@.len(),
            all == text::views(es@),
            ds == text::views(dirs@),
            text::views(out@) == start + cargo_commands(all, ds.take(i as int)),
        decreases dirs@.len() - i,
    {
        broadcast use text::group_views;
        proof {
            assert(ds.take(i + 1).drop_last() =~= ds.take(i as int));
            assert(ds.take(i + 1).last() == dirs@[i as int]@);
        }
        run_package(out, es, dirs[i].as_str());
        assert(text::views(out@) =~= start + cargo_commands(all, ds.take(i + 1)));
        i += 1;
    }
    assert(ds.take(ds.len() as int) =~= ds);
}

// ---------------------------------------------------------------------------
// PHP source tests, by directory
// ---------------------------------------------------------------------------

pub open spec fn directories(files: Seq<Seq<char>>) -> Seq<Seq<char>> {
    files.map_values(|p: Seq<char>| imports::directory(p))
}

pub open spec fn inside(files: Seq<Seq<char>>, dir: Seq<char>) -> Seq<Seq<char>> {
    files.filter(|p: Seq<char>| imports::directory(p) == dir)
}

/// The command of one directory. Where its files are withheld the directory is
/// named as a whole.
pub open spec fn phpt_command(files: Seq<Seq<char>>, dir: Seq<char>) -> CommandView {
    let target = if dir.len() == 0 {
        "."@
    } else {
        dir
    };
    let mine = inside(files, dir);
    suggested(
        "php run-tests.php "@ + shell::argument(target),
        order::sorted::<String>(
            if mine.len() == 0 {
                seq![target]
            } else {
                mine
            },
        ),
        "run-tests"@,
    )
}

pub open spec fn phpt_commands(files: Seq<Seq<char>>, withheld: Seq<Seq<char>>) -> Seq<CommandView> {
    order::ascending_set(directories(files) + directories(withheld)).map_values(
        |d: Seq<char>| phpt_command(files, d),
    )
}

fn append_directories(dirs: &mut Vec<String>, files: &Vec<String>)
    ensures
        text::views(final(dirs)@) == text::views(old(dirs)@) + directories(text::views(files@)),
{
    broadcast use text::group_views;
    let ghost start = text::views(dirs@);
    let ghost all = directories(text::views(files@));
    let mut i: usize = 0;
    assert(start + all.take(0) =~= start);
    while i < files.len()
        invariant
            i <= files@.len(),
            all == directories(text::views(files@)),
            text::views(dirs@) == start + all.take(i as int),
        decreases files@.len() - i,
    {
        broadcast use text::group_views;
        assert(all.take(i + 1) =~= all.take(i as int).push(imports::directory(files@[i as int]@)));
        dirs.push(directory_of(files[i].as_str()).to_string());
        assert(text::views(dirs@) =~= start + all.take(i + 1));
        i += 1;
    }
    assert(all.take(all.len() as int) =~= all);
}

fn files_inside(files: &Vec<String>, dir: &str) -> (out: Vec<String>)
    ensures
        text::views(out@) == inside(text::views(files@), dir@),
{
    broadcast use text::group_views;
    let ghost all = text::views(files@);
    let ghost keep = |p: Seq<char>| imports::directory(p) == dir@;
    let mut out: Vec<String> = Vec::new();
    let mut i: usize = 0;
    assert(all.take(0).filter(keep) =~= Seq::<Seq<char>>::empty()) by {
        reveal(Seq::filter);
    }
    while i < files.len()
        invariant
            i <= files@.len(),
            all == text::views(files@),
            keep == (|p: Seq<char>| imports::directory(p) == dir@),
            text::views(out@) == all.take(i as int).filter(keep),
        decreases files@.len() - i,
    {
        broadcast use text::group_views;
        proof {
            reveal(Seq::filter);
            assert(all.take(i + 1).drop_last() =~= all.take(i as int));
            assert(all.take(i + 1).last() == files@[i as int]@);
        }
        if same(directory_of(files[i].as_str()), dir) {
            out.push(files[i].clone());
        }
        i += 1;
    }
    assert(all.take(all.len() as int) =~= all);
    out
}

fn run_phpt(out: &mut Vec<TestCommand>, files: &Vec<String>, withheld: &Vec<String>)
    ensures
        text::views(final(out)@) == text::views(old(out)@) + phpt_commands(
            text::views(files@),
            text::views(withheld@),
        ),
{
    broadcast use text::group_views;
    let ghost start = text::views(out@);
    let ghost fs = text::views(files@);
    let ghost want = phpt_commands(fs, text::views(withheld@));
    let mut dirs: Vec<String> = Vec::new();
    append_directories(&mut dirs, files);
    append_directories(&mut dirs, withheld);
    assert(text::views(dirs@) =~= directories(fs) + directories(text::views(withheld@)));
    let dirs = ascending_list(&dirs);
    let mut i: usize = 0;
    assert(start + want.take(0) =~= start);
    while i < dirs.len()
        invariant
            i <= dirs@.len(),
            fs == text::views(files@),
            text::views(dirs@) == order::ascending_set(directories(fs) + directories(text::views(withheld@))),
            want == phpt_commands(fs, text::views(withheld@)),
            text::views(out@) == start + want.take(i as int),
        decreases dirs@.len() - i,
    {
        broadcast use text::group_views;
        assert(want.take(i + 1) =~= want.take(i as int).push(phpt_command(fs, dirs@[i as int]@)));
        let target = if dirs[i].as_str().unicode_len() == 0 {
            "."
        } else {
            dirs[i].as_str()
        };
        let mut mine = files_inside(files, dirs[i].as_str());
        if mine.len() == 0 {
            mine.push(target.to_string());
            assert(text::views(mine@) =~= seq![target@]);
        }
        let line = concat2("php run-tests.php ", path_arg(target).as_str());
        out.push(command(line, sort(mine), "run-tests", SOURCE_CONVENTION));
        assert(text::views(out@) =~= start + want.take(i + 1));
        i += 1;
    }
    assert(want.take(want.len() as int) =~= want);
}

// ---------------------------------------------------------------------------
// Go, by package directory
// ---------------------------------------------------------------------------

pub open spec fn go_directory(path: Seq<char>) -> Seq<char> {
    let dir = imports::directory(path);
    if dir.len() == 0 {
        "."@
    } else {
        "./"@ + dir
    }
}

pub open spec fn go_commands(files: Seq<Seq<char>>) -> Seq<CommandView> {
    if files.len() == 0 {
        Seq::empty()
    } else {
        seq![
            suggested(
                "go test "@ + shell::arguments(
                    order::ascending_set(files.map_values(|p: Seq<char>| go_directory(p))),
                ),
                order::sorted::<String>(files),
                "go"@,
            ),
        ]
    }
}

fn run_go(out: &mut Vec<TestCommand>, files: Vec<String>)
    ensures
        text::views(final(out)@) == text::views(old(out)@) + go_commands(text::views(files@)),
{
    broadcast use text::group_views;
    let ghost start = text::views(out@);
    let ghost all = text::views(files@).map_values(|p: Seq<char>| go_directory(p));
    if files.len() == 0 {
        assert(start + Seq::<CommandView>::empty() =~= start);
        return ;
    }
    let mut dirs: Vec<String> = Vec::new();
    let mut i: usize = 0;
    while i < files.len()
        invariant
            i <= files@.len(),
            all == text::views(files@).map_values(|p: Seq<char>| go_directory(p)),
            text::views(dirs@) == all.take(i as int),
        decreases files@.len() - i,
    {
        broadcast use text::group_views;
        assert(all.take(i + 1) =~= all.take(i as int).push(go_directory(files@[i as int]@)));
        let dir = directory_of(files[i].as_str());
        let arg = if dir.unicode_len() == 0 {
            ".".to_string()
        } else {
            concat2("./", dir)
        };
        dirs.push(arg);
        i += 1;
    }
    assert(all.take(all.len() as int) =~= all);
    let line = concat2("go test ", path_args(&ascending_list(&dirs)).as_str());
    out.push(command(line, sort(files), "go", SOURCE_CONVENTION));
    assert(text::views(out@) =~= start + go_commands(text::views(files@)));
}

// ---------------------------------------------------------------------------
// Java, by class
// ---------------------------------------------------------------------------

pub open spec fn stems(files: Seq<Seq<char>>) -> Seq<Seq<char>> {
    files.map_values(|p: Seq<char>| paths::stem(p))
}

/// The test classes, in order and each once.
pub open spec fn classes(files: Seq<Seq<char>>) -> Seq<Seq<char>> {
    order::ascending_set(stems(files))
}

pub open spec fn safe_ones(names: Seq<Seq<char>>) -> Seq<Seq<char>> {
    names.filter(|n: Seq<char>| shell::safe_name(n))
}

/// What is said of classes whose name would be read as a flag.
pub open spec fn class_notes(names: Seq<Seq<char>>) -> Seq<Seq<char>>
    decreases names.len(),
{
    if names.len() == 0 {
        Seq::empty()
    } else {
        let front = class_notes(names.drop_last());
        if shell::safe_name(names.last()) {
            front
        } else {
            front.push(shell::dropped("Java test class"@, names.last()))
        }
    }
}

/// The files of some classes, class by class.
pub open spec fn files_of_classes(files: Seq<Seq<char>>, names: Seq<Seq<char>>) -> Seq<Seq<char>>
    decreases names.len(),
{
    if names.len() == 0 {
        Seq::empty()
    } else {
        files_of_classes(files, names.drop_last()) + files.filter(|p: Seq<char>| paths::stem(p) == names.last())
    }
}

/// One command for the test classes: Gradle's where only Gradle builds the
/// project, else Maven's, which takes its list as one word.
pub open spec fn java_commands(files: Seq<Seq<char>>, root: RootFiles) -> Seq<CommandView> {
    let names = safe_ones(classes(files));
    if names.len() == 0 {
        Seq::empty()
    } else {
        let covers = order::sorted::<String>(files_of_classes(files, names));
        seq![
            if !root.pom && root.gradle {
                suggested(
                    "gradle test "@ + text::joined(
                        names.map_values(|n: Seq<char>| "--tests "@ + shell::quoted(n)),
                        " "@,
                    ),
                    covers,
                    "gradle"@,
                )
            } else {
                suggested(
                    "mvn -Dtest="@ + shell::quoted(text::joined(names, ","@)) + " test"@,
                    covers,
                    "maven"@,
                )
            },
        ]
    }
}

fn class_names(files: &Vec<String>) -> (out: Vec<String>)
    ensures
        text::views(out@) == classes(text::views(files@)),
{
    broadcast use text::group_views;
    let ghost all = stems(text::views(files@));
    let mut names: Vec<String> = Vec::new();
    let mut i: usize = 0;
    while i < files.len()
        invariant
            i <= files@.len(),
            all == stems(text::views(files@)),
            text::views(names@) == all.take(i as int),
        decreases files@.len() - i,
    {
        broadcast use text::group_views;
        assert(all.take(i + 1) =~= all.take(i as int).push(paths::stem(files@[i as int]@)));
        names.push(stem_of(files[i].as_str()));
        i += 1;
    }
    assert(all.take(all.len() as int) =~= all);
    ascending_list(&names)
}

fn keep_safe(names: &Vec<String>, notes: &mut Vec<String>) -> (out: Vec<String>)
    ensures
        text::views(out@) == safe_ones(text::views(names@)),
        text::views(final(notes)@) == text::views(old(notes)@) + class_notes(text::views(names@)),
{
    broadcast use text::group_views;
    let ghost start = text::views(notes@);
    let ghost all = text::views(names@);
    let ghost keep = |n: Seq<char>| shell::safe_name(n);
    let mut out: Vec<String> = Vec::new();
    let mut i: usize = 0;
    assert(all.take(0).filter(keep) =~= Seq::<Seq<char>>::empty()) by {
        reveal(Seq::filter);
    }
    assert(start + class_notes(all.take(0)) =~= start);
    while i < names.len()
        invariant
            i <= names@.len(),
            all == text::views(names@),
            keep == (|n: Seq<char>| shell::safe_name(n)),
            text::views(out@) == all.take(i as int).filter(keep),
            text::views(notes@) == start + class_notes(all.take(i as int)),
        decreases names@.len() - i,
    {
        broadcast use text::group_views;
        proof {
            reveal(Seq::filter);
            assert(all.take(i + 1).drop_last() =~= all.take(i as int));
            assert(all.take(i + 1).last() == names@[i as int]@);
        }
        if flag_safe(names[i].as_str()) {
            out.push(names[i].clone());
        } else {
            notes.push(dropped_token_note("Java test class", names[i].as_str()));
            assert(text::views(notes@) =~= start + class_notes(all.take(i + 1)));
        }
        i += 1;
    }
    assert(all.take(all.len() as int) =~= all);
    out
}

fn append_class_files(found: &mut Vec<String>, files: &Vec<String>, name: &str)
    ensures
        text::views(final(found)@) == text::views(old(found)@) + text::views(files@).filter(
            |p: Seq<char>| paths::stem(p) == name@,
        ),
{
    broadcast use text::group_views;
    let ghost start = text::views(found@);
    let ghost all = text::views(files@);
    let ghost keep = |p: Seq<char>| paths::stem(p) == name@;
    let mut i: usize = 0;
    assert(all.take(0).filter(keep) =~= Seq::<Seq<char>>::empty()) by {
        reveal(Seq::filter);
    }
    assert(start + all.take(0).filter(keep) =~= start);
    while i < files.len()
        invariant
            i <= files@.len(),
            all == text::views(files@),
            keep == (|p: Seq<char>| paths::stem(p) == name@),
            text::views(found@) == start + all.take(i as int).filter(keep),
        decreases files@.len() - i,
    {
        broadcast use text::group_views;
        proof {
            reveal(Seq::filter);
            assert(all.take(i + 1).drop_last() =~= all.take(i as int));
            assert(all.take(i + 1).last() == files@[i as int]@);
        }
        if same(stem_of(files[i].as_str()).as_str(), name) {
            found.push(files[i].clone());
            assert(text::views(found@) =~= start + all.take(i + 1).filter(keep));
        }
        i += 1;
    }
    assert(all.take(all.len() as int) =~= all);
}

fn class_files(files: &Vec<String>, names: &Vec<String>) -> (out: Vec<String>)
    ensures
        text::views(out@) == files_of_classes(text::views(files@), text::views(names@)),
{
    broadcast use text::group_views;
    let ghost all = text::views(files@);
    let ghost ns = text::views(names@);
    let mut out: Vec<String> = Vec::new();
    let mut i: usize = 0;
    while i < names.len()
        invariant
            i <= names@.len(),
            all == text::views(files@),
            ns == text::views(names@),
            text::views(out@) == files_of_classes(all, ns.take(i as int)),
        decreases names@.len() - i,
    {
        broadcast use text::group_views;
        proof {
            assert(ns.take(i + 1).drop_last() =~= ns.take(i as int));
            assert(ns.take(i + 1).last() == names@[i as int]@);
        }
        append_class_files(&mut out, files, names[i].as_str());
        i += 1;
    }
    assert(ns.take(ns.len() as int) =~= ns);
    out
}

fn gradle_tests(names: &Vec<String>) -> (out: String)
    ensures
        out@ == text::joined(
            text::views(names@).map_values(|n: Seq<char>| "--tests "@ + shell::quoted(n)),
            " "@,
        ),
{
    broadcast use text::group_views;
    let ghost all = text::views(names@).map_values(|n: Seq<char>| "--tests "@ + shell::quoted(n));
    let mut tests: Vec<String> = Vec::new();
    let mut i: usize = 0;
    while i < names.len()
        invariant
            i <= names@.len(),
            all == text::views(names@).map_values(|n: Seq<char>| "--tests "@ + shell::quoted(n)),
            text::views(tests@) == all.take(i as int),
        decreases names@.len() - i,
    {
        broadcast use text::group_views;
        assert(all.take(i + 1) =~= all.take(i as int).push("--tests "@ + shell::quoted(names@[i as int]@)));
        tests.push(concat2("--tests ", shell_quote(names[i].as_str()).as_str()));
        i += 1;
    }
    assert(all.take(all.len() as int) =~= all);
    join(&tests, " ")
}

fn run_java(out: &mut Vec<TestCommand>, files: &Vec<String>, root: RootFiles, notes: &mut Vec<String>)
    ensures
        text::views(final(out)@) == text::views(old(out)@) + java_commands(text::views(files@), root),
        text::views(final(notes)@) == text::views(old(notes)@) + class_notes(classes(text::views(files@))),
{
    broadcast use text::group_views;
    let ghost start = text::views(out@);
    let names = keep_safe(&class_names(files), notes);
    if names.len() == 0 {
        assert(start + Seq::<CommandView>::empty() =~= start);
        return ;
    }
    let covers = sort(class_files(files, &names));
    if !root.pom && root.gradle {
        let line = concat2("gradle test ", gradle_tests(&names).as_str());
        out.push(command(line, covers, "gradle", SOURCE_CONVENTION));
    } else {
        let list = shell_quote(join(&names, ",").as_str());
        let line = concat3("mvn -Dtest=", list.as_str(), " test");
        out.push(command(line, covers, "maven", SOURCE_CONVENTION));
    }
    assert(text::views(out@) =~= start + java_commands(text::views(files@), root));
}

// ---------------------------------------------------------------------------
// All families
// ---------------------------------------------------------------------------

pub open spec fn rust_part(packages: Option<Seq<DirPackageView>>, files: Seq<Seq<char>>) -> Seq<CommandView> {
    let es = entries(packages, of_family(files, Family::Rust));
    cargo_commands(es, order::ascending_set(dirs_of(es)))
}

pub open spec fn php_part(files: Seq<Seq<char>>, withheld: Seq<Seq<char>>, root: RootFiles) -> Seq<CommandView> {
    one_for_all(
        if root.artisan {
            "php artisan test"@
        } else {
            "vendor/bin/phpunit"@
        },
        of_family(files, Family::Php),
        if root.artisan {
            "artisan"@
        } else {
            "phpunit"@
        },
    ) + phpt_commands(of_family(files, Family::Phpt), withheld)
}

pub open spec fn js_part(files: Seq<Seq<char>>, root: RootFiles) -> Seq<CommandView> {
    one_for_all(
        if root.vitest {
            "npx vitest run"@
        } else {
            "npx jest"@
        },
        of_family(files, Family::Js),
        if root.vitest {
            "vitest"@
        } else {
            "jest"@
        },
    )
}

/// The commands that convention suggests for some test files, family by family.
pub open spec fn conventional(
    packages: Option<Seq<DirPackageView>>,
    files: Seq<Seq<char>>,
    withheld: Seq<Seq<char>>,
    root: RootFiles,
) -> Seq<CommandView> {
    rust_part(packages, files) + one_for_all("pytest"@, of_family(files, Family::Python), "pytest"@) + php_part(
        files,
        withheld,
        root,
    ) + go_commands(of_family(files, Family::Go)) + js_part(files, root) + java_commands(
        of_family(files, Family::Java),
        root,
    )
}

/// What convention has to say of names that it leaves out.
pub open spec fn conventional_notes(packages: Option<Seq<DirPackageView>>, files: Seq<Seq<char>>) -> Seq<Seq<char>> {
    unusable_notes(packages, of_family(files, Family::Rust)) + class_notes(classes(of_family(files, Family::Java)))
}

fn run_php(out: &mut Vec<TestCommand>, files: &Vec<String>, withheld: &Vec<String>, root: RootFiles)
    ensures
        text::views(final(out)@) == text::views(old(out)@) + php_part(
            text::views(files@),
            text::views(withheld@),
            root,
        ),
{
    let ghost start = text::views(out@);
    let php = select(files, Family::Php);
    if root.artisan {
        run_all(out, "php artisan test", php, "artisan");
    } else {
        run_all(out, "vendor/bin/phpunit", php, "phpunit");
    }
    run_phpt(out, &select(files, Family::Phpt), withheld);
    assert(text::views(out@) =~= start + php_part(text::views(files@), text::views(withheld@), root));
}

fn run_js(out: &mut Vec<TestCommand>, files: &Vec<String>, root: RootFiles)
    ensures
        text::views(final(out)@) == text::views(old(out)@) + js_part(text::views(files@), root),
{
    let js = select(files, Family::Js);
    if root.vitest {
        run_all(out, "npx vitest run", js, "vitest");
    } else {
        run_all(out, "npx jest", js, "jest");
    }
}

/// Suggests commands for some test files. `withheld` are test files whose
/// directories alone are named; `memo` is what is known of Cargo manifests.
pub fn convention_commands(
    memo: Option<&ManifestMemo>,
    root: RootFiles,
    test_files: &Vec<String>,
    withheld_phpt: &Vec<String>,
    notes: &mut Vec<String>,
) -> (out: Vec<TestCommand>)
    ensures
        ({
            let packages = match memo {
                Some(m) => Some(text::views(m.packages@)),
                None => None,
            };
            &&& text::views(out@) == conventional(packages, text::views(test_files@), text::views(withheld_phpt@), root)
            &&& text::views(final(notes)@) == text::views(old(notes)@) + conventional_notes(
                packages,
                text::views(test_files@),
            )
        }),
{
    broadcast use text::group_views;
    let ghost packages = match memo {
        Some(m) => Some(text::views(m.packages@)),
        None => None,
    };
    let ghost files = text::views(test_files@);
    let ghost said = text::views(notes@);
    let mut out: Vec<TestCommand> = Vec::new();
    let es = collect_entries(memo, &select(test_files, Family::Rust), notes);
    run_cargo(&mut out, &es);
    assert(text::views(out@) =~= rust_part(packages, files));
    run_all(&mut out, "pytest", select(test_files, Family::Python), "pytest");
    run_php(&mut out, test_files, withheld_phpt, root);
    run_go(&mut out, select(test_files, Family::Go));
    run_js(&mut out, test_files, root);
    run_java(&mut out, &select(test_files, Family::Java), root, notes);
    assert(text::views(notes@) =~= said + conventional_notes(packages, files));
    out
}

} // verus!
