//! Tests that live inside the changed files, and commands that features map to.
use vstd::prelude::*;
use vstd::string::*;
use crate::history::commands::{command, CommandView, TestCommand, SOURCE_FEATURE, SOURCE_INLINE};
use crate::history::conventions;
use crate::history::conventions::{family_of, Family};
use crate::history::crates;
use crate::history::crates::{
    rust_directory_binary, rust_module_path, CrateView, DirPackageView, ManifestMemo, RustCrate,
};
use crate::history::shell;
use crate::history::shell::{dropped_token_note, flag_safe, path_args, shell_quote};
use crate::model::Symbol;
use crate::order;
use crate::order::{among, ascending_list, sort, Ranked};
use crate::text;
use crate::text::{
    begins, concat2, concat3, concat4, finishes, join, lines_of, same, strip_suffix, trim,
    trim_start, words_of,
};

verus! {

/// Lines above a module that are looked at for its gate; other attributes and
/// comments may stand between them.
pub const CFG_TEST_LOOKBACK: usize = 3;

// ---------------------------------------------------------------------------
// Test modules of a Rust file
// ---------------------------------------------------------------------------

pub open spec fn test_module_name(name: Seq<char>) -> bool {
    name == "tests"@ || name == "test"@ || text::ends_with(name, "_tests"@) || text::ends_with(name, "_test"@)
}

pub fn is_rust_test_module_name(name: &str) -> (r: bool)
    ensures
        r == test_module_name(name@),
{
    same(name, "tests") || same(name, "test") || finishes(name, "_tests") || finishes(name, "_test")
}

/// The number of lines above a line, counted from one.
pub open spec fn above(lines: Seq<Seq<char>>, line_start: u32) -> int {
    let n = if line_start == 0 {
        0
    } else {
        line_start - 1
    };
    if n < lines.len() {
        n
    } else {
        lines.len() as int
    }
}

pub open spec fn gate(line: Seq<char>) -> bool {
    text::starts_with(text::trimmed_start(line), "#[cfg(test)]"@)
}

/// One of the few lines above the item that begins at a line gates it.
pub open spec fn gated(lines: Seq<Seq<char>>, line_start: u32) -> bool {
    let end = above(lines, line_start);
    exists|k: int| end - CFG_TEST_LOOKBACK <= k < end && 0 <= k && gate(#[trigger] lines[k])
}

fn lines_above(n: usize, line_start: u32) -> (out: usize)
    ensures
        forall|lines: Seq<Seq<char>>| lines.len() == n ==> out == #[trigger] above(lines, line_start),
        out <= n,
{
    let m: usize = if line_start == 0 {
        0
    } else {
        (line_start - 1) as usize
    };
    if m < n {
        m
    } else {
        n
    }
}

/// Whether the item that begins at a line is gated.
pub fn cfg_test_gated(lines: &Vec<String>, line_start: u32) -> (r: bool)
    ensures
        r == gated(text::views(lines@), line_start),
{
    broadcast use text::group_views;
    let ghost ls = text::views(lines@);
    let end: usize = lines_above(lines.len(), line_start);
    let begin: usize = if end > CFG_TEST_LOOKBACK {
        end - CFG_TEST_LOOKBACK
    } else {
        0
    };
    assert(end == above(ls, line_start));
    let mut k: usize = begin;
    while k < end
        invariant
            begin <= k <= end <= lines@.len(),
            ls == text::views(lines@),
            end == above(ls, line_start),
            begin == (if end > CFG_TEST_LOOKBACK {
                end - CFG_TEST_LOOKBACK
            } else {
                0
            }),
            forall|j: int| begin <= j < k ==> !gate(#[trigger] ls[j]),
        decreases end - k,
    {
        broadcast use text::group_views;
        assert(ls[k as int] == lines@[k as int]@);
        if begins(trim_start(lines[k].as_str()), "#[cfg(test)]") {
            assert(gate(ls[k as int]));
            return true;
        }
        k += 1;
    }
    false
}

/// A line begins with the attribute of a test function.
pub open spec fn marks_test(line: Seq<char>) -> bool {
    let l = text::trimmed_start(line);
    text::starts_with(l, "#[test]"@) || text::starts_with(l, "#[tokio::test"@) || text::starts_with(l, "#[rstest"@)
        || text::starts_with(l, "#[sqlx::test"@) || text::starts_with(l, "#[async_std::test"@) || text::starts_with(
        l,
        "#[test_case"@,
    )
}

pub open spec fn marks_among(lines: Seq<Seq<char>>) -> nat
    decreases lines.len(),
{
    if lines.len() == 0 {
        0
    } else {
        marks_among(lines.drop_last()) + (if marks_test(lines.last()) {
            1nat
        } else {
            0
        })
    }
}

/// The lines of an item.
pub open spec fn item_lines(lines: Seq<Seq<char>>, line_start: u32, line_end: u32) -> Seq<Seq<char>> {
    let begin = above(lines, line_start);
    let end = if line_end < lines.len() {
        line_end as int
    } else {
        lines.len() as int
    };
    if end > begin {
        lines.subrange(begin, end)
    } else {
        Seq::empty()
    }
}

fn is_test_mark(line: &str) -> (r: bool)
    ensures
        r == marks_test(line@),
{
    let l = trim_start(line);
    begins(l, "#[test]") || begins(l, "#[tokio::test") || begins(l, "#[rstest") || begins(l, "#[sqlx::test") || begins(
        l,
        "#[async_std::test",
    ) || begins(l, "#[test_case")
}

/// Counts the test attributes among the lines of an item.
pub fn count_test_attributes(lines: &Vec<String>, line_start: u32, line_end: u32) -> (n: usize)
    ensures
        n == marks_among(item_lines(text::views(lines@), line_start, line_end)),
{
    broadcast use text::group_views;
    let ghost ls = text::views(lines@);
    let begin: usize = lines_above(lines.len(), line_start);
    assert(begin == above(ls, line_start));
    let end: usize = if (line_end as usize) < lines.len() {
        line_end as usize
    } else {
        lines.len()
    };
    let ghost mine = item_lines(ls, line_start, line_end);
    if end <= begin {
        return 0;
    }
    let mut n: usize = 0;
    let mut k: usize = begin;
    while k < end
        invariant
            begin <= k <= end <= lines@.len(),
            ls == text::views(lines@),
            mine == ls.subrange(begin as int, end as int),
            n == marks_among(mine.take(k - begin)),
            n <= k - begin,
        decreases end - k,
    {
        broadcast use text::group_views;
        proof {
            assert(mine.take(k - begin + 1).drop_last() =~= mine.take(k - begin));
            assert(mine.take(k - begin + 1).last() == lines@[k as int]@);
        }
        if is_test_mark(lines[k].as_str()) {
            n += 1;
        }
        k += 1;
    }
    assert(mine.take(mine.len() as int) =~= mine);
    n
}

/// A module of tests: its name and the lines it spans.
#[derive(Debug)]
pub struct TestModule {
    pub name: String,
    pub start: u32,
    pub end: u32,
}

pub struct TestModuleView {
    pub name: Seq<char>,
    pub start: u32,
    pub end: u32,
}

impl View for TestModule {
    type V = TestModuleView;

    open spec fn view(&self) -> TestModuleView {
        TestModuleView { name: self.name@, start: self.start, end: self.end }
    }
}

/// By where it starts; of two that start together the longer one first.
impl Ranked for TestModule {
    open spec fn ahead(a: TestModuleView, b: TestModuleView) -> bool {
        a.start < b.start || (a.start == b.start && a.end > b.end)
    }

    fn is_ahead(&self, other: &TestModule) -> (r: bool) {
        self.start < other.start || (self.start == other.start && self.end > other.end)
    }

    proof fn ahead_is_asymmetric(a: TestModuleView, b: TestModuleView) {
    }

    proof fn ahead_is_negatively_transitive(a: TestModuleView, b: TestModuleView, c: TestModuleView) {
    }
}

/// Lines that lie inside a module.
pub open spec fn lies_within(start: u32, end: u32, module: TestModuleView) -> bool {
    start > module.start && end <= module.end
}

/// The modules that hold tests, by their names or by their gates.
pub open spec fn test_modules(symbols: Seq<Symbol>, lines: Option<Seq<Seq<char>>>) -> Seq<TestModuleView>
    decreases symbols.len(),
{
    if symbols.len() == 0 {
        Seq::empty()
    } else {
        let front = test_modules(symbols.drop_last(), lines);
        let s = symbols.last();
        if s.kind@ == "module"@ && (test_module_name(s.name@) || (lines matches Some(ls) && gated(
            ls,
            s.line_start,
        ))) {
            front.push(TestModuleView { name: s.name@, start: s.line_start, end: s.line_end })
        } else {
            front
        }
    }
}

/// Modules without those inside an earlier one.
pub open spec fn outermost(modules: Seq<TestModuleView>) -> Seq<TestModuleView>
    decreases modules.len(),
{
    if modules.len() == 0 {
        Seq::empty()
    } else {
        let front = outermost(modules.drop_last());
        let m = modules.last();
        if held(front, m) {
            front
        } else {
            front.push(m)
        }
    }
}

pub open spec fn held(accepted: Seq<TestModuleView>, m: TestModuleView) -> bool {
    exists|i: int| 0 <= i < accepted.len() && lies_within(m.start, m.end, #[trigger] accepted[i])
}

/// How many functions inside a module look like tests.
pub open spec fn tests_within(symbols: Seq<Symbol>, module: TestModuleView) -> nat
    decreases symbols.len(),
{
    if symbols.len() == 0 {
        0
    } else {
        let s = symbols.last();
        tests_within(symbols.drop_last(), module) + (if s.kind@ == "function"@ && lies_within(
            s.line_start,
            s.line_end,
            module,
        ) && text::starts_with(s.name@, "test"@) {
            1nat
        } else {
            0
        })
    }
}

/// How many tests a module holds: by attributes where the source is known.
pub open spec fn tests_in(symbols: Seq<Symbol>, lines: Option<Seq<Seq<char>>>, module: TestModuleView) -> nat {
    match lines {
        Some(ls) => marks_among(item_lines(ls, module.start, module.end)),
        None => tests_within(symbols, module),
    }
}

/// A module with the number of its tests.
#[derive(Debug)]
pub struct CountedModule {
    pub name: String,
    pub count: usize,
}

pub struct CountedView {
    pub name: Seq<char>,
    pub count: nat,
}

impl View for CountedModule {
    type V = CountedView;

    open spec fn view(&self) -> CountedView {
        CountedView { name: self.name@, count: self.count as nat }
    }
}

/// The outermost test modules of a file, with their tests; nested ones count
/// towards the one around them.
pub open spec fn inline_modules(symbols: Seq<Symbol>, lines: Option<Seq<Seq<char>>>) -> Seq<CountedView> {
    outermost(order::sorted::<TestModule>(test_modules(symbols, lines))).map_values(
        |m: TestModuleView| CountedView { name: m.name, count: tests_in(symbols, lines, m) },
    )
}

pub open spec fn lines_view(lines: Option<Vec<String>>) -> Option<Seq<Seq<char>>> {
    match lines {
        Some(ls) => Some(text::views(ls@)),
        None => None,
    }
}

fn find_test_modules(symbols: &Vec<Symbol>, lines: &Option<Vec<String>>) -> (out: Vec<TestModule>)
    ensures
        text::views(out@) == test_modules(symbols@, lines_view(*lines)),
{
    broadcast use text::group_views;
    let mut out: Vec<TestModule> = Vec::new();
    let mut i: usize = 0;
    while i < symbols.len()
        invariant
            i <= symbols@.len(),
            text::views(out@) == test_modules(symbols@.take(i as int), lines_view(*lines)),
        decreases symbols@.len() - i,
    {
        broadcast use text::group_views;
        proof {
            assert(symbols@.take(i + 1).drop_last() =~= symbols@.take(i as int));
            assert(symbols@.take(i + 1).last() == symbols@[i as int]);
        }
        let s = &symbols[i];
        if same(s.kind.as_str(), "module") {
            let by_gate = match lines {
                Some(ls) => cfg_test_gated(ls, s.line_start),
                None => false,
            };
            if by_gate || is_rust_test_module_name(s.name.as_str()) {
                out.push(TestModule { name: s.name.clone(), start: s.line_start, end: s.line_end });
            }
        }
        i += 1;
    }
    assert(symbols@.take(symbols@.len() as int) =~= symbols@);
    out
}

fn is_held(accepted: &Vec<TestModule>, m: &TestModule) -> (r: bool)
    ensures
        r == held(text::views(accepted@), m@),
{
    broadcast use text::group_views;
    let ghost all = text::views(accepted@);
    let mut i: usize = 0;
    while i < accepted.len()
        invariant
            i <= accepted@.len(),
            all == text::views(accepted@),
            forall|j: int| 0 <= j < i ==> !lies_within(m.start, m.end, #[trigger] all[j]),
        decreases accepted@.len() - i,
    {
        broadcast use text::group_views;
        assert(all[i as int] == accepted@[i as int]@);
        if m.start > accepted[i].start && m.end <= accepted[i].end {
            assert(lies_within(m@.start, m@.end, all[i as int]));
            return true;
        }
        i += 1;
    }
    false
}

fn count_tests_within(symbols: &Vec<Symbol>, module: &TestModule) -> (n: usize)
    ensures
        n == tests_within(symbols@, module@),
{
    let mut n: usize = 0;
    let mut i: usize = 0;
    while i < symbols.len()
        invariant
            i <= symbols@.len(),
            n <= i,
            n == tests_within(symbols@.take(i as int), module@),
        decreases symbols@.len() - i,
    {
        proof {
            assert(symbols@.take(i + 1).drop_last() =~= symbols@.take(i as int));
            assert(symbols@.take(i + 1).last() == symbols@[i as int]);
        }
        let s = &symbols[i];
        if same(s.kind.as_str(), "function") && s.line_start > module.start && s.line_end <= module.end && begins(
            s.name.as_str(),
            "test",
        ) {
            n += 1;
        }
        i += 1;
    }
    assert(symbols@.take(symbols@.len() as int) =~= symbols@);
    n
}

/// Finds the outermost test modules of a Rust file and counts their tests.
pub fn rust_inline_modules(symbols: &Vec<Symbol>, source: &Option<String>) -> (out: Vec<CountedModule>)
    ensures
        text::views(out@) == inline_modules(
            symbols@,
            match source {
                Some(s) => Some(text::lines(s@)),
                None => None,
            },
        ),
{
    broadcast use text::group_views;
    let lines = match source {
        Some(s) => Some(lines_of(s.as_str())),
        None => None,
    };
    let ghost ls = lines_view(lines);
    let modules = sort(find_test_modules(symbols, &lines));
    let ghost all = text::views(modules@);
    let ghost items = modules@;
    let mut accepted: Vec<TestModule> = Vec::new();
    for m in it: modules
        invariant
            it.seq() == items,
            all == text::views(items),
            text::views(accepted@) == outermost(all.take(it.index())),
    {
        broadcast use text::group_views;
        proof {
            assert(all.take(it.index() + 1).drop_last() =~= all.take(it.index()));
            assert(all.take(it.index() + 1).last() == m@);
        }
        if !is_held(&accepted, &m) {
            accepted.push(m);
        }
    }
    assert(all.take(all.len() as int) =~= all);
    let ghost outer = text::views(accepted@);
    let ghost want = outer.map_values(
        |m: TestModuleView| CountedView { name: m.name, count: tests_in(symbols@, ls, m) },
    );
    let mut out: Vec<CountedModule> = Vec::new();
    let mut i: usize = 0;
    while i < accepted.len()
        invariant
            i <= accepted@.len(),
            outer == text::views(accepted@),
            ls == lines_view(lines),
            want == outer.map_values(
                |m: TestModuleView| CountedView { name: m.name, count: tests_in(symbols@, ls, m) },
            ),
            text::views(out@) == want.take(i as int),
        decreases accepted@.len() - i,
    {
        broadcast use text::group_views;
        let m = &accepted[i];
        assert(want.take(i + 1) =~= want.take(i as int).push(want[i as int]));
        let count: usize = match &lines {
            Some(l) => count_test_attributes(l, m.start, m.end),
            None => count_tests_within(symbols, m),
        };
        out.push(CountedModule { name: m.name.clone(), count });
        i += 1;
    }
    assert(want.take(want.len() as int) =~= want);
    out
}

/// No listed module lies inside another listed one: no test is reported twice.
pub proof fn law_listed_modules_do_not_nest(modules: Seq<TestModuleView>, i: int, j: int)
    requires
        order::in_order::<TestModule>(modules),
        0 <= i < outermost(modules).len(),
        0 <= j < outermost(modules).len(),
        i != j,
    ensures
        !lies_within(outermost(modules)[i].start, outermost(modules)[i].end, outermost(modules)[j]),
    decreases modules.len(),
{
    let front = modules.drop_last();
    let m = modules.last();
    assert(order::in_order::<TestModule>(front)) by {
        assert forall|a: int, b: int|
            #![trigger <TestModule as Ranked>::ahead(front[b], front[a])]
            0 <= a < b < front.len() implies !<TestModule as Ranked>::ahead(front[b], front[a]) by {
            assert(!<TestModule as Ranked>::ahead(modules[b], modules[a]));
        }
    }
    let kept = outermost(front);
    if i < kept.len() && j < kept.len() {
        law_listed_modules_do_not_nest(front, i, j);
    } else if i == kept.len() {
        assert(!held(kept, m));
        assert(!lies_within(m.start, m.end, kept[j]));
    } else {
        lemma_outermost_among(front, i);
        let k = choose|k: int| 0 <= k < front.len() && front[k] == kept[i];
        assert(modules[k] == kept[i]);
        assert(!<TestModule as Ranked>::ahead(modules[modules.len() - 1], modules[k]));
    }
}

proof fn lemma_outermost_among(modules: Seq<TestModuleView>, i: int)
    requires
        0 <= i < outermost(modules).len(),
    ensures
        modules.contains(outermost(modules)[i]),
    decreases modules.len(),
{
    if modules.len() > 0 {
        let front = modules.drop_last();
        let kept = outermost(front);
        if i < kept.len() {
            lemma_outermost_among(front, i);
            let k = choose|k: int| 0 <= k < front.len() && front[k] == kept[i];
            assert(modules[k] == kept[i]);
        } else {
            assert(modules[modules.len() - 1] == modules.last());
        }
    }
}

// ---------------------------------------------------------------------------
// Python
// ---------------------------------------------------------------------------

/// The dotted name of a Python file; that of a package is its directory.
pub open spec fn dotted(path: Seq<char>) -> Seq<char> {
    let name = text::replaced(
        match text::before_suffix(path, ".py"@) {
            Some(p) => p,
            None => path,
        },
        '/',
        '.',
    );
    match text::before_suffix(name, ".__init__"@) {
        Some(package) => package,
        None => name,
    }
}

/// Names a Python file as a module.
pub fn python_module_id(path: &str) -> (out: String)
    ensures
        out@ == dotted(path@),
{
    let p = match strip_suffix(path, ".py") {
        Some(p) => p,
        None => path,
    };
    let name = text::replace_char(p, '/', '.');
    match strip_suffix(name.as_str(), ".__init__") {
        Some(package) => package.to_string(),
        None => name.clone(),
    }
}

/// How many functions and methods are tests by their names.
pub open spec fn python_tests(symbols: Seq<Symbol>) -> nat
    decreases symbols.len(),
{
    if symbols.len() == 0 {
        0
    } else {
        let s = symbols.last();
        python_tests(symbols.drop_last()) + (if (s.kind@ == "function"@ || s.kind@ == "method"@) && text::starts_with(
            s.name@,
            "test_"@,
        ) {
            1nat
        } else {
            0
        })
    }
}

/// Counts the test functions and methods of a Python file.
pub fn python_test_count(symbols: &Vec<Symbol>) -> (n: usize)
    ensures
        n == python_tests(symbols@),
{
    let mut n: usize = 0;
    let mut i: usize = 0;
    while i < symbols.len()
        invariant
            i <= symbols@.len(),
            n <= i,
            n == python_tests(symbols@.take(i as int)),
        decreases symbols@.len() - i,
    {
        proof {
            assert(symbols@.take(i + 1).drop_last() =~= symbols@.take(i as int));
            assert(symbols@.take(i + 1).last() == symbols@[i as int]);
        }
        let s = &symbols[i];
        if (same(s.kind.as_str(), "function") || same(s.kind.as_str(), "method")) && begins(s.name.as_str(), "test_") {
            n += 1;
        }
        i += 1;
    }
    assert(symbols@.take(symbols@.len() as int) =~= symbols@);
    n
}

// ---------------------------------------------------------------------------
// Commands for the tests inside changed files
// ---------------------------------------------------------------------------

/// A changed file: its definitions, and its source where it could be read.
#[derive(Debug)]
pub struct ChangedFile {
    pub path: String,
    pub symbols: Vec<Symbol>,
    pub source: Option<String>,
}

/// A module of tests inside a changed file.
#[derive(Debug)]
pub struct InlineTestModule {
    pub file: String,
    pub module: String,
    pub test_count: usize,
}

pub struct InlineView {
    pub file: Seq<char>,
    pub module: Seq<char>,
    pub test_count: nat,
}

impl View for InlineTestModule {
    type V = InlineView;

    open spec fn view(&self) -> InlineView {
        InlineView { file: self.file@, module: self.module@, test_count: self.test_count as nat }
    }
}

/// A module inside a file's own module path.
pub open spec fn full_name(outer: Seq<char>, name: Seq<char>) -> Seq<char> {
    if outer.len() == 0 {
        name
    } else {
        outer + "::"@ + name
    }
}

/// The command of one module: its own tests, or the whole binary that it is
/// part of.
pub open spec fn module_command(k: CrateView, binary: Option<Seq<char>>, module: Seq<char>) -> CommandView {
    CommandView {
        command: match binary {
            Some(b) => "cargo test"@ + crates::package_flag_text(k) + " --bin "@ + shell::quoted(b),
            None => "cargo test"@ + crates::package_flag_text(k) + " "@ + shell::quoted(module + "::"@),
        },
        covers: seq![module],
        framework: "cargo"@,
        source: SOURCE_INLINE@,
    }
}

pub open spec fn module_commands(
    k: CrateView,
    binary: Option<Seq<char>>,
    outer: Seq<char>,
    mods: Seq<CountedView>,
) -> Seq<CommandView>
    decreases mods.len(),
{
    if mods.len() == 0 {
        Seq::empty()
    } else {
        let front = module_commands(k, binary, outer, mods.drop_last());
        let module = full_name(outer, mods.last().name);
        if shell::safe_name(module) {
            front.push(module_command(k, binary, module))
        } else {
            front
        }
    }
}

pub open spec fn module_rows(file: Seq<char>, outer: Seq<char>, mods: Seq<CountedView>) -> Seq<InlineView>
    decreases mods.len(),
{
    if mods.len() == 0 {
        Seq::empty()
    } else {
        let front = module_rows(file, outer, mods.drop_last());
        let module = full_name(outer, mods.last().name);
        if shell::safe_name(module) {
            front.push(InlineView { file, module, test_count: mods.last().count })
        } else {
            front
        }
    }
}

pub open spec fn module_notes(outer: Seq<char>, mods: Seq<CountedView>) -> Seq<Seq<char>>
    decreases mods.len(),
{
    if mods.len() == 0 {
        Seq::empty()
    } else {
        let front = module_notes(outer, mods.drop_last());
        let module = full_name(outer, mods.last().name);
        if shell::safe_name(module) {
            front
        } else {
            front.push(shell::dropped("cargo test filter"@, module))
        }
    }
}

/// What was found so far.
pub struct FoundView {
    pub commands: Seq<CommandView>,
    pub modules: Seq<InlineView>,
    pub notes: Seq<Seq<char>>,
    pub python: Seq<Seq<char>>,
}

pub open spec fn some_module(symbols: Seq<Symbol>) -> bool {
    exists|i: int| 0 <= i < symbols.len() && (#[trigger] symbols[i]).kind@ == "module"@
}

pub open spec fn source_lines(f: ChangedFile) -> Option<Seq<Seq<char>>> {
    match f.source {
        Some(s) => Some(text::lines(s@)),
        None => None,
    }
}

/// With the test modules of a Rust file.
pub open spec fn with_rust(found: FoundView, packages: Option<Seq<DirPackageView>>, f: ChangedFile) -> FoundView {
    let k = crates::crate_of(packages, f.path@);
    let binary = crates::directory_binary(k, f.path@);
    match crates::module_name_path(k, f.path@) {
        None => found,
        Some(outer) => if !some_module(f.symbols@) {
            found
        } else if binary matches Some(b) && !shell::safe_name(b) {
            FoundView { notes: found.notes.push(shell::dropped("cargo binary target"@, binary->0)), ..found }
        } else {
            let mods = inline_modules(f.symbols@, source_lines(f));
            FoundView {
                commands: found.commands + module_commands(k, binary, outer, mods),
                modules: found.modules + module_rows(f.path@, outer, mods),
                notes: found.notes + module_notes(outer, mods),
                python: found.python,
            }
        },
    }
}

/// With the tests of a Python file, if it holds any.
pub open spec fn with_python(found: FoundView, f: ChangedFile) -> FoundView {
    if python_tests(f.symbols@) == 0 {
        found
    } else {
        FoundView {
            modules: found.modules.push(
                InlineView { file: f.path@, module: dotted(f.path@), test_count: python_tests(f.symbols@) },
            ),
            python: found.python.push(f.path@),
            ..found
        }
    }
}

/// With the tests inside a changed file, unless it is run as a test file
/// anyway.
pub open spec fn with_file(
    found: FoundView,
    packages: Option<Seq<DirPackageView>>,
    tests: Seq<Seq<char>>,
    f: ChangedFile,
) -> FoundView {
    if tests.contains(f.path@) {
        found
    } else {
        match conventions::family(f.path@) {
            Family::Rust => with_rust(found, packages, f),
            Family::Python => with_python(found, f),
            _ => found,
        }
    }
}

pub open spec fn found_in(
    start: FoundView,
    packages: Option<Seq<DirPackageView>>,
    tests: Seq<Seq<char>>,
    files: Seq<ChangedFile>,
) -> FoundView
    decreases files.len(),
{
    if files.len() == 0 {
        start
    } else {
        with_file(found_in(start, packages, tests, files.drop_last()), packages, tests, files.last())
    }
}

/// One command for all Python files that hold tests.
pub open spec fn python_command(files: Seq<Seq<char>>) -> Seq<CommandView> {
    if files.len() == 0 {
        Seq::empty()
    } else {
        let sorted = order::sorted::<String>(files);
        seq![
            CommandView {
                command: "pytest "@ + shell::arguments(sorted),
                covers: sorted,
                framework: "pytest"@,
                source: SOURCE_INLINE@,
            },
        ]
    }
}

#[derive(Debug)]
struct Found {
    commands: Vec<TestCommand>,
    modules: Vec<InlineTestModule>,
    notes: Vec<String>,
    python: Vec<String>,
}

impl View for Found {
    type V = FoundView;

    closed spec fn view(&self) -> FoundView {
        FoundView {
            commands: text::views(self.commands@),
            modules: text::views(self.modules@),
            notes: text::views(self.notes@),
            python: text::views(self.python@),
        }
    }
}

fn has_module(symbols: &Vec<Symbol>) -> (r: bool)
    ensures
        r == some_module(symbols@),
{
    let mut i: usize = 0;
    while i < symbols.len()
        invariant
            i <= symbols@.len(),
            forall|j: int| 0 <= j < i ==> (#[trigger] symbols@[j]).kind@ != "module"@,
        decreases symbols@.len() - i,
    {
        if same(symbols[i].kind.as_str(), "module") {
            return true;
        }
        i += 1;
    }
    false
}

fn command_of_module(krate: &RustCrate, binary: &Option<String>, module: &str) -> (out: TestCommand)
    ensures
        out@ == module_command(krate@, text::view_opt(*binary), module@),
{
    broadcast use text::group_views;
    let flag = krate.package_flag();
    let line = match binary {
        Some(b) => concat4("cargo test", flag.as_str(), " --bin ", shell_quote(b.as_str()).as_str()),
        None => concat4("cargo test", flag.as_str(), " ", shell_quote(concat2(module, "::").as_str()).as_str()),
    };
    let mut covers: Vec<String> = Vec::new();
    covers.push(module.to_string());
    assert(text::views(covers@) =~= seq![module@]);
    command(line, covers, "cargo", SOURCE_INLINE)
}

impl Found {
    fn add_modules(&mut self, krate: &RustCrate, binary: &Option<String>, file: &str, outer: &str, mods: &Vec<CountedModule>)
        ensures
            final(self)@ == (FoundView {
                commands: old(self)@.commands + module_commands(
                    krate@,
                    text::view_opt(*binary),
                    outer@,
                    text::views(mods@),
                ),
                modules: old(self)@.modules + module_rows(file@, outer@, text::views(mods@)),
                notes: old(self)@.notes + module_notes(outer@, text::views(mods@)),
                python: old(self)@.python,
            }),
    {
        broadcast use text::group_views;
        let ghost start = self@;
        let ghost all = text::views(mods@);
        let ghost k = krate@;
        let ghost b = text::view_opt(*binary);
        let mut i: usize = 0;
        assert(start.commands + module_commands(k, b, outer@, all.take(0)) =~= start.commands);
        assert(start.modules + module_rows(file@, outer@, all.take(0)) =~= start.modules);
        assert(start.notes + module_notes(outer@, all.take(0)) =~= start.notes);
        while i < mods.len()
            invariant
                i <= mods@.len(),
                all == text::views(mods@),
                k == krate@,
                b == text::view_opt(*binary),
                self@.commands == start.commands + module_commands(k, b, outer@, all.take(i as int)),
                self@.modules == start.modules + module_rows(file@, outer@, all.take(i as int)),
                self@.notes == start.notes + module_notes(outer@, all.take(i as int)),
                self@.python == start.python,
            decreases mods@.len() - i,
        {
            broadcast use text::group_views;
            proof {
                assert(all.take(i + 1).drop_last() =~= all.take(i as int));
                assert(all.take(i + 1).last() == mods@[i as int]@);
            }
            let module = if outer.unicode_len() == 0 {
                mods[i].name.clone()
            } else {
                concat3(outer, "::", mods[i].name.as_str())
            };
            if flag_safe(module.as_str()) {
                self.commands.push(command_of_module(krate, binary, module.as_str()));
                self.modules.push(
                    InlineTestModule { file: file.to_string(), module, test_count: mods[i].count },
                );
            } else {
                self.notes.push(dropped_token_note("cargo test filter", module.as_str()));
            }
            assert(self@.commands =~= start.commands + module_commands(k, b, outer@, all.take(i + 1)));
            assert(self@.modules =~= start.modules + module_rows(file@, outer@, all.take(i + 1)));
            assert(self@.notes =~= start.notes + module_notes(outer@, all.take(i + 1)));
            i += 1;
        }
        assert(all.take(all.len() as int) =~= all);
    }

    fn add_rust(&mut self, memo: Option<&ManifestMemo>, f: &ChangedFile)
        ensures
            final(self)@ == with_rust(
                old(self)@,
                match memo {
                    Some(m) => Some(text::views(m.packages@)),
                    None => None,
                },
                *f,
            ),
    {
        broadcast use text::group_views;
        if !has_module(&f.symbols) {
            return ;
        }
        let krate = RustCrate::for_path(memo, f.path.as_str());
        let outer = match rust_module_path(&krate, f.path.as_str()) {
            Some(outer) => outer,
            None => {
                return ;
            },
        };
        let binary = rust_directory_binary(&krate, f.path.as_str());
        if let Some(b) = &binary {
            if !flag_safe(b.as_str()) {
                self.notes.push(dropped_token_note("cargo binary target", b.as_str()));
                return ;
            }
        }
        let mods = rust_inline_modules(&f.symbols, &f.source);
        self.add_modules(&krate, &binary, f.path.as_str(), outer.as_str(), &mods);
    }

    fn add_python(&mut self, f: &ChangedFile)
        ensures
            final(self)@ == with_python(old(self)@, *f),
    {
        broadcast use text::group_views;
        let count: usize = python_test_count(&f.symbols);
        if count > 0 {
            self.modules.push(
                InlineTestModule {
                    file: f.path.clone(),
                    module: python_module_id(f.path.as_str()),
                    test_count: count,
                },
            );
            self.python.push(f.path.clone());
        }
    }
}

/// The tests inside changed files.
#[derive(Debug)]
pub struct InlineTests {
    pub commands: Vec<TestCommand>,
    pub modules: Vec<InlineTestModule>,
    pub notes: Vec<String>,
}

/// Finds the tests inside changed files and the commands that run them.
pub fn inline_commands(memo: Option<&ManifestMemo>, test_files: &Vec<String>, changed: &Vec<ChangedFile>) -> (out:
    InlineTests)
    ensures
        ({
            let packages = match memo {
                Some(m) => Some(text::views(m.packages@)),
                None => None,
            };
            let none = FoundView {
                commands: Seq::empty(),
                modules: Seq::empty(),
                notes: Seq::empty(),
                python: Seq::empty(),
            };
            let found = found_in(none, packages, text::views(test_files@), changed@);
            &&& text::views(out.commands@) == found.commands + python_command(found.python)
            &&& text::views(out.modules@) == found.modules
            &&& text::views(out.notes@) == found.notes
        }),
{
    broadcast use text::group_views;
    let ghost packages = match memo {
        Some(m) => Some(text::views(m.packages@)),
        None => None,
    };
    let ghost none = FoundView {
        commands: Seq::empty(),
        modules: Seq::empty(),
        notes: Seq::empty(),
        python: Seq::empty(),
    };
    let ghost tests = text::views(test_files@);
    let mut found = Found { commands: Vec::new(), modules: Vec::new(), notes: Vec::new(), python: Vec::new() };
    assert(found@ =~= none);
    let mut i: usize = 0;
    while i < changed.len()
        invariant
            i <= changed@.len(),
            packages == (match memo {
                Some(m) => Some(text::views(m.packages@)),
                None => None,
            }),
            tests == text::views(test_files@),
            found@ == found_in(none, packages, tests, changed@.take(i as int)),
        decreases changed@.len() - i,
    {
        broadcast use text::group_views;
        proof {
            assert(changed@.take(i + 1).drop_last() =~= changed@.take(i as int));
            assert(changed@.take(i + 1).last() == changed@[i as int]);
        }
        let f = &changed[i];
        if !among(test_files, f.path.as_str()) {
            match family_of(f.path.as_str()) {
                Family::Rust => found.add_rust(memo, f),
                Family::Python => found.add_python(f),
                _ => {},
            }
        }
        i += 1;
    }
    assert(changed@.take(changed@.len() as int) =~= changed@);
    let ghost seen = found@;
    let Found { commands, modules, notes, python } = found;
    let mut commands = commands;
    if python.len() > 0 {
        let sorted = sort(python);
        let line = concat2("pytest ", path_args(&sorted).as_str());
        commands.push(command(line, sorted, "pytest", SOURCE_INLINE));
        assert(text::views(commands@) =~= seen.commands + python_command(seen.python));
    } else {
        assert(seen.commands + Seq::<CommandView>::empty() =~= seen.commands);
    }
    InlineTests { commands, modules, notes }
}

// ---------------------------------------------------------------------------
// Commands that features map to
// ---------------------------------------------------------------------------

/// A feature that a changed file belongs to, and its test command.
#[derive(Debug)]
pub struct FeatureHit {
    /// The changed file as it was given.
    pub given: String,
    pub feature_id: String,
    pub test_command: Option<String>,
}

/// The command of a feature, where it has one.
pub open spec fn mapped(h: FeatureHit) -> Option<Seq<char>> {
    match h.test_command {
        Some(c) => if text::trimmed(c@).len() > 0 {
            Some(text::trimmed(c@))
        } else {
            None
        },
        None => None,
    }
}

/// A text that cannot be one shell command.
pub open spec fn broken(c: Seq<char>) -> bool {
    text::contains(c, "\n"@) || text::contains(c, "\r"@) || text::contains(c, "\0"@)
}

/// The commands that can be run, in order.
pub open spec fn runnable(hits: Seq<FeatureHit>) -> Seq<Seq<char>>
    decreases hits.len(),
{
    if hits.len() == 0 {
        Seq::empty()
    } else {
        let front = runnable(hits.drop_last());
        match mapped(hits.last()) {
            Some(c) => if broken(c) {
                front
            } else {
                front.push(c)
            },
            None => front,
        }
    }
}

/// The features whose command cannot be run.
pub open spec fn unrunnable(hits: Seq<FeatureHit>) -> Seq<Seq<char>>
    decreases hits.len(),
{
    if hits.len() == 0 {
        Seq::empty()
    } else {
        let front = unrunnable(hits.drop_last());
        match mapped(hits.last()) {
            Some(c) => if broken(c) {
                front.push(hits.last().feature_id@)
            } else {
                front
            },
            None => front,
        }
    }
}

/// The changed files that map to a command, in order.
pub open spec fn given_for(hits: Seq<FeatureHit>, c: Seq<char>) -> Seq<Seq<char>>
    decreases hits.len(),
{
    if hits.len() == 0 {
        Seq::empty()
    } else {
        let front = given_for(hits.drop_last(), c);
        if mapped(hits.last()) == Some(c) && !broken(c) {
            front.push(hits.last().given@)
        } else {
            front
        }
    }
}

pub open spec fn feature_command(hits: Seq<FeatureHit>, c: Seq<char>) -> CommandView {
    CommandView {
        command: c,
        covers: given_for(hits, c),
        framework: if text::words(c).len() > 0 {
            text::words(c)[0]
        } else {
            ""@
        },
        source: SOURCE_FEATURE@,
    }
}

/// What is said of features whose command cannot be run.
pub open spec fn feature_notes(hits: Seq<FeatureHit>) -> Seq<Seq<char>> {
    let ids = order::ascending_set(unrunnable(hits));
    if unrunnable(hits).len() == 0 {
        Seq::empty()
    } else {
        seq![
            "feature test_command dropped from `commands` for "@ + text::joined(ids, ", "@)
                + " (contains a line break or NUL); see `feature_bundle` for the raw value"@,
        ]
    }
}

fn mapped_of(h: &FeatureHit) -> (out: Option<String>)
    ensures
        text::view_opt(out) == mapped(*h),
{
    match &h.test_command {
        Some(c) => {
            let t = trim(c.as_str());
            if t.unicode_len() > 0 {
                Some(t.to_string())
            } else {
                None
            }
        },
        None => None,
    }
}

fn is_broken(c: &str) -> (r: bool)
    ensures
        r == broken(c@),
{
    text::has(c, "\n") || text::has(c, "\r") || text::has(c, "\0")
}

fn given_of(hits: &Vec<FeatureHit>, c: &str) -> (out: Vec<String>)
    requires
        !broken(c@),
    ensures
        text::views(out@) == given_for(hits@, c@),
{
    broadcast use text::group_views;
    let mut out: Vec<String> = Vec::new();
    let mut i: usize = 0;
    while i < hits.len()
        invariant
            i <= hits@.len(),
            !broken(c@),
            text::views(out@) == given_for(hits@.take(i as int), c@),
        decreases hits@.len() - i,
    {
        broadcast use text::group_views;
        proof {
            assert(hits@.take(i + 1).drop_last() =~= hits@.take(i as int));
            assert(hits@.take(i + 1).last() == hits@[i as int]);
        }
        if let Some(m) = mapped_of(&hits[i]) {
            if same(m.as_str(), c) {
                out.push(hits[i].given.clone());
            }
        }
        i += 1;
    }
    assert(hits@.take(hits@.len() as int) =~= hits@);
    out
}

proof fn lemma_runnable_are_whole(hits: Seq<FeatureHit>, c: Seq<char>)
    requires
        runnable(hits).contains(c),
    ensures
        !broken(c),
    decreases hits.len(),
{
    if hits.len() > 0 {
        let front = runnable(hits.drop_last());
        let k = choose|k: int| 0 <= k < runnable(hits).len() && runnable(hits)[k] == c;
        if k < front.len() {
            assert(front[k] == c);
            lemma_runnable_are_whole(hits.drop_last(), c);
        }
    }
}

/// The commands that features map to, verbatim, and a note on those that
/// cannot be one shell command.
pub fn feature_commands(hits: &Vec<FeatureHit>) -> (out: (Vec<TestCommand>, Vec<String>))
    ensures
        text::views(out.0@) == order::ascending_set(runnable(hits@)).map_values(
            |c: Seq<char>| feature_command(hits@, c),
        ),
        text::views(out.1@) == feature_notes(hits@),
{
    broadcast use text::group_views;
    let mut lines: Vec<String> = Vec::new();
    let mut dropped: Vec<String> = Vec::new();
    let mut i: usize = 0;
    while i < hits.len()
        invariant
            i <= hits@.len(),
            text::views(lines@) == runnable(hits@.take(i as int)),
            text::views(dropped@) == unrunnable(hits@.take(i as int)),
        decreases hits@.len() - i,
    {
        broadcast use text::group_views;
        proof {
            assert(hits@.take(i + 1).drop_last() =~= hits@.take(i as int));
            assert(hits@.take(i + 1).last() == hits@[i as int]);
        }
        if let Some(m) = mapped_of(&hits[i]) {
            if is_broken(m.as_str()) {
                dropped.push(hits[i].feature_id.clone());
            } else {
                lines.push(m);
            }
        }
        i += 1;
    }
    assert(hits@.take(hits@.len() as int) =~= hits@);
    let sorted = ascending_list(&lines);
    let ghost names = text::views(sorted@);
    let ghost want = names.map_values(|c: Seq<char>| feature_command(hits@, c));
    let mut commands: Vec<TestCommand> = Vec::new();
    let mut k: usize = 0;
    while k < sorted.len()
        invariant
            k <= sorted@.len(),
            names == text::views(sorted@),
            order::ascending_of(names, runnable(hits@)),
            want == names.map_values(|c: Seq<char>| feature_command(hits@, c)),
            text::views(commands@) == want.take(k as int),
        decreases sorted@.len() - k,
    {
        broadcast use text::group_views;
        proof {
            assert(names[k as int] == sorted@[k as int]@);
            assert(names.contains(sorted@[k as int]@));
            lemma_runnable_are_whole(hits@, sorted@[k as int]@);
            assert(want.take(k + 1) =~= want.take(k as int).push(want[k as int]));
        }
        let line = sorted[k].clone();
        let words = words_of(line.as_str());
        let framework = if words.len() > 0 {
            words[0].clone()
        } else {
            "".to_string()
        };
        let covers = given_of(hits, line.as_str());
        commands.push(command(line, covers, framework.as_str(), SOURCE_FEATURE));
        k += 1;
    }
    assert(want.take(want.len() as int) =~= want);
    let mut notes: Vec<String> = Vec::new();
    if dropped.len() > 0 {
        let ids = join(&ascending_list(&dropped), ", ");
        notes.push(
            concat3(
                "feature test_command dropped from `commands` for ",
                ids.as_str(),
                " (contains a line break or NUL); see `feature_bundle` for the raw value",
            ),
        );
    }
    assert(text::views(notes@) =~= feature_notes(hits@));
    (commands, notes)
}

} // verus!
