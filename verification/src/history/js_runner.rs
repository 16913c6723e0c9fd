//! Which JavaScript test runner a project uses. A runner is named only from
//! evidence: one that is not installed fails, or gets downloaded.
use vstd::prelude::*;
use vstd::string::*;
use crate::history::commands::{command, CommandView, TestCommand, SOURCE_CONVENTION};
use crate::history::crates;
use crate::history::crates::safe_relative_dir;
use crate::history::shell;
use crate::history::shell::{path_arg, shell_quote};
use crate::imports;
use crate::imports::directory_of;
use crate::order;
use crate::order::{before, sort, Ranked};
use crate::paths;
use crate::paths::extension_of;
use crate::text;
use crate::text::{
    chars_of, concat2, concat3, concat4, concat5, decimal_of, find_from, finishes, join, replace_char, same, split,
    strip_prefix, trim_end, words_of,
};

verus! {

/// Paths named in a note before the rest are counted.
pub const NOTE_PATH_CAP: usize = 5;

/// A JavaScript test runner.
#[derive(Debug, Clone, Copy, PartialEq, Eq, Structural)]
pub enum JsRunner {
    Vitest,
    Jest,
    Mocha,
    NodeTest,
    Bun,
    Playwright,
}

pub open spec fn framework_text(r: JsRunner) -> Seq<char> {
    match r {
        JsRunner::Vitest => "vitest"@,
        JsRunner::Jest => "jest"@,
        JsRunner::Mocha => "mocha"@,
        JsRunner::NodeTest => "node:test"@,
        JsRunner::Bun => "bun"@,
        JsRunner::Playwright => "playwright"@,
    }
}

pub open spec fn invocation_text(r: JsRunner) -> Seq<char> {
    match r {
        JsRunner::Vitest => "npx vitest run"@,
        JsRunner::Jest => "npx jest"@,
        JsRunner::Mocha => "npx mocha"@,
        JsRunner::NodeTest => "node --test"@,
        JsRunner::Bun => "bun test"@,
        JsRunner::Playwright => "npx playwright test"@,
    }
}

/// A test file as an argument. Bun takes only an anchored path for a file.
pub open spec fn runner_argument(r: JsRunner, rel: Seq<char>) -> Seq<char> {
    match r {
        JsRunner::Bun => shell::quoted("./"@ + rel),
        _ => shell::argument(rel),
    }
}

/// The order of runners in a list.
pub open spec fn runner_place(r: JsRunner) -> int {
    match r {
        JsRunner::Vitest => 0,
        JsRunner::Jest => 1,
        JsRunner::Mocha => 2,
        JsRunner::NodeTest => 3,
        JsRunner::Bun => 4,
        JsRunner::Playwright => 5,
    }
}

impl JsRunner {
    pub fn framework(self) -> (out: &'static str)
        ensures
            out@ == framework_text(self),
    {
        match self {
            JsRunner::Vitest => "vitest",
            JsRunner::Jest => "jest",
            JsRunner::Mocha => "mocha",
            JsRunner::NodeTest => "node:test",
            JsRunner::Bun => "bun",
            JsRunner::Playwright => "playwright",
        }
    }

    fn invocation(self) -> (out: &'static str)
        ensures
            out@ == invocation_text(self),
    {
        match self {
            JsRunner::Vitest => "npx vitest run",
            JsRunner::Jest => "npx jest",
            JsRunner::Mocha => "npx mocha",
            JsRunner::NodeTest => "node --test",
            JsRunner::Bun => "bun test",
            JsRunner::Playwright => "npx playwright test",
        }
    }

    /// Writes a test file as an argument.
    pub fn arg(self, rel: &str) -> (out: String)
        ensures
            out@ == runner_argument(self, rel@),
    {
        match self {
            JsRunner::Bun => shell_quote(concat2("./", rel).as_str()),
            _ => path_arg(rel),
        }
    }

    fn place(self) -> (out: u8)
        ensures
            out == runner_place(self),
    {
        match self {
            JsRunner::Vitest => 0,
            JsRunner::Jest => 1,
            JsRunner::Mocha => 2,
            JsRunner::NodeTest => 3,
            JsRunner::Bun => 4,
            JsRunner::Playwright => 5,
        }
    }
}

// ---------------------------------------------------------------------------
// Scripts
// ---------------------------------------------------------------------------

/// The commands of a script, as shell operators separate them.
pub open spec fn segments(script: Seq<char>) -> Seq<Seq<char>> {
    text::pieces(
        text::replaced(text::replaced(text::replaced(script, '&', '\n'), '|', '\n'), ';', '\n'),
        '\n',
    )
}

pub open spec fn is_quote(c: char) -> bool {
    c == '"' || c == '\''
}

pub open spec fn bare_start(s: Seq<char>) -> Seq<char>
    decreases s.len(),
{
    if s.len() > 0 && is_quote(s[0]) {
        bare_start(s.skip(1))
    } else {
        s
    }
}

pub open spec fn bare_end(s: Seq<char>) -> Seq<char>
    decreases s.len(),
{
    if s.len() > 0 && is_quote(s.last()) {
        bare_end(s.drop_last())
    } else {
        s
    }
}

/// A token without quotes at its ends.
pub open spec fn bare(s: Seq<char>) -> Seq<char> {
    bare_end(bare_start(s))
}

pub open spec fn tokens(segment: Seq<char>) -> Seq<Seq<char>> {
    text::words(segment).map_values(|w: Seq<char>| bare(w))
}

/// The program that a token names: what follows its last slash.
pub open spec fn program(token: Seq<char>) -> Seq<char> {
    text::pieces(token, '/').last()
}

/// The runner that the `i`-th token starts.
pub open spec fn runner_at(ts: Seq<Seq<char>>, i: int) -> Option<JsRunner> {
    let name = program(ts[i]);
    let next = i + 1 < ts.len() && ts[i + 1] == "test"@;
    if name == "vitest"@ {
        Some(JsRunner::Vitest)
    } else if name == "jest"@ {
        Some(JsRunner::Jest)
    } else if name == "mocha"@ || name == "_mocha"@ {
        Some(JsRunner::Mocha)
    } else if name == "bun"@ && next {
        Some(JsRunner::Bun)
    } else if name == "playwright"@ && next {
        Some(JsRunner::Playwright)
    } else if name == "node"@ && ts.skip(i + 1).contains("--test"@) {
        Some(JsRunner::NodeTest)
    } else {
        None
    }
}

pub open spec fn runner_from_token(ts: Seq<Seq<char>>, i: int) -> Option<JsRunner>
    decreases ts.len() - i,
{
    if i < 0 || i >= ts.len() {
        None
    } else {
        match runner_at(ts, i) {
            Some(r) => Some(r),
            None => runner_from_token(ts, i + 1),
        }
    }
}

pub open spec fn runner_from_segment(ss: Seq<Seq<char>>, i: int) -> Option<JsRunner>
    decreases ss.len() - i,
{
    if i < 0 || i >= ss.len() {
        None
    } else {
        match runner_from_token(tokens(ss[i]), 0) {
            Some(r) => Some(r),
            None => runner_from_segment(ss, i + 1),
        }
    }
}

fn bare_of(s: &str) -> (out: String)
    ensures
        out@ == bare(s@),
{
    let cs = chars_of(s);
    let n: usize = cs.len();
    let mut a: usize = 0;
    assert(s@.skip(0) =~= s@);
    while a < n && (cs[a] == '"' || cs[a] == '\'')
        invariant
            a <= n,
            n == cs@.len(),
            cs@ == s@,
            bare_start(s@) == bare_start(s@.skip(a as int)),
        decreases n - a,
    {
        assert(s@.skip(a as int).skip(1) =~= s@.skip(a + 1));
        a += 1;
    }
    let ghost front = s@.skip(a as int);
    assert(bare_start(s@) == front);
    let mut b: usize = n;
    assert(s@.subrange(a as int, n as int) =~= front);
    while b > a && (cs[b - 1] == '"' || cs[b - 1] == '\'')
        invariant
            a <= b <= n,
            n == cs@.len(),
            cs@ == s@,
            bare_end(front) == bare_end(s@.subrange(a as int, b as int)),
        decreases b - a,
    {
        assert(s@.subrange(a as int, b as int).drop_last() =~= s@.subrange(a as int, b - 1));
        b -= 1;
    }
    s.substring_char(a, b).to_string()
}

fn tokens_of(segment: &str) -> (out: Vec<String>)
    ensures
        text::views(out@) == tokens(segment@),
{
    broadcast use text::group_views;
    let words = words_of(segment);
    let ghost all = tokens(segment@);
    let mut out: Vec<String> = Vec::new();
    let mut i: usize = 0;
    while i < words.len()
        invariant
            i <= words@.len(),
            text::views(words@) == text::words(segment@),
            all == tokens(segment@),
            text::views(out@) == all.take(i as int),
        decreases words@.len() - i,
    {
        broadcast use text::group_views;
        assert(all.take(i + 1) =~= all.take(i as int).push(bare(words@[i as int]@)));
        out.push(bare_of(words[i].as_str()));
        i += 1;
    }
    assert(all.take(all.len() as int) =~= all);
    out
}

fn program_of(token: &str) -> (out: String)
    ensures
        out@ == program(token@),
{
    broadcast use text::group_views;
    let parts = split(token, '/');
    proof {
        text::lemma_pieces_nonempty(token@, '/', 0, 0);
    }
    let n: usize = parts.len();
    assert(text::views(parts@)[n - 1] == parts@[n - 1]@);
    parts[n - 1].clone()
}

fn later_has(ts: &Vec<String>, from: usize, x: &str) -> (r: bool)
    requires
        from <= ts@.len(),
    ensures
        r == text::views(ts@).skip(from as int).contains(x@),
{
    broadcast use text::group_views;
    let ghost tail = text::views(ts@).skip(from as int);
    let mut i: usize = from;
    while i < ts.len()
        invariant
            from <= i <= ts@.len(),
            tail == text::views(ts@).skip(from as int),
            forall|j: int| 0 <= j < i - from ==> #[trigger] tail[j] != x@,
        decreases ts@.len() - i,
    {
        broadcast use text::group_views;
        assert(tail[i - from] == ts@[i as int]@);
        if same(ts[i].as_str(), x) {
            return true;
        }
        i += 1;
    }
    false
}

fn runner_of_token(ts: &Vec<String>, i: usize) -> (out: Option<JsRunner>)
    requires
        i < ts@.len(),
    ensures
        out == runner_at(text::views(ts@), i as int),
{
    broadcast use text::group_views;
    assert(text::views(ts@)[i as int] == ts@[i as int]@);
    let name = program_of(ts[i].as_str());
    let n = name.as_str();
    let next = i < ts.len() - 1 && same(ts[i + 1].as_str(), "test");
    if same(n, "vitest") {
        Some(JsRunner::Vitest)
    } else if same(n, "jest") {
        Some(JsRunner::Jest)
    } else if same(n, "mocha") || same(n, "_mocha") {
        Some(JsRunner::Mocha)
    } else if same(n, "bun") && next {
        Some(JsRunner::Bun)
    } else if same(n, "playwright") && next {
        Some(JsRunner::Playwright)
    } else if same(n, "node") && later_has(ts, i + 1, "--test") {
        Some(JsRunner::NodeTest)
    } else {
        None
    }
}

/// The first runner that a test script starts. Wrappers are stepped over, since
/// every token is looked at; a script that only delegates names no runner.
pub fn runner_from_script(script: &str) -> (out: Option<JsRunner>)
    ensures
        out == runner_from_segment(segments(script@), 0),
{
    broadcast use text::group_views;
    let flat = replace_char(
        replace_char(replace_char(script, '&', '\n').as_str(), '|', '\n').as_str(),
        ';',
        '\n',
    );
    let ss = split(flat.as_str(), '\n');
    let ghost all = text::views(ss@);
    let mut i: usize = 0;
    while i < ss.len()
        invariant
            i <= ss@.len(),
            all == text::views(ss@),
            all == segments(script@),
            runner_from_segment(all, 0) == runner_from_segment(all, i as int),
        decreases ss@.len() - i,
    {
        broadcast use text::group_views;
        assert(all[i as int] == ss@[i as int]@);
        let ts = tokens_of(ss[i].as_str());
        let ghost tv = text::views(ts@);
        let mut k: usize = 0;
        while k < ts.len()
            invariant
                k <= ts@.len(),
                i < ss@.len(),
                all == segments(script@),
                tv == text::views(ts@),
                tv == tokens(all[i as int]),
                runner_from_segment(all, 0) == runner_from_segment(all, i as int),
                runner_from_token(tv, 0) == runner_from_token(tv, k as int),
                all.len() == ss@.len(),
            decreases ts@.len() - k,
        {
            if let Some(r) = runner_of_token(&ts, k) {
                return Some(r);
            }
            k += 1;
        }
        i += 1;
    }
    None
}

// ---------------------------------------------------------------------------
// Dependencies
// ---------------------------------------------------------------------------

/// The declared dependencies that name a runner.
#[derive(Debug, Clone, Copy, PartialEq, Eq, Structural)]
pub struct RunnerDeps {
    pub vitest: bool,
    pub jest: bool,
    pub mocha: bool,
    pub playwright: bool,
}

/// A single declared unit runner; Playwright only where none is declared.
/// Several unit runners decide nothing.
pub open spec fn declared_runner(d: RunnerDeps) -> Option<JsRunner> {
    match (d.vitest, d.jest, d.mocha) {
        (true, false, false) => Some(JsRunner::Vitest),
        (false, true, false) => Some(JsRunner::Jest),
        (false, false, true) => Some(JsRunner::Mocha),
        (false, false, false) => if d.playwright {
            Some(JsRunner::Playwright)
        } else {
            None
        },
        _ => None,
    }
}

pub fn runner_from_deps(deps: &RunnerDeps) -> (out: Option<JsRunner>)
    ensures
        out == declared_runner(*deps),
{
    match (deps.vitest, deps.jest, deps.mocha) {
        (true, false, false) => Some(JsRunner::Vitest),
        (false, true, false) => Some(JsRunner::Jest),
        (false, false, true) => Some(JsRunner::Mocha),
        (false, false, false) => if deps.playwright {
            Some(JsRunner::Playwright)
        } else {
            None
        },
        _ => None,
    }
}

// ---------------------------------------------------------------------------
// Imports
// ---------------------------------------------------------------------------

/// A text ends in what stands before the specifier of an import.
pub open spec fn before_import(s: Seq<char>) -> bool {
    let t = text::trimmed_end(s);
    text::ends_with(t, "from"@) || text::ends_with(t, "import"@) || text::ends_with(t, "require("@) || text::ends_with(
        t,
        "import("@,
    )
}

/// An occurrence of a quoted specifier from `from` on is an import.
pub open spec fn imported_from(s: Seq<char>, literal: Seq<char>, from: int) -> bool
    decreases s.len() - from,
{
    match text::first_at(s, literal, from) {
        None => false,
        Some(i) => if before_import(s.take(i)) {
            true
        } else if literal.len() > 0 && from <= i && i + literal.len() <= s.len() {
            imported_from(s, literal, i + literal.len())
        } else {
            false
        },
    }
}

/// The text imports a module by its exact specifier.
pub open spec fn imports(s: Seq<char>, module: Seq<char>) -> bool {
    imported_from(s, "'"@ + module + "'"@, 0) || imported_from(s, "\""@ + module + "\""@, 0)
}

fn is_before_import(s: &str) -> (r: bool)
    ensures
        r == before_import(s@),
{
    let t = trim_end(s);
    finishes(t, "from") || finishes(t, "import") || finishes(t, "require(") || finishes(t, "import(")
}

fn is_imported(s: &str, literal: &str) -> (r: bool)
    requires
        literal@.len() > 0,
    ensures
        r == imported_from(s@, literal@, 0),
{
    let cs = chars_of(s);
    let lit = chars_of(literal);
    let mut from: usize = 0;
    let n: usize = cs.len();
    while from <= n
        invariant
            cs@ == s@,
            lit@ == literal@,
            lit@.len() > 0,
            n == cs@.len(),
            from <= n,
            imported_from(s@, literal@, 0) == imported_from(s@, literal@, from as int),
        decreases n - from,
    {
        proof {
            text::lemma_first_at(s@, literal@, from as int);
        }
        match find_from(&cs, &lit, from) {
            None => {
                return false;
            },
            Some(i) => {
                let head = s.substring_char(0, i);
                assert(head@ =~= s@.take(i as int));
                if is_before_import(head) {
                    return true;
                }
                from = i + lit.len();
            },
        }
    }
    false
}

/// Whether a text imports a module by its exact specifier.
pub fn imports_module(s: &str, module: &str) -> (r: bool)
    ensures
        r == imports(s@, module@),
{
    proof {
        reveal_strlit("'");
        reveal_strlit("\"");
    }
    is_imported(s, concat3("'", module, "'").as_str()) || is_imported(s, concat3("\"", module, "\"").as_str())
}

/// A file that Node runs as it is.
pub open spec fn plain_js(path: Seq<char>) -> bool {
    match paths::extension(path) {
        Some(e) => e == "js"@ || e == "jsx"@ || e == "mjs"@ || e == "cjs"@,
        None => false,
    }
}

/// The runner whose own module a file imports. TypeScript that imports Node's
/// runner is left to other evidence: not every Node runs it.
pub open spec fn imported_runner(s: Seq<char>, path: Seq<char>) -> Option<JsRunner> {
    if plain_js(path) && imports(s, "node:test"@) {
        Some(JsRunner::NodeTest)
    } else if imports(s, "bun:test"@) {
        Some(JsRunner::Bun)
    } else if imports(s, "@playwright/test"@) {
        Some(JsRunner::Playwright)
    } else if imports(s, "vitest"@) {
        Some(JsRunner::Vitest)
    } else if imports(s, "@jest/globals"@) {
        Some(JsRunner::Jest)
    } else {
        None
    }
}

pub fn runner_from_imports(s: &str, path: &str) -> (out: Option<JsRunner>)
    ensures
        out == imported_runner(s@, path@),
{
    let js = match extension_of(path) {
        Some(e) => same(e, "js") || same(e, "jsx") || same(e, "mjs") || same(e, "cjs"),
        None => false,
    };
    if js && imports_module(s, "node:test") {
        Some(JsRunner::NodeTest)
    } else if imports_module(s, "bun:test") {
        Some(JsRunner::Bun)
    } else if imports_module(s, "@playwright/test") {
        Some(JsRunner::Playwright)
    } else if imports_module(s, "vitest") {
        Some(JsRunner::Vitest)
    } else if imports_module(s, "@jest/globals") {
        Some(JsRunner::Jest)
    } else {
        None
    }
}

// ---------------------------------------------------------------------------
// Packages
// ---------------------------------------------------------------------------

/// `serde_json::Value`, a parsed JSON text.
#[verifier::external_type_specification]
#[verifier::external_body]
pub struct ExValue(serde_json::Value);

/// What a text holds as JSON, if it is JSON.
pub uninterp spec fn json_value(text: Seq<char>) -> Option<serde_json::Value>;

/// What a JSON object holds under a key.
pub uninterp spec fn json_member(value: serde_json::Value, key: Seq<char>) -> Option<serde_json::Value>;

/// The text that a JSON value is, if it is a string.
pub uninterp spec fn json_text(value: serde_json::Value) -> Option<Seq<char>>;

/// A JSON value is `null`.
pub uninterp spec fn json_null(value: serde_json::Value) -> bool;

/// `serde_json::from_str` into a `serde_json::Value`: the value that a text
/// holds, or nothing where it is no JSON. Which value it is is left to the
/// name.
#[verifier::external_body]
fn parse_json(text: &str) -> (r: Option<serde_json::Value>)
    ensures
        r == json_value(text@),
{
    serde_json::from_str::<serde_json::Value>(text).ok()
}

/// `serde_json::Value::get` with a text: the member of an object under a key;
/// nothing where there is none or the value is no object.
#[verifier::external_body]
fn member<'a>(value: &'a serde_json::Value, key: &str) -> (r: Option<&'a serde_json::Value>)
    ensures
        (match r {
            Some(m) => Some(*m),
            None => None,
        }) == json_member(*value, key@),
{
    value.get(key)
}

/// `serde_json::Value::as_str`: the text of a JSON string.
#[verifier::external_body]
fn text_of(value: &serde_json::Value) -> (r: Option<String>)
    ensures
        text::view_opt(r) == json_text(*value),
{
    value.as_str().map(str::to_string)
}

/// `serde_json::Value::is_null`.
#[verifier::external_body]
fn is_null(value: &serde_json::Value) -> (r: bool)
    ensures
        r == json_null(*value),
{
    value.is_null()
}

/// What a package manifest says about its test runner.
#[derive(Debug)]
pub struct PackageInfo {
    pub scripts_test: Option<String>,
    pub deps: RunnerDeps,
    pub jest_key: bool,
}

/// A member of a member.
pub open spec fn json_inner(value: serde_json::Value, outer: Seq<char>, inner: Seq<char>) -> Option<serde_json::Value> {
    match json_member(value, outer) {
        Some(v) => json_member(v, inner),
        None => None,
    }
}

pub open spec fn declares(value: serde_json::Value, dep: Seq<char>) -> bool {
    json_inner(value, "devDependencies"@, dep) is Some || json_inner(value, "dependencies"@, dep) is Some
}

pub open spec fn test_script(value: serde_json::Value) -> Option<Seq<char>> {
    match json_inner(value, "scripts"@, "test"@) {
        Some(v) => json_text(v),
        None => None,
    }
}

pub open spec fn no_deps() -> RunnerDeps {
    RunnerDeps { vitest: false, jest: false, mocha: false, playwright: false }
}

pub open spec fn deps_in(value: serde_json::Value) -> RunnerDeps {
    RunnerDeps {
        vitest: declares(value, "vitest"@),
        jest: declares(value, "jest"@),
        mocha: declares(value, "mocha"@),
        playwright: declares(value, "@playwright/test"@),
    }
}

fn is_declared(value: &serde_json::Value, dep: &str) -> (r: bool)
    ensures
        r == declares(*value, dep@),
{
    let dev = match member(value, "devDependencies") {
        Some(v) => member(v, dep).is_some(),
        None => false,
    };
    let plain = match member(value, "dependencies") {
        Some(v) => member(v, dep).is_some(),
        None => false,
    };
    dev || plain
}

impl PackageInfo {
    /// A package about which nothing is known.
    pub fn unknown() -> (out: PackageInfo)
        ensures
            out.scripts_test is None,
            out.deps == no_deps(),
            !out.jest_key,
    {
        PackageInfo {
            scripts_test: None,
            deps: RunnerDeps { vitest: false, jest: false, mocha: false, playwright: false },
            jest_key: false,
        }
    }
}

/// Reads a package manifest. A malformed one still marks a package, about which
/// nothing is known.
pub fn package_info(manifest: &str) -> (out: PackageInfo)
    ensures
        match json_value(manifest@) {
            None => out.scripts_test is None && out.deps == no_deps() && !out.jest_key,
            Some(v) => {
                &&& text::view_opt(out.scripts_test) == test_script(v)
                &&& out.deps == deps_in(v)
                &&& out.jest_key == (json_member(v, "jest"@) matches Some(j) && !json_null(j))
            },
        },
{
    let v = match parse_json(manifest) {
        Some(v) => v,
        None => {
            return PackageInfo::unknown();
        },
    };
    let scripts_test = match member(&v, "scripts") {
        Some(s) => match member(s, "test") {
            Some(t) => text_of(t),
            None => None,
        },
        None => None,
    };
    let deps = RunnerDeps {
        vitest: is_declared(&v, "vitest"),
        jest: is_declared(&v, "jest"),
        mocha: is_declared(&v, "mocha"),
        playwright: is_declared(&v, "@playwright/test"),
    };
    let jest_key = match member(&v, "jest") {
        Some(j) => !is_null(j),
        None => false,
    };
    PackageInfo { scripts_test, deps, jest_key }
}

/// What a package says: by its test script, else by its dependencies, else by a
/// configuration of Jest.
pub open spec fn package_runner(p: PackageInfo) -> Option<JsRunner> {
    let scripted = match p.scripts_test {
        Some(s) => runner_from_segment(segments(s@), 0),
        None => None,
    };
    if scripted is Some {
        scripted
    } else if declared_runner(p.deps) is Some {
        declared_runner(p.deps)
    } else if p.jest_key {
        Some(JsRunner::Jest)
    } else {
        None
    }
}

fn runner_of_package(p: &PackageInfo) -> (out: Option<JsRunner>)
    ensures
        out == package_runner(*p),
{
    if let Some(s) = &p.scripts_test {
        if let Some(r) = runner_from_script(s.as_str()) {
            return Some(r);
        }
    }
    if let Some(r) = runner_from_deps(&p.deps) {
        return Some(r);
    }
    if p.jest_key {
        Some(JsRunner::Jest)
    } else {
        None
    }
}

/// What lies in a directory: its package, if it has one, and whether a
/// configuration of Vitest does.
#[derive(Debug)]
pub struct DirEvidence {
    pub dir: String,
    pub package: Option<PackageInfo>,
    pub vitest_config: bool,
}

/// What a directory says.
pub open spec fn directory_runner(d: DirEvidence) -> Option<JsRunner> {
    let said = match d.package {
        Some(p) => package_runner(p),
        None => None,
    };
    if said is Some {
        said
    } else if d.vitest_config {
        Some(JsRunner::Vitest)
    } else {
        None
    }
}

fn package_evidence(d: &DirEvidence) -> (out: Option<JsRunner>)
    ensures
        out == directory_runner(*d),
{
    if let Some(p) = &d.package {
        if let Some(r) = runner_of_package(p) {
            return Some(r);
        }
    }
    if d.vitest_config {
        Some(JsRunner::Vitest)
    } else {
        None
    }
}

/// The first directory from `i` on that is a package; the root stands for it
/// where none is.
pub open spec fn package_from(dirs: Seq<DirEvidence>, i: int) -> Seq<char>
    decreases dirs.len() - i,
{
    if i < 0 || i >= dirs.len() {
        ""@
    } else if dirs[i].package is Some {
        dirs[i].dir@
    } else {
        package_from(dirs, i + 1)
    }
}

/// The first directory from `i` on that names a runner. One without a package is
/// passed over, but for the root; one without evidence defers to what is around
/// it.
pub open spec fn evidence_from(dirs: Seq<DirEvidence>, i: int) -> Option<(Seq<char>, JsRunner)>
    decreases dirs.len() - i,
{
    if i < 0 || i >= dirs.len() {
        None
    } else if dirs[i].dir@.len() > 0 && dirs[i].package is None {
        evidence_from(dirs, i + 1)
    } else {
        match directory_runner(dirs[i]) {
            Some(r) => Some((dirs[i].dir@, r)),
            None => evidence_from(dirs, i + 1),
        }
    }
}

/// Where a test file is run from, and by which runner.
pub open spec fn resolved(path: Seq<char>, source: Option<Seq<char>>, dirs: Seq<DirEvidence>) -> Option<
    (Seq<char>, JsRunner),
> {
    if !crates::stays_below(imports::directory(path)) {
        None
    } else {
        let imported = match source {
            Some(s) => imported_runner(s, path),
            None => None,
        };
        match imported {
            Some(r) => Some((package_from(dirs, 0), r)),
            None => evidence_from(dirs, 0),
        }
    }
}

/// Where a test file is run from, and by which runner.
#[derive(Debug)]
pub struct RunnerChoice {
    pub dir: String,
    pub runner: JsRunner,
}

impl View for RunnerChoice {
    type V = (Seq<char>, JsRunner);

    open spec fn view(&self) -> (Seq<char>, JsRunner) {
        (self.dir@, self.runner)
    }
}

pub open spec fn choice_view(c: Option<RunnerChoice>) -> Option<(Seq<char>, JsRunner)> {
    match c {
        Some(c) => Some(c@),
        None => None,
    }
}

/// Decides how to run a test file. `dirs` is what lies in its directories, the
/// nearest first; `source` is its text, where it could be read.
pub fn resolve(path: &str, source: &Option<String>, dirs: &Vec<DirEvidence>) -> (out: Option<RunnerChoice>)
    ensures
        choice_view(out) == resolved(path@, text::view_opt(*source), dirs@),
{
    if !safe_relative_dir(directory_of(path)) {
        return None;
    }
    let imported = match source {
        Some(s) => runner_from_imports(s.as_str(), path),
        None => None,
    };
    if let Some(runner) = imported {
        let mut i: usize = 0;
        while i < dirs.len()
            invariant
                i <= dirs@.len(),
                package_from(dirs@, 0) == package_from(dirs@, i as int),
                resolved(path@, text::view_opt(*source), dirs@) == Some((package_from(dirs@, 0), runner)),
            decreases dirs@.len() - i,
        {
            if dirs[i].package.is_some() {
                return Some(RunnerChoice { dir: dirs[i].dir.clone(), runner });
            }
            i += 1;
        }
        return Some(RunnerChoice { dir: "".to_string(), runner });
    }
    let mut i: usize = 0;
    while i < dirs.len()
        invariant
            i <= dirs@.len(),
            evidence_from(dirs@, 0) == evidence_from(dirs@, i as int),
            resolved(path@, text::view_opt(*source), dirs@) == evidence_from(dirs@, 0),
        decreases dirs@.len() - i,
    {
        let d = &dirs[i];
        if d.dir.as_str().unicode_len() == 0 || d.package.is_some() {
            if let Some(runner) = package_evidence(d) {
                return Some(RunnerChoice { dir: d.dir.clone(), runner });
            }
        }
        i += 1;
    }
    None
}

// ---------------------------------------------------------------------------
// Commands
// ---------------------------------------------------------------------------

/// A test file, and how it is run where evidence says so.
#[derive(Debug)]
pub struct ResolvedTest {
    pub path: String,
    pub choice: Option<RunnerChoice>,
}

pub struct ResolvedView {
    pub path: Seq<char>,
    pub choice: Option<(Seq<char>, JsRunner)>,
}

impl View for ResolvedTest {
    type V = ResolvedView;

    open spec fn view(&self) -> ResolvedView {
        ResolvedView { path: self.path@, choice: choice_view(self.choice) }
    }
}

/// By directory, then by runner.
impl Ranked for RunnerChoice {
    open spec fn ahead(a: (Seq<char>, JsRunner), b: (Seq<char>, JsRunner)) -> bool {
        order::text_before(a.0, b.0) || (a.0 == b.0 && runner_place(a.1) < runner_place(b.1))
    }

    fn is_ahead(&self, other: &RunnerChoice) -> (r: bool) {
        before(self.dir.as_str(), other.dir.as_str()) || (same(self.dir.as_str(), other.dir.as_str())
            && self.runner.place() < other.runner.place())
    }

    proof fn ahead_is_asymmetric(a: (Seq<char>, JsRunner), b: (Seq<char>, JsRunner)) {
        assert(<RunnerChoice as Ranked>::ahead(a, b) == (order::text_before(a.0, b.0) || (a.0 == b.0 && runner_place(
            a.1,
        ) < runner_place(b.1))));
        order::lemma_text_before_irreflexive(a.0);
        if order::text_before(a.0, b.0) && order::text_before(b.0, a.0) {
            order::lemma_text_before_transitive(a.0, b.0, a.0);
        }
    }

    proof fn ahead_is_negatively_transitive(
        a: (Seq<char>, JsRunner),
        b: (Seq<char>, JsRunner),
        c: (Seq<char>, JsRunner),
    ) {
        order::lemma_text_before_total(a.0, b.0);
        order::lemma_text_before_total(b.0, c.0);
        order::lemma_text_before_irreflexive(a.0);
        if order::text_before(a.0, c.0) && a.0 != b.0 {
            order::lemma_text_before_transitive(b.0, a.0, c.0);
        }
        if a.0 == c.0 && a.0 != b.0 {
            order::lemma_text_before_transitive(b.0, a.0, b.0);
            order::lemma_text_before_irreflexive(b.0);
        }
    }
}

/// The choices that were made, each once in the order it was first made.
pub open spec fn choices(tests: Seq<ResolvedView>) -> Seq<(Seq<char>, JsRunner)>
    decreases tests.len(),
{
    if tests.len() == 0 {
        Seq::empty()
    } else {
        let front = choices(tests.drop_last());
        match tests.last().choice {
            Some(c) => if front.contains(c) {
                front
            } else {
                front.push(c)
            },
            None => front,
        }
    }
}

/// The test files of a choice, in order.
pub open spec fn chosen(tests: Seq<ResolvedView>, c: (Seq<char>, JsRunner)) -> Seq<Seq<char>>
    decreases tests.len(),
{
    if tests.len() == 0 {
        Seq::empty()
    } else {
        let front = chosen(tests.drop_last(), c);
        if tests.last().choice == Some(c) {
            front.push(tests.last().path)
        } else {
            front
        }
    }
}

/// The test files that nothing names a runner for.
pub open spec fn unchosen(tests: Seq<ResolvedView>) -> Seq<Seq<char>>
    decreases tests.len(),
{
    if tests.len() == 0 {
        Seq::empty()
    } else {
        let front = unchosen(tests.drop_last());
        if tests.last().choice is None {
            front.push(tests.last().path)
        } else {
            front
        }
    }
}

/// A path as seen from a directory.
pub open spec fn seen_from(dir: Seq<char>, path: Seq<char>) -> Seq<char> {
    if dir.len() == 0 {
        path
    } else {
        match text::after_prefix(path, dir + "/"@) {
            Some(rel) => rel,
            None => path,
        }
    }
}

/// One command for the test files of a choice. That of a nested package runs in
/// a subshell, so the caller's directory stays.
pub open spec fn choice_command(tests: Seq<ResolvedView>, c: (Seq<char>, JsRunner)) -> CommandView {
    let covers = order::sorted::<String>(chosen(tests, c));
    let run = invocation_text(c.1) + " "@ + text::joined(
        covers.map_values(|p: Seq<char>| runner_argument(c.1, seen_from(c.0, p))),
        " "@,
    );
    CommandView {
        command: if c.0.len() == 0 {
            run
        } else {
            "(cd "@ + shell::quoted(c.0) + " && "@ + run + ")"@
        },
        covers,
        framework: framework_text(c.1),
        source: SOURCE_CONVENTION@,
    }
}

fn choices_of(tests: &Vec<ResolvedTest>) -> (out: Vec<RunnerChoice>)
    ensures
        text::views(out@) == choices(text::views(tests@)),
{
    broadcast use text::group_views;
    let ghost all = text::views(tests@);
    let mut out: Vec<RunnerChoice> = Vec::new();
    let mut i: usize = 0;
    while i < tests.len()
        invariant
            i <= tests@.len(),
            all == text::views(tests@),
            text::views(out@) == choices(all.take(i as int)),
        decreases tests@.len() - i,
    {
        broadcast use text::group_views;
        proof {
            assert(all.take(i + 1).drop_last() =~= all.take(i as int));
            assert(all.take(i + 1).last() == tests@[i as int]@);
        }
        if let Some(c) = &tests[i].choice {
            let ghost made = text::views(out@);
            let mut known = false;
            let mut k: usize = 0;
            while k < out.len() && !known
                invariant
                    k <= out@.len(),
                    made == text::views(out@),
                    known ==> made.contains(c@),
                    !known ==> forall|j: int| 0 <= j < k ==> #[trigger] made[j] != c@,
                decreases out@.len() - k, (if known { 0int } else { 1 }),
            {
                broadcast use text::group_views;
                assert(made[k as int] == out@[k as int]@);
                if out[k].runner == c.runner && same(out[k].dir.as_str(), c.dir.as_str()) {
                    known = true;
                } else {
                    k += 1;
                }
            }
            if !known {
                out.push(RunnerChoice { dir: c.dir.clone(), runner: c.runner });
            }
        }
        i += 1;
    }
    assert(all.take(all.len() as int) =~= all);
    out
}

fn chosen_of(tests: &Vec<ResolvedTest>, c: &RunnerChoice) -> (out: Vec<String>)
    ensures
        text::views(out@) == chosen(text::views(tests@), c@),
{
    broadcast use text::group_views;
    let ghost all = text::views(tests@);
    let mut out: Vec<String> = Vec::new();
    let mut i: usize = 0;
    while i < tests.len()
        invariant
            i <= tests@.len(),
            all == text::views(tests@),
            text::views(out@) == chosen(all.take(i as int), c@),
        decreases tests@.len() - i,
    {
        broadcast use text::group_views;
        proof {
            assert(all.take(i + 1).drop_last() =~= all.take(i as int));
            assert(all.take(i + 1).last() == tests@[i as int]@);
        }
        let mine = match &tests[i].choice {
            Some(t) => t.runner == c.runner && same(t.dir.as_str(), c.dir.as_str()),
            None => false,
        };
        if mine {
            out.push(tests[i].path.clone());
        }
        i += 1;
    }
    assert(all.take(all.len() as int) =~= all);
    out
}

fn seen_from_of(dir: &str, path: &str) -> (out: String)
    ensures
        out@ == seen_from(dir@, path@),
{
    if dir.unicode_len() == 0 {
        return path.to_string();
    }
    match strip_prefix(path, concat2(dir, "/").as_str()) {
        Some(rel) => rel.to_string(),
        None => path.to_string(),
    }
}

fn run_choice(tests: &Vec<ResolvedTest>, c: &RunnerChoice) -> (out: TestCommand)
    ensures
        out@ == choice_command(text::views(tests@), c@),
{
    broadcast use text::group_views;
    let covers = sort(chosen_of(tests, c));
    let ghost all = text::views(covers@).map_values(|p: Seq<char>| runner_argument(c@.1, seen_from(c@.0, p)));
    let mut args: Vec<String> = Vec::new();
    let mut i: usize = 0;
    while i < covers.len()
        invariant
            i <= covers@.len(),
            all == text::views(covers@).map_values(|p: Seq<char>| runner_argument(c@.1, seen_from(c@.0, p))),
            text::views(args@) == all.take(i as int),
        decreases covers@.len() - i,
    {
        broadcast use text::group_views;
        assert(all.take(i + 1) =~= all.take(i as int).push(all[i as int]));
        let rel = seen_from_of(c.dir.as_str(), covers[i].as_str());
        args.push(c.runner.arg(rel.as_str()));
        i += 1;
    }
    assert(all.take(all.len() as int) =~= all);
    let run = concat3(c.runner.invocation(), " ", join(&args, " ").as_str());
    let line = if c.dir.as_str().unicode_len() == 0 {
        run
    } else {
        concat5("(cd ", shell_quote(c.dir.as_str()).as_str(), " && ", run.as_str(), ")")
    };
    command(line, covers, c.runner.framework(), SOURCE_CONVENTION)
}

/// The commands for some test files, one per directory and runner, and the files
/// that nothing names a runner for.
pub fn runner_commands(tests: &Vec<ResolvedTest>) -> (out: (Vec<TestCommand>, Vec<String>))
    ensures
        ({
            let ts = text::views(tests@);
            &&& text::views(out.0@) == order::sorted::<RunnerChoice>(choices(ts)).map_values(
                |c: (Seq<char>, JsRunner)| choice_command(ts, c),
            )
            &&& text::views(out.1@) == unchosen(ts)
        }),
{
    broadcast use text::group_views;
    let ghost ts = text::views(tests@);
    let keys = sort(choices_of(tests));
    let ghost ks = text::views(keys@);
    let ghost want = ks.map_values(|c: (Seq<char>, JsRunner)| choice_command(ts, c));
    let mut commands: Vec<TestCommand> = Vec::new();
    let mut i: usize = 0;
    while i < keys.len()
        invariant
            i <= keys@.len(),
            ts == text::views(tests@),
            ks == text::views(keys@),
            want == ks.map_values(|c: (Seq<char>, JsRunner)| choice_command(ts, c)),
            text::views(commands@) == want.take(i as int),
        decreases keys@.len() - i,
    {
        broadcast use text::group_views;
        assert(want.take(i + 1) =~= want.take(i as int).push(want[i as int]));
        commands.push(run_choice(tests, &keys[i]));
        i += 1;
    }
    assert(want.take(want.len() as int) =~= want);
    let mut left: Vec<String> = Vec::new();
    let mut i: usize = 0;
    while i < tests.len()
        invariant
            i <= tests@.len(),
            ts == text::views(tests@),
            text::views(left@) == unchosen(ts.take(i as int)),
        decreases tests@.len() - i,
    {
        broadcast use text::group_views;
        proof {
            assert(ts.take(i + 1).drop_last() =~= ts.take(i as int));
            assert(ts.take(i + 1).last() == tests@[i as int]@);
        }
        if tests[i].choice.is_none() {
            left.push(tests[i].path.clone());
        }
        i += 1;
    }
    assert(ts.take(ts.len() as int) =~= ts);
    (commands, left)
}

/// What is said of test files that nothing names a runner for.
pub open spec fn unresolved_text(paths: Seq<Seq<char>>) -> Seq<char> {
    let list = if paths.len() > NOTE_PATH_CAP {
        text::joined(paths.take(NOTE_PATH_CAP as int), ", "@) + " and "@ + text::decimal(
            (paths.len() - NOTE_PATH_CAP) as nat,
        ) + " more"@
    } else {
        text::joined(paths, ", "@)
    };
    "no JavaScript/TypeScript test runner named for "@ + list
        + ": no runner import, `package.json` `scripts.test`, runner dependency, `jest` key, or vitest config names one, so no command was emitted"@
}

/// Names the first test files that nothing names a runner for.
pub fn unresolved_note(paths: &Vec<String>) -> (out: String)
    ensures
        out@ == unresolved_text(text::views(paths@)),
{
    broadcast use text::group_views;
    let ghost all = text::views(paths@);
    let n: usize = paths.len();
    let shown_len: usize = if n > NOTE_PATH_CAP {
        NOTE_PATH_CAP
    } else {
        n
    };
    let mut shown: Vec<String> = Vec::new();
    let mut i: usize = 0;
    while i < shown_len
        invariant
            i <= shown_len <= paths@.len(),
            all == text::views(paths@),
            text::views(shown@) == all.take(i as int),
        decreases shown_len - i,
    {
        broadcast use text::group_views;
        assert(all.take(i + 1) =~= all.take(i as int).push(all[i as int]));
        shown.push(paths[i].clone());
        i += 1;
    }
    let first = join(&shown, ", ");
    let list = if n > NOTE_PATH_CAP {
        concat4(first.as_str(), " and ", decimal_of((n - NOTE_PATH_CAP) as u64).as_str(), " more")
    } else {
        assert(all.take(n as int) =~= all);
        first
    };
    concat3(
        "no JavaScript/TypeScript test runner named for ",
        list.as_str(),
        ": no runner import, `package.json` `scripts.test`, runner dependency, `jest` key, or vitest config names one, so no command was emitted",
    )
}

/// Every test file is in exactly one place: a command covers it, or it is left.
pub proof fn law_every_test_is_run_or_left(tests: Seq<ResolvedView>, i: int)
    requires
        0 <= i < tests.len(),
    ensures
        match tests[i].choice {
            Some(c) => choices(tests).contains(c) && chosen(tests, c).contains(tests[i].path),
            None => unchosen(tests).contains(tests[i].path),
        },
    decreases tests.len(),
{
    let front = tests.drop_last();
    if i < front.len() {
        law_every_test_is_run_or_left(front, i);
        match tests[i].choice {
            Some(c) => {
                let a = choose|a: int| 0 <= a < choices(front).len() && choices(front)[a] == c;
                assert(choices(tests)[a] == c);
                let b = choose|b: int| 0 <= b < chosen(front, c).len() && chosen(front, c)[b] == tests[i].path;
                assert(chosen(tests, c)[b] == tests[i].path);
            },
            None => {
                let b = choose|b: int| 0 <= b < unchosen(front).len() && unchosen(front)[b] == tests[i].path;
                assert(unchosen(tests)[b] == tests[i].path);
            },
        }
    } else {
        match tests[i].choice {
            Some(c) => {
                assert(chosen(tests, c).last() == tests[i].path);
                if !choices(front).contains(c) {
                    assert(choices(tests).last() == c);
                }
            },
            None => {
                assert(unchosen(tests).last() == tests[i].path);
            },
        }
    }
}

} // verus!
