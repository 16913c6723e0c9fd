//! Which commands run the tests.
use vstd::prelude::*;
use crate::history::commands;
use crate::history::commands::CommandView;
use crate::history::conventions;
use crate::history::conventions::{Family, RootFiles, RustEntryView};
use crate::history::crates;
use crate::history::crates::{CrateView, DirPackageView};
use crate::history::inline_tests;
use crate::history::inline_tests::{ChangedFile, FeatureHit, FoundView, TestModuleView};
use crate::history::js_runner;
use crate::history::js_runner::{DirEvidence, JsRunner, PackageInfo, RunnerDeps};
use crate::history::shell;
use crate::imports;
use crate::laws::{sorting, words};
use crate::model::Symbol;
use crate::order;
use crate::text;

verus! {

// ---------------------------------------------------------------------------
// Quoting
// ---------------------------------------------------------------------------

/// A character needs no quotes where it is a letter, a digit or one of these
/// signs; nothing that a shell treats specially is among them.
pub proof fn law_plain_characters_mean_nothing_to_a_shell(c: char)
    ensures
        shell::plain(c) <==> ('a' <= c && c <= 'z') || ('A' <= c && c <= 'Z') || ('0' <= c && c <= '9') || c == '_' || c
            == '.' || c == '/' || c == ':' || c == '@' || c == '%' || c == '+' || c == '=' || c == ',' || c == '-',
        c == ' ' || c == '\'' || c == '"' || c == '$' || c == '`' || c == '\\' || c == ';' || c == '|' || c == '&' || c
            == '(' || c == ')' || c == '<' || c == '>' || c == '*' || c == '?' || c == '#' || c == '~' || c == '!' || c
            == '\n' ==> !shell::plain(c),
{
}

/// A token of plain characters stays as it is; any other stands between quotes.
pub proof fn law_other_tokens_stand_between_quotes(token: Seq<char>)
    ensures
        token.len() > 0 && (forall|i: int| 0 <= i < token.len() ==> shell::plain(#[trigger] token[i]))
            ==> shell::quoted(token) == token,
        token.len() == 0 || (exists|i: int| 0 <= i < token.len() && !shell::plain(#[trigger] token[i]))
            ==> shell::quoted(token) == "'"@ + text::substituted(token, "'"@, "'\\''"@) + "'"@,
        token.len() > 0 && token[0] == '-' ==> shell::argument(token) == shell::quoted("./"@ + token)
            && !shell::safe_name(token),
        token.len() > 0 && token[0] != '-' ==> shell::argument(token) == shell::quoted(token) && shell::safe_name(token),
{
    reveal_strlit("-");
    if token.len() > 0 {
        assert(token.subrange(0, 1)[0] == token[0]);
        assert("-"@[0] == '-');
        if token[0] == '-' {
            assert(token.subrange(0, 1) =~= "-"@);
        }
    }
}

// ---------------------------------------------------------------------------
// Merging
// ---------------------------------------------------------------------------

/// Of two commands of one text the more specific source is told: a feature before
/// an inline test, and that before a convention. What both cover is covered.
pub proof fn law_the_more_specific_source_is_told(a: CommandView, b: CommandView, x: Seq<char>)
    ensures
        a.source == "feature_test_command"@ ==> commands::combined(a, b).source == a.source,
        a.source == "inline"@ && b.source == "feature_test_command"@ ==> commands::combined(a, b).source == b.source,
        a.source == "inline"@ && b.source == "convention"@ ==> commands::combined(a, b).source == a.source,
        a.source == "convention"@ && b.source == "inline"@ ==> commands::combined(a, b).source == b.source,
        a.source == "convention"@ && b.source == "feature_test_command"@ ==> commands::combined(a, b).source == b.source,
        commands::combined(a, b).covers.contains(x) <==> a.covers.contains(x) || b.covers.contains(x),
        commands::combined(a, b).command == a.command,
{
    reveal_strlit("feature_test_command");
    reveal_strlit("inline");
    reveal_strlit("convention");
    assert("feature_test_command"@.len() == 20 && "inline"@.len() == 6 && "convention"@.len() == 10);
    let all = a.covers + b.covers;
    order::lemma_ascending_set_holds(all);
    assert(order::ascending_set(all).contains(x) <==> all.contains(x));
    if a.covers.contains(x) {
        let i = choose|i: int| 0 <= i < a.covers.len() && a.covers[i] == x;
        assert(all[i] == x);
    }
    if b.covers.contains(x) {
        let i = choose|i: int| 0 <= i < b.covers.len() && b.covers[i] == x;
        assert(all[a.covers.len() + i] == x);
    }
    if all.contains(x) {
        let i = choose|i: int| 0 <= i < all.len() && all[i] == x;
        if i < a.covers.len() {
            assert(a.covers[i] == x);
        } else {
            assert(b.covers[i - a.covers.len()] == x);
        }
    }
}

proof fn lemma_place(list: Seq<CommandView>, command: Seq<char>)
    ensures
        match commands::place_of(list, command) {
            Some(i) => 0 <= i < list.len() && list[i].command == command,
            None => forall|i: int| 0 <= i < list.len() ==> (#[trigger] list[i]).command != command,
        },
    decreases list.len(),
{
    if list.len() > 0 {
        let less = list.drop_last();
        lemma_place(less, command);
        assert(list[list.len() - 1] == list.last());
        if commands::place_of(less, command) is None {
            assert forall|i: int|
                0 <= i < list.len() - 1 implies (#[trigger] list[i]).command != command by {
                assert(less[i] == list[i]);
            }
        }
    }
}

/// A command is added behind the others, or joined with the one of its text.
pub proof fn law_a_command_joins_the_one_of_its_text(list: Seq<CommandView>, c: CommandView)
    ensures
        (forall|i: int| 0 <= i < list.len() ==> (#[trigger] list[i]).command != c.command) ==> commands::with_command(
            list,
            c,
        ) == list.push(c),
        (exists|i: int| 0 <= i < list.len() && (#[trigger] list[i]).command == c.command) ==> commands::with_command(
            list,
            c,
        ).len() == list.len(),
        exists|i: int|
            0 <= i < commands::with_command(list, c).len() && (#[trigger] commands::with_command(list, c)[i]).command
                == c.command,
{
    lemma_place(list, c.command);
    let out = commands::with_command(list, c);
    match commands::place_of(list, c.command) {
        Some(i) => {
            assert(out[i].command == c.command);
        },
        None => {
            assert(out[list.len() as int] == c);
        },
    }
}

// ---------------------------------------------------------------------------
// Conventions
// ---------------------------------------------------------------------------

/// The family of a file is that of its extension.
pub proof fn law_an_extension_tells_the_family()
    ensures
        conventions::family_of_extension("rs"@) == Family::Rust,
        conventions::family_of_extension("py"@) == Family::Python,
        conventions::family_of_extension("php"@) == Family::Php,
        conventions::family_of_extension("phpt"@) == Family::Phpt,
        conventions::family_of_extension("go"@) == Family::Go,
        conventions::family_of_extension("java"@) == Family::Java,
        conventions::family_of_extension("js"@) == Family::Js,
        conventions::family_of_extension("jsx"@) == Family::Js,
        conventions::family_of_extension("ts"@) == Family::Js,
        conventions::family_of_extension("tsx"@) == Family::Js,
        conventions::family_of_extension("mjs"@) == Family::Js,
        conventions::family_of_extension("cjs"@) == Family::Js,
        conventions::family_of_extension("mts"@) == Family::Js,
        conventions::family_of_extension("cts"@) == Family::Js,
        forall|e: Seq<char>| #[trigger]
            conventions::family_of_extension(e) != Family::Unknown ==> e == "rs"@ || e == "py"@ || e == "php"@ || e
                == "phpt"@ || e == "go"@ || e == "java"@ || e == "js"@ || e == "jsx"@ || e == "ts"@ || e == "tsx"@ || e
                == "mjs"@ || e == "cjs"@ || e == "mts"@ || e == "cts"@,
{
    reveal_strlit("rs");
    reveal_strlit("py");
    reveal_strlit("php");
    reveal_strlit("phpt");
    reveal_strlit("go");
    reveal_strlit("java");
    reveal_strlit("js");
    reveal_strlit("jsx");
    reveal_strlit("ts");
    reveal_strlit("tsx");
    reveal_strlit("mjs");
    reveal_strlit("cjs");
    reveal_strlit("mts");
    reveal_strlit("cts");
    assert("rs"@[0] == 'r' && "py"@[0] == 'p' && "go"@[0] == 'g' && "js"@[0] == 'j' && "ts"@[0] == 't');
    assert("php"@[0] == 'p' && "jsx"@[0] == 'j' && "tsx"@[0] == 't' && "mjs"@[0] == 'm' && "cjs"@[0] == 'c' && "mts"@[0]
        == 'm' && "cts"@[0] == 'c' && "mts"@[1] == 't' && "mjs"@[1] == 'j');
    assert("phpt"@[0] == 'p' && "java"@[0] == 'j');
    assert("php"@.len() == 3 && "phpt"@.len() == 4 && "java"@.len() == 4 && "rs"@.len() == 2);
}

/// One command runs all files of a family: it covers each of them, and nothing
/// else.
pub proof fn law_one_command_runs_all_files_of_a_family(runner: Seq<char>, files: Seq<Seq<char>>, framework: Seq<char>)
    ensures
        files.len() == 0 ==> conventions::one_for_all(runner, files, framework).len() == 0,
        files.len() > 0 ==> {
            let c = conventions::one_for_all(runner, files, framework);
            &&& c.len() == 1
            &&& c[0].covers.len() == files.len()
            &&& forall|x: Seq<char>| #[trigger] c[0].covers.contains(x) <==> files.contains(x)
            &&& c[0].framework == framework
            &&& c[0].source == "convention"@
            &&& c[0].command == runner + " "@ + shell::arguments(c[0].covers)
        },
{
    sorting::law_sorting_keeps_what_is_listed::<String>(files);
}

/// A test file goes to the commands of its family.
pub proof fn law_a_test_file_goes_to_its_family(files: Seq<Seq<char>>, f: Family, x: Seq<char>)
    ensures
        conventions::of_family(files, f).contains(x) <==> files.contains(x) && conventions::family(x) == f,
{
    broadcast use {vstd::seq_lib::group_filter_ensures, vstd::seq::Seq::lemma_filter_contains_rev};

    let mine = conventions::of_family(files, f);
    if mine.contains(x) {
        let i = choose|i: int| 0 <= i < mine.len() && mine[i] == x;
        assert(conventions::family(mine[i]) == f);
    }
    if files.contains(x) && conventions::family(x) == f {
        let i = choose|i: int| 0 <= i < files.len() && files[i] == x;
        assert(mine.contains(files[i]));
    }
}

/// What lies at the root chooses the runner: artisan over PHPUnit, Vitest over
/// Jest, and Gradle over Maven only where there is no `pom.xml`.
pub proof fn law_the_root_chooses_the_runner(files: Seq<Seq<char>>, withheld: Seq<Seq<char>>, root: RootFiles)
    ensures
        root.artisan ==> conventions::php_part(files, withheld, root) == conventions::one_for_all(
            "php artisan test"@,
            conventions::of_family(files, Family::Php),
            "artisan"@,
        ) + conventions::phpt_commands(conventions::of_family(files, Family::Phpt), withheld),
        !root.artisan ==> conventions::php_part(files, withheld, root) == conventions::one_for_all(
            "vendor/bin/phpunit"@,
            conventions::of_family(files, Family::Php),
            "phpunit"@,
        ) + conventions::phpt_commands(conventions::of_family(files, Family::Phpt), withheld),
        root.vitest ==> conventions::js_part(files, root) == conventions::one_for_all(
            "npx vitest run"@,
            conventions::of_family(files, Family::Js),
            "vitest"@,
        ),
        !root.vitest ==> conventions::js_part(files, root) == conventions::one_for_all(
            "npx jest"@,
            conventions::of_family(files, Family::Js),
            "jest"@,
        ),
        conventions::java_commands(files, root).len() > 0 ==> {
            &&& root.gradle && !root.pom ==> conventions::java_commands(files, root)[0].framework == "gradle"@
            &&& root.pom || !root.gradle ==> conventions::java_commands(files, root)[0].framework == "maven"@
        },
{
}

/// The tests of a package run target by target up to three targets, and all at
/// once beyond.
pub proof fn law_a_package_of_many_targets_runs_whole(es: Seq<RustEntryView>)
    requires
        es.len() > 0,
    ensures
        conventions::with_target(es) > 3 ==> conventions::package_commands(es).len() == 1
            && conventions::package_commands(es)[0].command == "cargo test"@ + crates::package_flag_text(es[0].krate)
            && conventions::package_commands(es)[0].covers.len() == es.len(),
        conventions::with_target(es) <= 3 ==> conventions::package_commands(es).len() == es.len() && forall|i: int|
            0 <= i < es.len() ==> (#[trigger] conventions::package_commands(es)[i]).covers == seq![es[i].path],
        conventions::with_target(es) <= 3 ==> forall|i: int|
            0 <= i < es.len() ==> (es[i].target matches Some(t) ==> (#[trigger] conventions::package_commands(
                es,
            )[i]).command == "cargo test"@ + crates::package_flag_text(es[0].krate) + " --test "@ + shell::quoted(t)),
{
}

/// A Go test runs by its directory, taken from here.
pub proof fn law_go_tests_run_by_directory(path: Seq<char>)
    ensures
        imports::directory(path).len() == 0 ==> conventions::go_directory(path) == "."@,
        imports::directory(path).len() > 0 ==> conventions::go_directory(path) == "./"@ + imports::directory(path),
{
}

/// A directory of `.phpt` tests is run by its suite, with the tests that were
/// asked for in it, or else as a whole.
pub proof fn law_a_directory_of_phpt_tests_is_run(files: Seq<Seq<char>>, dir: Seq<char>, x: Seq<char>)
    ensures
        ({
            let c = conventions::phpt_command(files, dir);
            let target = if dir.len() == 0 {
                "."@
            } else {
                dir
            };
            &&& c.command == "php run-tests.php "@ + shell::argument(target)
            &&& c.framework == "run-tests"@
            &&& (exists|k: int| 0 <= k < files.len() && imports::directory(#[trigger] files[k]) == dir) ==> (
            c.covers.contains(x) <==> files.contains(x) && imports::directory(x) == dir)
            &&& (forall|k: int| 0 <= k < files.len() ==> imports::directory(#[trigger] files[k]) != dir)
                ==> c.covers == seq![target]
        }),
{
    let mine = conventions::inside(files, dir);
    lemma_inside(files, dir, x);
    sorting::law_sorting_keeps_what_is_listed::<String>(mine);
    if exists|k: int| 0 <= k < files.len() && imports::directory(#[trigger] files[k]) == dir {
        let k = choose|k: int| 0 <= k < files.len() && imports::directory(#[trigger] files[k]) == dir;
        lemma_inside(files, dir, files[k]);
        assert(files.contains(files[k]));
        assert(mine.contains(files[k]));
    }
    if forall|k: int| 0 <= k < files.len() ==> imports::directory(#[trigger] files[k]) != dir {
        if mine.len() > 0 {
            lemma_inside(files, dir, mine[0]);
            assert(mine.contains(mine[0]));
            let k = choose|k: int| 0 <= k < files.len() && files[k] == mine[0];
            assert(imports::directory(files[k]) != dir);
        }
        let one = seq![if dir.len() == 0 {
            "."@
        } else {
            dir
        }];
        reveal_with_fuel(order::sorted, 2);
        assert(one.drop_last() =~= Seq::<Seq<char>>::empty());
        assert(order::sorted::<String>(one) =~= one);
    }
}

proof fn lemma_inside(files: Seq<Seq<char>>, dir: Seq<char>, x: Seq<char>)
    ensures
        conventions::inside(files, dir).contains(x) <==> files.contains(x) && imports::directory(x) == dir,
    decreases files.len(),
{
    reveal(Seq::filter);
    if files.len() > 0 {
        let less = files.drop_last();
        lemma_inside(less, dir, x);
        let front = conventions::inside(less, dir);
        let all = conventions::inside(files, dir);
        if front.contains(x) {
            let i = choose|i: int| 0 <= i < front.len() && front[i] == x;
            assert(all[i] == x);
        }
        if imports::directory(files.last()) == dir {
            assert(all[front.len() as int] == files.last());
        }
        if all.contains(x) {
            let i = choose|i: int| 0 <= i < all.len() && all[i] == x;
            if i < front.len() {
                assert(front[i] == x);
            }
        }
        assert(files[files.len() - 1] == files.last());
        if less.contains(x) {
            let i = choose|i: int| 0 <= i < less.len() && less[i] == x;
            assert(files[i] == x);
        }
        if files.contains(x) && x != files.last() {
            let i = choose|i: int| 0 <= i < files.len() && files[i] == x;
            assert(less[i] == x);
        }
    }
}

/// A name that begins with a dash is left out of a command, and that is said.
pub proof fn law_a_dashed_name_is_left_out_and_said(names: Seq<Seq<char>>, n: Seq<char>)
    ensures
        shell::safe_name(n) ==> conventions::class_notes(names.push(n)) == conventions::class_notes(names),
        !shell::safe_name(n) ==> conventions::class_notes(names.push(n)) == conventions::class_notes(names).push(
            shell::dropped("Java test class"@, n),
        ),
{
    assert(names.push(n).drop_last() =~= names);
}

// ---------------------------------------------------------------------------
// Crates
// ---------------------------------------------------------------------------

/// A file of the `tests` directory of a crate is a target of its name, and so is
/// the `main.rs` of a directory there.
pub proof fn law_a_file_of_tests_is_a_target(k: CrateView, name: Seq<char>)
    requires
        k.dir.len() > 0,
        name.len() > 0,
        !name.contains('/'),
    ensures
        crates::integration_target(k, k.dir + "/"@ + "tests"@ + "/"@ + (name + "/main.rs"@)) == Some(name),
        !text::ends_with(name + ".rs"@, "/main.rs"@) ==> crates::integration_target(
            k,
            k.dir + "/"@ + "tests"@ + "/"@ + (name + ".rs"@),
        ) == Some(name),
{
    let head = k.dir + "/"@ + "tests"@ + "/"@;
    lemma_target(k, head, name);
    lemma_no_slash(name);
    lemma_main(k, head + (name + "/main.rs"@), name);
    if !text::ends_with(name + ".rs"@, "/main.rs"@) {
        lemma_rust_file(name);
        lemma_file(k, head + (name + ".rs"@), name + ".rs"@, name);
    }
}

proof fn lemma_main(k: CrateView, path: Seq<char>, name: Seq<char>)
    requires
        crates::rest_below(k, path, "tests"@) == Some(name + "/main.rs"@),
        !text::contains(name, "/"@),
    ensures
        crates::integration_target(k, path) == Some(name),
{
    words::law_a_text_begins_and_ends_with_its_parts(name, "/main.rs"@, Seq::empty());
}

proof fn lemma_file(k: CrateView, path: Seq<char>, rest: Seq<char>, name: Seq<char>)
    requires
        crates::rest_below(k, path, "tests"@) == Some(rest),
        text::before_suffix(rest, "/main.rs"@) is None,
        text::before_suffix(rest, ".rs"@) == Some(name),
        !text::contains(rest, "/"@),
    ensures
        crates::integration_target(k, path) == Some(name),
{
}

proof fn lemma_rust_file(name: Seq<char>)
    requires
        !name.contains('/'),
    ensures
        text::before_suffix(name + ".rs"@, ".rs"@) == Some(name),
        !text::contains(name + ".rs"@, "/"@),
{
    assert(!".rs"@.contains('/')) by {
        reveal_strlit(".rs");
    }
    assert(text::before_suffix(name + ".rs"@, ".rs"@) == Some(name)) by {
        words::law_a_text_begins_and_ends_with_its_parts(name, ".rs"@, Seq::empty());
    }
    words::lemma_neither_holds(name, ".rs"@, '/');
    lemma_no_slash(name + ".rs"@);
}

proof fn lemma_no_slash(s: Seq<char>)
    requires
        !s.contains('/'),
    ensures
        !text::contains(s, "/"@),
{
    reveal_strlit("/");
    if text::contains(s, "/"@) {
        let i = choose|i: int| text::occurs_at(s, "/"@, i);
        assert(s.subrange(i, i + 1)[0] == "/"@[0]);
        assert(s[i] == '/');
    }
}

proof fn lemma_target(k: CrateView, head: Seq<char>, name: Seq<char>)
    requires
        k.dir.len() > 0,
        head == k.dir + "/"@ + "tests"@ + "/"@,
    ensures
        crates::rest_below(k, head + (name + "/main.rs"@), "tests"@) == Some(name + "/main.rs"@),
        crates::rest_below(k, head + (name + ".rs"@), "tests"@) == Some(name + ".rs"@),
{
    words::law_a_text_begins_and_ends_with_its_parts(head, name + "/main.rs"@, Seq::empty());
    words::law_a_text_begins_and_ends_with_its_parts(head, name + ".rs"@, Seq::empty());
}

/// A package is named in a command by `-p`; without a name there is no flag.
pub proof fn law_a_package_is_named_by_its_flag(dir: Seq<char>, name: Seq<char>)
    ensures
        crates::package_flag_text(CrateView { dir, name: Some(name) }) == " -p "@ + shell::quoted(name),
        crates::package_flag_text(CrateView { dir, name: None }) == ""@,
{
}

/// The crate of a file is the nearest package above it.
pub proof fn law_the_nearest_package_owns_a_file(packages: Seq<DirPackageView>, dir: Seq<char>, name: Seq<char>)
    ensures
        crates::package_at(packages, dir) == Some(name) ==> crates::nearest(packages, dir) == Some(
            CrateView { dir, name: Some(name) },
        ),
        crates::package_at(packages, dir) is None && dir.len() == 0 ==> crates::nearest(packages, dir) is None,
        crates::package_at(packages, dir) is None && dir.len() > 0 && imports::directory(dir).len() < dir.len()
            ==> crates::nearest(packages, dir) == crates::nearest(packages, imports::directory(dir)),
{
}

/// A directory stays below the root where it is relative and never climbs.
pub proof fn law_a_directory_below_the_root_never_climbs(dir: Seq<char>)
    ensures
        crates::stays_below(dir) <==> !(dir.len() > 0 && dir[0] == '/') && !text::pieces(dir, '/').contains(".."@),
{
}

/// The name of a package stands in its own section of the manifest.
pub proof fn law_a_package_is_named_in_its_section(lines: Seq<Seq<char>>, i: int, within: bool)
    requires
        0 <= i < lines.len(),
    ensures
        ({
            let line = text::trimmed(lines[i]);
            &&& text::starts_with(line, "["@) && line == "[package]"@ ==> crates::name_from(lines, i, within)
                == crates::name_from(lines, i + 1, true)
            &&& text::starts_with(line, "["@) && line != "[package]"@ ==> crates::name_from(lines, i, within)
                == crates::name_from(lines, i + 1, false)
            &&& !text::starts_with(line, "["@) && within && crates::name_value(line) is Some ==> crates::name_from(
                lines,
                i,
                within,
            ) == crates::name_value(line)
            &&& !text::starts_with(line, "["@) && !within ==> crates::name_from(lines, i, within) == crates::name_from(
                lines,
                i + 1,
                false,
            )
        }),
{
}

// ---------------------------------------------------------------------------
// JavaScript
// ---------------------------------------------------------------------------

/// How each runner is called and what it is called.
pub proof fn law_each_runner_has_its_command()
    ensures
        js_runner::invocation_text(JsRunner::Vitest) == "npx vitest run"@,
        js_runner::invocation_text(JsRunner::Jest) == "npx jest"@,
        js_runner::invocation_text(JsRunner::Mocha) == "npx mocha"@,
        js_runner::invocation_text(JsRunner::NodeTest) == "node --test"@,
        js_runner::invocation_text(JsRunner::Bun) == "bun test"@,
        js_runner::invocation_text(JsRunner::Playwright) == "npx playwright test"@,
        js_runner::framework_text(JsRunner::Vitest) == "vitest"@,
        js_runner::framework_text(JsRunner::Jest) == "jest"@,
        js_runner::framework_text(JsRunner::Mocha) == "mocha"@,
        js_runner::framework_text(JsRunner::NodeTest) == "node:test"@,
        js_runner::framework_text(JsRunner::Bun) == "bun"@,
        js_runner::framework_text(JsRunner::Playwright) == "playwright"@,
{
}

/// Dependencies name a runner where exactly one of Vitest, Jest and Mocha is
/// declared; Playwright counts where none of them is.
pub proof fn law_a_single_dependency_names_the_runner(d: RunnerDeps)
    ensures
        d.vitest && !d.jest && !d.mocha ==> js_runner::declared_runner(d) == Some(JsRunner::Vitest),
        d.jest && !d.vitest && !d.mocha ==> js_runner::declared_runner(d) == Some(JsRunner::Jest),
        d.mocha && !d.vitest && !d.jest ==> js_runner::declared_runner(d) == Some(JsRunner::Mocha),
        !d.mocha && !d.vitest && !d.jest && d.playwright ==> js_runner::declared_runner(d) == Some(JsRunner::Playwright),
        !d.mocha && !d.vitest && !d.jest && !d.playwright ==> js_runner::declared_runner(d) is None,
        d.vitest && d.jest || d.vitest && d.mocha || d.jest && d.mocha ==> js_runner::declared_runner(d) is None,
{
}

/// The test script names the runner before the dependencies do, these before a
/// Jest key, and that before a Vitest configuration.
pub proof fn law_the_test_script_names_the_runner_first(p: PackageInfo, d: DirEvidence)
    ensures
        ({
            let scripted = match p.scripts_test {
                Some(s) => js_runner::runner_from_segment(js_runner::segments(s@), 0),
                None => None,
            };
            &&& scripted is Some ==> js_runner::package_runner(p) == scripted
            &&& scripted is None && js_runner::declared_runner(p.deps) is Some ==> js_runner::package_runner(p)
                == js_runner::declared_runner(p.deps)
            &&& scripted is None && js_runner::declared_runner(p.deps) is None && p.jest_key
                ==> js_runner::package_runner(p) == Some(JsRunner::Jest)
            &&& scripted is None && js_runner::declared_runner(p.deps) is None && !p.jest_key
                ==> js_runner::package_runner(p) is None
        }),
        (d.package matches Some(q) && js_runner::package_runner(q) is Some) ==> js_runner::directory_runner(d)
            == js_runner::package_runner(d.package->0),
        d.package is None && d.vitest_config ==> js_runner::directory_runner(d) == Some(JsRunner::Vitest),
        d.package is None && !d.vitest_config ==> js_runner::directory_runner(d) is None,
        (d.package matches Some(q) && js_runner::package_runner(q) is None) ==> js_runner::directory_runner(d) == (
        if d.vitest_config {
            Some(JsRunner::Vitest)
        } else {
            None
        }),
{
}

/// An import of a runner decides before anything else; Node's only in plain
/// JavaScript.
pub proof fn law_an_import_of_a_runner_decides(s: Seq<char>, path: Seq<char>)
    ensures
        js_runner::plain_js(path) && js_runner::imports(s, "node:test"@) ==> js_runner::imported_runner(s, path) == Some(
            JsRunner::NodeTest,
        ),
        !js_runner::imports(s, "node:test"@) && js_runner::imports(s, "bun:test"@) ==> js_runner::imported_runner(
            s,
            path,
        ) == Some(JsRunner::Bun),
        !js_runner::imports(s, "node:test"@) && !js_runner::imports(s, "bun:test"@) && js_runner::imports(
            s,
            "@playwright/test"@,
        ) ==> js_runner::imported_runner(s, path) == Some(JsRunner::Playwright),
        !js_runner::imports(s, "node:test"@) && !js_runner::imports(s, "bun:test"@) && !js_runner::imports(
            s,
            "@playwright/test"@,
        ) && js_runner::imports(s, "vitest"@) ==> js_runner::imported_runner(s, path) == Some(JsRunner::Vitest),
        !js_runner::imports(s, "node:test"@) && !js_runner::imports(s, "bun:test"@) && !js_runner::imports(
            s,
            "@playwright/test"@,
        ) && !js_runner::imports(s, "vitest"@) && js_runner::imports(s, "@jest/globals"@) ==> js_runner::imported_runner(
            s,
            path,
        ) == Some(JsRunner::Jest),
        !js_runner::plain_js(path) && js_runner::imports(s, "node:test"@) && !js_runner::imports(s, "bun:test"@)
            && !js_runner::imports(s, "@playwright/test"@) && !js_runner::imports(s, "vitest"@) && !js_runner::imports(
            s,
            "@jest/globals"@,
        ) ==> js_runner::imported_runner(s, path) is None,
{
}

/// A word of a script names a runner by its program, Bun and Playwright only with
/// `test` behind it, Node only with `--test` somewhere behind it.
pub proof fn law_a_word_of_a_script_names_its_runner(ts: Seq<Seq<char>>, i: int)
    requires
        0 <= i < ts.len(),
    ensures
        ({
            let name = text::pieces(ts[i], '/').last();
            let r = js_runner::runner_at(ts, i);
            &&& name == "vitest"@ ==> r == Some(JsRunner::Vitest)
            &&& name == "jest"@ ==> r == Some(JsRunner::Jest)
            &&& name == "mocha"@ || name == "_mocha"@ ==> r == Some(JsRunner::Mocha)
            &&& name == "bun"@ ==> (r == Some(JsRunner::Bun) <==> i + 1 < ts.len() && ts[i + 1] == "test"@)
            &&& name == "playwright"@ ==> (r == Some(JsRunner::Playwright) <==> i + 1 < ts.len() && ts[i + 1] == "test"@)
            &&& name == "node"@ ==> (r == Some(JsRunner::NodeTest) <==> ts.skip(i + 1).contains("--test"@))
            &&& name != "vitest"@ && name != "jest"@ && name != "mocha"@ && name != "_mocha"@ && name != "bun"@ && name
                != "playwright"@ && name != "node"@ ==> r is None
        }),
{
    reveal_strlit("vitest");
    reveal_strlit("jest");
    reveal_strlit("mocha");
    reveal_strlit("_mocha");
    reveal_strlit("bun");
    reveal_strlit("playwright");
    reveal_strlit("node");
    assert("vitest"@.len() == 6 && "_mocha"@.len() == 6 && "vitest"@[0] == 'v' && "_mocha"@[0] == '_');
    assert("jest"@.len() == 4 && "node"@.len() == 4 && "jest"@[0] == 'j' && "node"@[0] == 'n');
    assert("mocha"@.len() == 5 && "bun"@.len() == 3 && "playwright"@.len() == 10);
}

/// The nearest directory with a package that says which runner decides; a
/// directory without a package says nothing unless it is the root.
pub proof fn law_the_nearest_package_says_the_runner(dirs: Seq<DirEvidence>, i: int)
    requires
        0 <= i < dirs.len(),
    ensures
        dirs[i].dir@.len() > 0 && dirs[i].package is None ==> js_runner::evidence_from(dirs, i)
            == js_runner::evidence_from(dirs, i + 1),
        (dirs[i].dir@.len() == 0 || dirs[i].package is Some) ==> {
            &&& js_runner::directory_runner(dirs[i]) matches Some(r) ==> js_runner::evidence_from(dirs, i) == Some(
                (dirs[i].dir@, r),
            )
            &&& js_runner::directory_runner(dirs[i]) is None ==> js_runner::evidence_from(dirs, i)
                == js_runner::evidence_from(dirs, i + 1)
        },
        dirs[i].package is Some ==> js_runner::package_from(dirs, i) == dirs[i].dir@,
        dirs[i].package is None ==> js_runner::package_from(dirs, i) == js_runner::package_from(dirs, i + 1),
{
}

// ---------------------------------------------------------------------------
// Tests beside the code
// ---------------------------------------------------------------------------

/// A module is one of tests by its name, or where `cfg(test)` stands in one of
/// the three lines above it.
pub proof fn law_a_test_module_is_named_or_gated(lines: Seq<Seq<char>>, line_start: u32, name: Seq<char>)
    requires
        0 < line_start <= lines.len(),
    ensures
        inline_tests::test_module_name("tests"@),
        inline_tests::test_module_name("test"@),
        inline_tests::test_module_name(name + "_tests"@),
        inline_tests::test_module_name(name + "_test"@),
        inline_tests::gated(lines, line_start) <==> exists|k: int|
            line_start - 4 <= k < line_start - 1 && 0 <= k && text::starts_with(
                text::trimmed_start(#[trigger] lines[k]),
                "#[cfg(test)]"@,
            ),
{
    words::law_a_text_begins_and_ends_with_its_parts(name, "_tests"@, Seq::empty());
    words::law_a_text_begins_and_ends_with_its_parts(name, "_test"@, Seq::empty());
    let end = inline_tests::above(lines, line_start);
    assert(end == line_start - 1);
    if inline_tests::gated(lines, line_start) {
        let k = choose|k: int| end - 3 <= k < end && 0 <= k && inline_tests::gate(#[trigger] lines[k]);
        assert(text::starts_with(text::trimmed_start(lines[k]), "#[cfg(test)]"@));
    }
    if exists|k: int|
        line_start - 4 <= k < line_start - 1 && 0 <= k && text::starts_with(
            text::trimmed_start(#[trigger] lines[k]),
            "#[cfg(test)]"@,
        ) {
        let k = choose|k: int|
            line_start - 4 <= k < line_start - 1 && 0 <= k && text::starts_with(
                text::trimmed_start(#[trigger] lines[k]),
                "#[cfg(test)]"@,
            );
        assert(inline_tests::gate(lines[k]));
    }
}

/// Each of these attributes marks a test, and counts once.
pub proof fn law_test_attributes_are_counted(lines: Seq<Seq<char>>, line: Seq<char>)
    ensures
        ({
            let l = text::trimmed_start(line);
            inline_tests::marks_test(line) <==> text::starts_with(l, "#[test]"@) || text::starts_with(
                l,
                "#[tokio::test"@,
            ) || text::starts_with(l, "#[rstest"@) || text::starts_with(l, "#[sqlx::test"@) || text::starts_with(
                l,
                "#[async_std::test"@,
            ) || text::starts_with(l, "#[test_case"@)
        }),
        inline_tests::marks_test(line) ==> inline_tests::marks_among(lines.push(line)) == inline_tests::marks_among(
            lines,
        ) + 1,
        !inline_tests::marks_test(line) ==> inline_tests::marks_among(lines.push(line)) == inline_tests::marks_among(
            lines,
        ),
{
    assert(lines.push(line).drop_last() =~= lines);
}

/// Something lies in a module where it begins after the module's first line and
/// ends with it at the latest.
pub proof fn law_a_module_holds_what_lies_between_its_ends(start: u32, end: u32, m: TestModuleView)
    ensures
        inline_tests::lies_within(start, end, m) <==> m.start < start && end <= m.end,
{
}

/// A Python test is a function or a method whose name begins with `test_`.
pub proof fn law_python_tests_begin_with_test(symbols: Seq<Symbol>, s: Symbol)
    ensures
        (s.kind@ == "function"@ || s.kind@ == "method"@) && text::starts_with(s.name@, "test_"@)
            ==> inline_tests::python_tests(symbols.push(s)) == inline_tests::python_tests(symbols) + 1,
        !((s.kind@ == "function"@ || s.kind@ == "method"@) && text::starts_with(s.name@, "test_"@))
            ==> inline_tests::python_tests(symbols.push(s)) == inline_tests::python_tests(symbols),
{
    assert(symbols.push(s).drop_last() =~= symbols);
}

/// A changed file that is itself a test is not looked into; a Rust or Python file
/// is, and no other.
pub proof fn law_only_changed_sources_are_looked_into(
    found: FoundView,
    packages: Option<Seq<DirPackageView>>,
    tests: Seq<Seq<char>>,
    f: ChangedFile,
)
    ensures
        tests.contains(f.path@) ==> inline_tests::with_file(found, packages, tests, f) == found,
        !tests.contains(f.path@) && conventions::family(f.path@) == Family::Rust ==> inline_tests::with_file(
            found,
            packages,
            tests,
            f,
        ) == inline_tests::with_rust(found, packages, f),
        !tests.contains(f.path@) && conventions::family(f.path@) == Family::Python ==> inline_tests::with_file(
            found,
            packages,
            tests,
            f,
        ) == inline_tests::with_python(found, f),
        conventions::family(f.path@) != Family::Rust && conventions::family(f.path@) != Family::Python
            ==> inline_tests::with_file(found, packages, tests, f) == found,
        inline_tests::python_tests(f.symbols@) == 0 ==> inline_tests::with_python(found, f) == found,
        inline_tests::python_tests(f.symbols@) > 0 ==> inline_tests::with_python(found, f).python == found.python.push(
            f.path@,
        ),
{
}

/// A feature's command is run where it is one line; one with a line break or a
/// NUL is left out, and its feature is named.
pub proof fn law_a_feature_command_of_one_line_is_run(hits: Seq<FeatureHit>, h: FeatureHit)
    ensures
        inline_tests::mapped(h) is None ==> inline_tests::runnable(hits.push(h)) == inline_tests::runnable(hits)
            && inline_tests::unrunnable(hits.push(h)) == inline_tests::unrunnable(hits),
        inline_tests::mapped(h) matches Some(c) ==> {
            let broken = text::contains(c, "\n"@) || text::contains(c, "\r"@) || text::contains(c, "\0"@);
            &&& !broken ==> inline_tests::runnable(hits.push(h)) == inline_tests::runnable(hits).push(c)
                && inline_tests::unrunnable(hits.push(h)) == inline_tests::unrunnable(hits)
            &&& broken ==> inline_tests::runnable(hits.push(h)) == inline_tests::runnable(hits)
                && inline_tests::unrunnable(hits.push(h)) == inline_tests::unrunnable(hits).push(h.feature_id@)
        },
        h.test_command is None ==> inline_tests::mapped(h) is None,
        h.test_command matches Some(c) ==> (inline_tests::mapped(h) is None <==> text::trimmed(c@).len() == 0),
{
    assert(hits.push(h).drop_last() =~= hits);
}

} // verus!
