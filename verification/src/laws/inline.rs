//! Tests that stand inside source files.
use vstd::prelude::*;
use crate::history::commands::CommandView;
use crate::history::crates::CrateView;
use crate::history::inline_tests;
use crate::history::inline_tests::{CountedView, InlineView};
use crate::history::shell;
use crate::laws::words;
use crate::text;

verus! {

/// A module is gated where one of the three lines above it gates it. Lines are
/// counted from one.
pub proof fn law_a_gate_stands_at_most_three_lines_above(lines: Seq<Seq<char>>, k: int, n: u32)
    requires
        0 <= k < lines.len(),
        text::starts_with(text::trimmed_start(lines[k]), "#[cfg(test)]"@),
        forall|j: int|
            0 <= j < lines.len() && j != k ==> !text::starts_with(
                text::trimmed_start(#[trigger] lines[j]),
                "#[cfg(test)]"@,
            ),
        1 <= n <= lines.len() + 1,
    ensures
        inline_tests::gated(lines, n) <==> k == n - 2 || k == n - 3 || k == n - 4,
{
    let end = inline_tests::above(lines, n);
    assert(end == n - 1);
    assert(inline_tests::gate(lines[k]));
    if inline_tests::gated(lines, n) {
        let j = choose|j: int| end - 3 <= j < end && 0 <= j && inline_tests::gate(#[trigger] lines[j]);
        assert(j == k);
    }
}

/// The lines of an item are those from its first to its last, counted from one.
pub proof fn law_an_item_has_the_lines_between_its_ends(a: Seq<Seq<char>>, b: Seq<Seq<char>>, c: Seq<Seq<char>>)
    requires
        b.len() > 0,
        a.len() + b.len() <= u32::MAX,
    ensures
        inline_tests::item_lines(a + b + c, (a.len() + 1) as u32, (a.len() + b.len()) as u32) == b,
        inline_tests::item_lines(a + b, (a.len() + 1) as u32, u32::MAX) == b || a.len() + b.len() > u32::MAX,
{
    assert((a + b + c).subrange(a.len() as int, (a.len() + b.len()) as int) =~= b);
    assert((a + b).subrange(a.len() as int, (a.len() + b.len()) as int) =~= b);
}

/// A module is told by its whole name, with the tests it holds, unless its name
/// would be taken for an option; that is said instead.
pub proof fn law_a_module_is_told_by_its_whole_name(file: Seq<char>, outer: Seq<char>, mods: Seq<CountedView>, m: CountedView)
    ensures
        ({
            let whole = if outer.len() == 0 {
                m.name
            } else {
                outer + "::"@ + m.name
            };
            let rows = inline_tests::module_rows(file, outer, mods.push(m));
            let notes = inline_tests::module_notes(outer, mods.push(m));
            &&& shell::safe_name(whole) ==> rows == inline_tests::module_rows(file, outer, mods).push(
                InlineView { file, module: whole, test_count: m.count },
            )
            &&& !shell::safe_name(whole) ==> rows == inline_tests::module_rows(file, outer, mods)
            &&& rows.len() + notes.len() == mods.len() + 1
            &&& !shell::safe_name(whole) ==> notes.last() == shell::dropped("cargo test filter"@, whole)
        }),
    decreases mods.len(),
{
    assert(mods.push(m).drop_last() =~= mods);
    if mods.len() > 0 {
        law_a_module_is_told_by_its_whole_name(file, outer, mods.drop_last(), mods.last());
        assert(mods.drop_last().push(mods.last()) =~= mods);
    } else {
        assert(inline_tests::module_rows(file, outer, mods).len() == 0);
        assert(inline_tests::module_notes(outer, mods).len() == 0);
    }
    assert(inline_tests::module_notes(outer, mods.push(m)).len() == inline_tests::module_notes(outer, mods).len() + (
    if shell::safe_name(inline_tests::full_name(outer, m.name)) {
        0int
    } else {
        1
    }));
}

/// A module is run by its name and what is below it; the modules of a binary are
/// run with the binary.
pub proof fn law_a_module_is_run_by_its_name(k: CrateView, binary: Option<Seq<char>>, outer: Seq<char>, mods: Seq<CountedView>, m: CountedView)
    requires
        outer.len() > 0,
        shell::safe_name(outer + "::"@ + m.name),
    ensures
        ({
            let whole = outer + "::"@ + m.name;
            let out = inline_tests::module_commands(k, binary, outer, mods.push(m));
            &&& out.len() == inline_tests::module_commands(k, binary, outer, mods).len() + 1
            &&& out.last().covers == seq![whole]
            &&& out.last().framework == "cargo"@
            &&& text::starts_with(out.last().command, "cargo test"@)
            &&& binary is None ==> text::ends_with(out.last().command, " "@ + shell::quoted(whole + "::"@))
            &&& binary matches Some(b) ==> text::ends_with(out.last().command, " --bin "@ + shell::quoted(b))
        }),
{
    assert(mods.push(m).drop_last() =~= mods);
    let whole = outer + "::"@ + m.name;
    let flag = crate::history::crates::package_flag_text(k);
    let tail = match binary {
        Some(b) => " --bin "@ + shell::quoted(b),
        None => " "@ + shell::quoted(whole + "::"@),
    };
    let c: CommandView = inline_tests::module_command(k, binary, whole);
    assert(c.command =~= "cargo test"@ + (flag + tail));
    assert(c.command =~= ("cargo test"@ + flag) + tail);
    words::law_a_text_begins_and_ends_with_its_parts("cargo test"@, flag + tail, Seq::empty());
    words::law_a_text_begins_and_ends_with_its_parts("cargo test"@ + flag, tail, Seq::empty());
}

proof fn lemma_no_package(a: Seq<char>, b: Seq<char>)
    requires
        !b.contains('.'),
        b != "__init__"@,
    ensures
        !text::ends_with(a + seq!['.'] + b, ".__init__"@),
{
    reveal_strlit("__init__");
    reveal_strlit(".__init__");
    let s = a + seq!['.'] + b;
    if text::ends_with(s, ".__init__"@) {
        let e = s.subrange(s.len() - 9, s.len() as int);
        assert(e == ".__init__"@);
        assert(e[0] == s[s.len() - 9]);
        if b.len() > 8 {
            assert(b[b.len() - 9] == '.');
        } else if b.len() == 8 {
            assert forall|i: int| 0 <= i < 8 implies b[i] == "__init__"@[i] by {
                assert(e[i + 1] == s[s.len() - 8 + i]);
            }
            assert(b =~= "__init__"@);
        } else {
            assert(e[8 - b.len()] == s[a.len() as int]);
            assert(s[a.len() as int] == '.');
        }
    }
}

proof fn lemma_dots(a: Seq<char>, b: Seq<char>)
    requires
        !a.contains('/'),
        !b.contains('/'),
    ensures
        text::replaced(a + seq!['/'] + b, '/', '.') == a + seq!['.'] + b,
{
    let s = a + seq!['/'] + b;
    let t = a + seq!['.'] + b;
    assert forall|i: int| 0 <= i < s.len() implies #[trigger] text::replaced(s, '/', '.')[i] == t[i] by {
        if i < a.len() {
            assert(a.contains(a[i]));
        } else if i > a.len() {
            assert(b.contains(b[i - a.len() - 1]));
        }
    }
    assert(text::replaced(s, '/', '.') =~= t);
}

/// A Python file is the module of its path with dots for slashes; the file that
/// makes a directory a package is the package.
pub proof fn law_a_python_path_is_written_with_dots(a: Seq<char>, b: Seq<char>)
    requires
        !a.contains('/'),
        !b.contains('/'),
        !b.contains('.'),
    ensures
        b != "__init__"@ ==> inline_tests::dotted(a + seq!['/'] + b + ".py"@) == a + seq!['.'] + b,
        b == "__init__"@ ==> inline_tests::dotted(a + seq!['/'] + b + ".py"@) == a,
{
    let p = a + seq!['/'] + b;
    words::law_a_text_begins_and_ends_with_its_parts(p, ".py"@, Seq::empty());
    lemma_dots(a, b);
    if b == "__init__"@ {
        reveal_strlit("__init__");
        reveal_strlit(".__init__");
        assert(a + seq!['.'] + b =~= a + ".__init__"@);
        words::law_a_text_begins_and_ends_with_its_parts(a, ".__init__"@, Seq::empty());
    } else {
        lemma_no_package(a, b);
    }
}

} // verus!
