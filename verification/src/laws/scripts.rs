//! How a runner is read from scripts and sources.
use vstd::prelude::*;
use crate::history::js_runner;
use crate::laws::places;
use crate::text;

verus! {

spec fn parted(s: Seq<char>) -> Seq<char> {
    text::replaced(text::replaced(text::replaced(s, '&', '\n'), '|', '\n'), ';', '\n')
}

/// A script is a list of commands that are parted by ampersands, bars,
/// semicolons or line ends.
pub proof fn law_a_script_is_parted_into_commands(a: Seq<char>, c: char, b: Seq<char>)
    requires
        c == '&' || c == '|' || c == ';' || c == '\n',
    ensures
        js_runner::segments(a + seq![c] + b) == js_runner::segments(a) + js_runner::segments(b),
{
    assert(parted(a + seq![c] + b) =~= parted(a) + seq!['\n'] + parted(b));
    places::lemma_pieces_of_both(parted(a), parted(b), '\n');
}

/// A command without any of these is one command.
pub proof fn law_a_plain_command_is_one(s: Seq<char>)
    requires
        !s.contains('&'),
        !s.contains('|'),
        !s.contains(';'),
        !s.contains('\n'),
    ensures
        js_runner::segments(s) == seq![s],
{
    assert forall|i: int| 0 <= i < s.len() implies #[trigger] parted(s)[i] == s[i] by {
        assert(s.contains(s[i]));
    }
    assert(parted(s) =~= s);
    let one = seq![s];
    text::lemma_joined_parts_are_the_pieces(one, '\n');
    assert(text::joined(one, seq!['\n']) == s);
}

/// Quotes around a word are no part of it.
pub proof fn law_quotes_around_a_word_go(x: Seq<char>, q: char)
    requires
        q == '"' || q == '\'',
        x.len() > 0,
        x[0] != '"' && x[0] != '\'',
        x.last() != '"' && x.last() != '\'',
    ensures
        js_runner::bare(seq![q] + x + seq![q]) == x,
        js_runner::bare(x) == x,
{
    let s = seq![q] + x + seq![q];
    let t = x + seq![q];
    assert(s.skip(1) =~= t);
    assert(t[0] == x[0]);
    assert(js_runner::bare_start(t) == t);
    assert(s[0] == q);
    assert(js_runner::bare_start(s) == t);
    assert(t.last() == q);
    assert(t.drop_last() =~= x);
    assert(js_runner::bare_end(x) == x);
    assert(js_runner::bare_end(t) == x);
}

/// A program is called by the last component of its path.
pub proof fn law_a_program_is_the_end_of_its_path(dir: Seq<char>, name: Seq<char>)
    requires
        !name.contains('/'),
    ensures
        js_runner::program(dir + seq!['/'] + name) == name,
        js_runner::program(name) == name,
{
    places::lemma_pieces_of_both(dir, name, '/');
    let one = seq![name];
    text::lemma_joined_parts_are_the_pieces(one, '/');
    assert(text::joined(one, seq!['/']) == name);
    assert((text::pieces(dir, '/') + one).last() == name);
}

proof fn lemma_nowhere(s: Seq<char>, literal: Seq<char>)
    requires
        !text::contains(s, literal),
    ensures
        !js_runner::imported_from(s, literal, 0),
{
    text::lemma_first_at(s, literal, 0);
    if let Some(i) = text::first_at(s, literal, 0) {
        assert(text::occurs_at(s, literal, i));
    }
}

/// A module that is nowhere written between quotes is not imported.
pub proof fn law_an_unwritten_module_is_not_imported(s: Seq<char>, module: Seq<char>)
    requires
        !text::contains(s, "'"@ + module + "'"@),
        !text::contains(s, "\""@ + module + "\""@),
    ensures
        !js_runner::imports(s, module),
{
    lemma_nowhere(s, "'"@ + module + "'"@);
    lemma_nowhere(s, "\""@ + module + "\""@);
}

proof fn lemma_found(a: Seq<char>, literal: Seq<char>, b: Seq<char>)
    requires
        forall|j: int| 0 <= j < a.len() ==> !text::occurs_at(a + literal + b, literal, j),
        js_runner::before_import(a),
    ensures
        js_runner::imported_from(a + literal + b, literal, 0),
{
    let s = a + literal + b;
    assert(s.subrange(a.len() as int, (a.len() + literal.len()) as int) =~= literal);
    assert(text::occurs_at(s, literal, a.len() as int));
    text::lemma_first_at(s, literal, 0);
    let i = text::first_at(s, literal, 0)->0;
    if i < a.len() {
        assert(text::occurs_at(s, literal, i));
    }
    assert(s.take(a.len() as int) =~= a);
}

/// A module is imported where its name first stands between single quotes behind
/// one of these.
pub proof fn law_a_module_in_single_quotes_is_imported(a: Seq<char>, module: Seq<char>, b: Seq<char>)
    requires
        ({
            let t = text::trimmed_end(a);
            text::ends_with(t, "from"@) || text::ends_with(t, "import"@) || text::ends_with(t, "require("@)
                || text::ends_with(t, "import("@)
        }),
        forall|j: int|
            0 <= j < a.len() ==> !text::occurs_at(a + ("'"@ + module + "'"@) + b, "'"@ + module + "'"@, j),
    ensures
        js_runner::imports(a + ("'"@ + module + "'"@) + b, module),
{
    lemma_found(a, "'"@ + module + "'"@, b);
}

/// A module is imported where its name first stands between double quotes behind
/// one of these.
pub proof fn law_a_module_in_double_quotes_is_imported(a: Seq<char>, module: Seq<char>, b: Seq<char>)
    requires
        ({
            let t = text::trimmed_end(a);
            text::ends_with(t, "from"@) || text::ends_with(t, "import"@) || text::ends_with(t, "require("@)
                || text::ends_with(t, "import("@)
        }),
        forall|j: int|
            0 <= j < a.len() ==> !text::occurs_at(a + ("\""@ + module + "\""@) + b, "\""@ + module + "\""@, j),
    ensures
        js_runner::imports(a + ("\""@ + module + "\""@) + b, module),
{
    lemma_found(a, "\""@ + module + "\""@, b);
}

} // verus!
