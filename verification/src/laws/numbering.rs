//! How the lines of a chunk are numbered.
use vstd::prelude::*;
use crate::bundle;
use crate::laws::texts;
use crate::laws::words;
use crate::model::Symbol;
use crate::symbols;
use crate::text;

verus! {

/// `s` is a line with its number before it: blanks, the number, a bar, the line.
pub open spec fn shows_line(s: Seq<char>, n: nat, line: Seq<char>) -> bool {
    exists|pad: nat| #[trigger] padded_line(pad, n, line) == s && pad + text::decimal(n).len() >= 4
}

pub open spec fn padded_line(pad: nat, n: nat, line: Seq<char>) -> Seq<char> {
    Seq::new(pad, |i: int| ' ') + text::decimal(n) + " | "@ + line
}

spec fn shown(lines: Seq<Seq<char>>, first: nat, width: nat) -> Seq<Seq<char>> {
    Seq::new(lines.len(), |k: int| bundle::aligned((first + k) as nat, width) + " | "@ + lines[k])
}

proof fn lemma_blanks(n: int)
    ensures
        bundle::spaces(n) == Seq::new(if n > 0 { n as nat } else { 0 }, |i: int| ' '),
    decreases n,
{
    if n > 0 {
        lemma_blanks(n - 1);
        assert(bundle::spaces(n) =~= Seq::new(n as nat, |i: int| ' '));
    } else {
        assert(bundle::spaces(n) =~= Seq::new(0, |i: int| ' '));
    }
}

proof fn lemma_numbered_lines(lines: Seq<Seq<char>>, first: nat, width: nat)
    requires
        lines.len() > 0,
    ensures
        bundle::numbered_lines(lines, first, width) == text::joined(shown(lines, first, width), seq!['\n']) + seq!['\n'],
    decreases lines.len(),
{
    reveal_strlit("\n");
    reveal_strlit("");
    let front = lines.drop_last();
    let all = shown(lines, first, width);
    assert("\n"@ =~= seq!['\n']);
    assert(all.drop_last() =~= shown(front, first, width));
    assert(all.last() == bundle::aligned((first + lines.len() - 1) as nat, width) + " | "@ + lines.last());
    if lines.len() == 1 {
        assert(bundle::numbered_lines(front, first, width) =~= ""@);
        assert(""@ + (all.last() + "\n"@) =~= all[0] + seq!['\n']);
        assert(bundle::numbered_lines(lines, first, width) =~= all[0] + seq!['\n']);
    } else {
        lemma_numbered_lines(front, first, width);
        assert(bundle::numbered_lines(lines, first, width) =~= text::joined(all, seq!['\n']) + seq!['\n']);
    }
}

proof fn lemma_longer_numbers_are_no_smaller(a: nat, b: nat)
    requires
        a <= b,
    ensures
        text::decimal(a).len() <= text::decimal(b).len(),
    decreases b,
{
    reveal_with_fuel(text::decimal, 2);
    if a >= 10 {
        lemma_longer_numbers_are_no_smaller(a / 10, b / 10);
    }
}

proof fn lemma_a_shown_line_is_one_line(line: Seq<char>, n: nat, width: nat)
    requires
        !line.contains('\n'),
        line.len() > 0,
        line.last() != '\r',
    ensures
        ({
            let s = bundle::aligned(n, width) + " | "@ + line;
            &&& !s.contains('\n')
            &&& s.len() > 0
            &&& s.last() != '\r'
        }),
{
    reveal_strlit(" | ");
    let pad = bundle::spaces(width - text::decimal(n).len());
    lemma_blanks(width - text::decimal(n).len());
    text::law_a_written_number_reads_back(n);
    let d = text::decimal(n);
    assert(!d.contains('\n')) by {
        if d.contains('\n') {
            let i = choose|i: int| 0 <= i < d.len() && d[i] == '\n';
            assert(text::is_digit(d[i]));
        }
    }
    words::lemma_neither_holds(pad, d, '\n');
    words::lemma_neither_holds(pad + d, " | "@, '\n');
    words::lemma_neither_holds(pad + d + " | "@, line, '\n');
}

/// The lines of a chunk without a header are numbered one after the other from
/// its first line on, in a column of one width that is at least four wide.
pub proof fn law_each_line_is_shown_with_its_number(lines: Seq<Seq<char>>, file: Seq<char>, first: nat, k: int)
    requires
        lines.len() > 0,
        forall|k: int| 0 <= k < lines.len() ==> !(#[trigger] lines[k]).contains('\n'),
        forall|k: int| 0 <= k < lines.len() ==> (#[trigger] lines[k]).len() > 0 && lines[k].last() != '\r',
        lines[0] != "# "@ + file,
        0 <= k < lines.len(),
    ensures
        ({
            let content = text::joined(lines, seq!['\n']) + seq!['\n'];
            let out = text::lines(bundle::numbered(content, file, first));
            &&& out.len() == lines.len()
            &&& shows_line(out[k], (first + k) as nat, lines[k])
            &&& out[k].len() - lines[k].len() == out[0].len() - lines[0].len()
        }),
{
    let content = text::joined(lines, seq!['\n']) + seq!['\n'];
    reveal_strlit("\n");
    reveal_strlit("");
    reveal_strlit(" | ");
    assert("\n"@ =~= seq!['\n']);
    texts::law_lines_are_ended_not_separated(lines);
    words::law_a_text_begins_and_ends_with_its_parts(text::joined(lines, seq!['\n']), seq!['\n'], Seq::empty());
    let w = bundle::column(first, lines.len());
    let all = shown(lines, first, w);
    assert(lines.skip(0) =~= lines);
    assert(lines.take(0) =~= Seq::<Seq<char>>::empty());
    lemma_numbered_lines(lines, first, w);
    assert(bundle::numbered(content, file, first) =~= text::joined(all, seq!['\n']) + seq!['\n']);
    assert forall|j: int| 0 <= j < all.len() implies !(#[trigger] all[j]).contains('\n') && all[j].len() > 0
        && all[j].last() != '\r' by {
        lemma_a_shown_line_is_one_line(lines[j], (first + j) as nat, w);
    }
    texts::law_lines_are_ended_not_separated(all);
    let n = (first + k) as nat;
    let last = (first + lines.len() - 1) as nat;
    lemma_longer_numbers_are_no_smaller(n, last);
    lemma_longer_numbers_are_no_smaller(first, last);
    let pad = w - text::decimal(n).len();
    lemma_blanks(pad);
    lemma_blanks(w - text::decimal(first).len());
    assert(all[k] =~= padded_line(pad as nat, n, lines[k]));
    assert(all[0] == bundle::aligned(first, w) + " | "@ + lines[0]);
}

/// A header line names a symbol and, in brackets at its end, what it is.
pub proof fn law_a_header_says_what_a_symbol_is(name: Seq<char>, kind: Seq<char>, line: Seq<char>)
    requires
        !kind.contains(' '),
        !text::starts_with(line, "# "@),
    ensures
        !bundle::symbol_header(line),
        bundle::symbol_header("# "@ + (name + " ("@ + (kind + ")"@))) <==> kind == "function"@ || kind == "method"@
            || kind == "class"@ || kind == "trait"@ || kind == "interface"@ || kind == "struct"@ || kind == "enum"@
            || kind == "constant"@ || kind == "macro"@ || kind == "module"@ || kind == "namespace"@,
{
    reveal_strlit(" (");
    reveal_strlit(")");
    let rest = name + " ("@ + (kind + ")"@);
    words::law_a_text_begins_and_ends_with_its_parts("# "@, rest, Seq::empty());
    text::lemma_last_at(rest, " ("@, rest.len() - 2);
    assert(rest.subrange(name.len() as int, name.len() as int + 2) =~= " ("@);
    assert(text::occurs_at(rest, " ("@, name.len() as int));
    if let Some(i) = text::rfind(rest, " ("@) {
        if i > name.len() {
            assert(rest.subrange(i, i + 2)[0] == ' ');
            assert(rest[i] == ' ');
            if i == name.len() + 1 {
            } else if i - name.len() - 2 < kind.len() {
                assert(kind[i - name.len() - 2] == ' ');
            }
        }
        assert(i == name.len());
        assert(rest.skip(i + 2) =~= kind + ")"@);
        words::law_a_text_begins_and_ends_with_its_parts(kind, ")"@, Seq::empty());
    }
}

proof fn lemma_headers_end(lines: Seq<Seq<char>>, i: int, n: int)
    requires
        0 <= i <= n <= lines.len(),
        forall|k: int| i <= k < n ==> bundle::symbol_header(#[trigger] lines[k]),
        n < lines.len() ==> !bundle::symbol_header(lines[n]),
    ensures
        bundle::headers_from(lines, i) == n,
    decreases n - i,
{
    if i < n {
        assert(bundle::symbol_header(lines[i]));
        lemma_headers_end(lines, i + 1, n);
    }
}

/// A chunk's header is the line that names its file and the symbols that follow
/// at once; without that line there is none.
pub proof fn law_a_header_names_the_file_first(lines: Seq<Seq<char>>, file: Seq<char>, n: int)
    requires
        1 <= n <= lines.len(),
        forall|k: int| 1 <= k < n ==> bundle::symbol_header(#[trigger] lines[k]),
        n < lines.len() ==> !bundle::symbol_header(lines[n]),
    ensures
        bundle::body_start(lines, file) == if lines[0] == "# "@ + file { n } else { 0 },
{
    lemma_headers_end(lines, 1, n);
}

/// Definitions are added unless they are known: none is listed that was seen,
/// none twice, and every other one is.
pub proof fn law_unseen_definitions_are_added_once(found: Seq<Symbol>, defs: Seq<Symbol>, seen: Seq<Symbol>, d: int)
    requires
        0 <= d < defs.len(),
    ensures
        found.is_prefix_of(bundle::with_unseen(found, defs, seen)),
        symbols::keys(seen).contains(defs[d].key()) || symbols::keys(bundle::with_unseen(found, defs, seen)).contains(
            defs[d].key(),
        ),
        forall|i: int|
            found.len() <= i < bundle::with_unseen(found, defs, seen).len() ==> !symbols::keys(seen).contains(
                (#[trigger] bundle::with_unseen(found, defs, seen)[i]).key(),
            ),
        forall|i: int, j: int|
            #![trigger bundle::with_unseen(found, defs, seen)[i], bundle::with_unseen(found, defs, seen)[j]]
            0 <= i < j && found.len() <= j < bundle::with_unseen(found, defs, seen).len() ==> bundle::with_unseen(
                found,
                defs,
                seen,
            )[i].key() != bundle::with_unseen(found, defs, seen)[j].key(),
    decreases defs.len(),
{
    lemma_unseen(found, defs, seen);
    if d < defs.len() - 1 {
        law_unseen_definitions_are_added_once(found, defs.drop_last(), seen, d);
    }
    let front = bundle::with_unseen(found, defs.drop_last(), seen);
    let out = bundle::with_unseen(found, defs, seen);
    let (ks, ko) = (symbols::keys(front), symbols::keys(out));
    if out != front {
        assert(ko =~= ks.push(defs.last().key()));
        assert(ko[ks.len() as int] == defs.last().key());
        if ks.contains(defs[d].key()) {
            let i = choose|i: int| 0 <= i < ks.len() && ks[i] == defs[d].key();
            assert(ko[i] == defs[d].key());
        }
    }
}

proof fn lemma_unseen(found: Seq<Symbol>, defs: Seq<Symbol>, seen: Seq<Symbol>)
    ensures
        found.is_prefix_of(bundle::with_unseen(found, defs, seen)),
        forall|i: int|
            found.len() <= i < bundle::with_unseen(found, defs, seen).len() ==> !symbols::keys(seen).contains(
                (#[trigger] bundle::with_unseen(found, defs, seen)[i]).key(),
            ),
        forall|i: int, j: int|
            #![trigger bundle::with_unseen(found, defs, seen)[i], bundle::with_unseen(found, defs, seen)[j]]
            0 <= i < j && found.len() <= j < bundle::with_unseen(found, defs, seen).len() ==> bundle::with_unseen(
                found,
                defs,
                seen,
            )[i].key() != bundle::with_unseen(found, defs, seen)[j].key(),
    decreases defs.len(),
{
    if defs.len() > 0 {
        lemma_unseen(found, defs.drop_last(), seen);
        let front = bundle::with_unseen(found, defs.drop_last(), seen);
        let out = bundle::with_unseen(found, defs, seen);
        if out != front {
            assert forall|i: int, j: int| #![trigger out[i], out[j]] 0 <= i < j && found.len() <= j < out.len() implies out[i].key()
                != out[j].key() by {
                if j == front.len() {
                    assert(symbols::keys(front)[i] == front[i].key());
                } else {
                    assert(front[i].key() != front[j].key());
                }
            }
        }
    }
}

} // verus!
