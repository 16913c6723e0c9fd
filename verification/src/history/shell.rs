//! Words of a shell command line.
use vstd::prelude::*;
use vstd::string::*;
use crate::text;
use crate::text::{alnum, begins, chars_of, concat2, concat3, join, substitute};

verus! {

/// A character that needs no quotes in a shell word.
pub open spec fn plain(c: char) -> bool {
    text::is_alnum(c) || c == '_' || c == '.' || c == '/' || c == ':' || c == '@' || c == '%' || c == '+' || c == '='
        || c == ',' || c == '-'
}

/// A word that needs no quotes.
pub open spec fn clean(token: Seq<char>) -> bool {
    token.len() > 0 && forall|i: int| 0 <= i < token.len() ==> plain(#[trigger] token[i])
}

/// A token as one shell word: in single quotes, unless it is clean.
pub open spec fn quoted(token: Seq<char>) -> Seq<char> {
    if clean(token) {
        token
    } else {
        "'"@ + text::substituted(token, "'"@, "'\\''"@) + "'"@
    }
}

fn is_clean(token: &str) -> (r: bool)
    ensures
        r == clean(token@),
{
    let cs = chars_of(token);
    if cs.len() == 0 {
        return false;
    }
    let mut i: usize = 0;
    while i < cs.len()
        invariant
            i <= cs@.len(),
            cs@ == token@,
            forall|j: int| 0 <= j < i ==> plain(#[trigger] token@[j]),
        decreases cs@.len() - i,
    {
        let c = cs[i];
        if !(alnum(c) || c == '_' || c == '.' || c == '/' || c == ':' || c == '@' || c == '%' || c == '+' || c == '='
            || c == ',' || c == '-') {
            assert(!plain(token@[i as int]));
            return false;
        }
        i += 1;
    }
    true
}

/// Quotes a token for the shell where it needs it; a clean one stays readable.
pub fn shell_quote(token: &str) -> (out: String)
    ensures
        out@ == quoted(token@),
{
    if is_clean(token) {
        return token.to_string();
    }
    proof {
        reveal_strlit("'");
    }
    concat3("'", substitute(token, "'", "'\\''").as_str(), "'")
}

/// A path as an argument: one that begins with a dash would be read as a flag,
/// so it is anchored.
pub open spec fn argument(path: Seq<char>) -> Seq<char> {
    if text::starts_with(path, "-"@) {
        quoted("./"@ + path)
    } else {
        quoted(path)
    }
}

pub fn path_arg(path: &str) -> (out: String)
    ensures
        out@ == argument(path@),
{
    if begins(path, "-") {
        shell_quote(concat2("./", path).as_str())
    } else {
        shell_quote(path)
    }
}

/// Paths as arguments, with spaces between them.
pub open spec fn arguments(paths: Seq<Seq<char>>) -> Seq<char> {
    text::joined(paths.map_values(|p: Seq<char>| argument(p)), " "@)
}

pub fn path_args(paths: &Vec<String>) -> (out: String)
    ensures
        out@ == arguments(text::views(paths@)),
{
    broadcast use text::group_views;
    let ghost all = text::views(paths@).map_values(|p: Seq<char>| argument(p));
    let mut args: Vec<String> = Vec::new();
    let mut i: usize = 0;
    while i < paths.len()
        invariant
            i <= paths@.len(),
            all == text::views(paths@).map_values(|p: Seq<char>| argument(p)),
            text::views(args@) == all.take(i as int),
        decreases paths@.len() - i,
    {
        broadcast use text::group_views;
        assert(all.take(i + 1) =~= all.take(i as int).push(all[i as int]));
        args.push(path_arg(paths[i].as_str()));
        i += 1;
    }
    assert(all.take(all.len() as int) =~= all);
    join(&args, " ")
}

/// A name that can stand behind a flag: none that is legal begins with a dash.
pub open spec fn safe_name(token: Seq<char>) -> bool {
    !text::starts_with(token, "-"@)
}

pub fn flag_safe(token: &str) -> (r: bool)
    ensures
        r == safe_name(token@),
{
    !begins(token, "-")
}

pub open spec fn dropped(what: Seq<char>, token: Seq<char>) -> Seq<char> {
    what + " `"@ + token + "` starts with `-` and was left out of `commands`"@
}

/// Says that a name was left out.
pub fn dropped_token_note(what: &str, token: &str) -> (out: String)
    ensures
        out@ == dropped(what@, token@),
{
    text::concat4(what, " `", token, "` starts with `-` and was left out of `commands`")
}

// ---------------------------------------------------------------------------
// Reading a word back
// ---------------------------------------------------------------------------

/// What a POSIX shell makes of one word from `i` on, inside single quotes or
/// not: a quote opens or closes, everything else inside stands for itself, and
/// outside a backslash makes the next character stand for itself. Nothing where
/// a character outside would end the word or mean something else.
pub open spec fn read_from(word: Seq<char>, i: int, inside: bool) -> Option<Seq<char>>
    decreases word.len() - i,
{
    if i < 0 || i >= word.len() {
        if inside {
            None
        } else {
            Some(Seq::empty())
        }
    } else if word[i] == '\'' {
        read_from(word, i + 1, !inside)
    } else if inside || plain(word[i]) {
        prepended(word[i], read_from(word, i + 1, inside))
    } else if word[i] == '\\' && i + 1 < word.len() {
        prepended(word[i + 1], read_from(word, i + 2, false))
    } else {
        None
    }
}

pub open spec fn prepended(c: char, rest: Option<Seq<char>>) -> Option<Seq<char>> {
    match rest {
        Some(r) => Some(seq![c] + r),
        None => None,
    }
}

/// What a POSIX shell reads in one word.
pub open spec fn shell_reads(word: Seq<char>) -> Option<Seq<char>> {
    read_from(word, 0, false)
}

proof fn lemma_clean_reads_back(token: Seq<char>, i: int)
    requires
        clean(token),
        0 <= i <= token.len(),
    ensures
        read_from(token, i, false) == Some(token.skip(i)),
    decreases token.len() - i,
{
    if i < token.len() {
        lemma_clean_reads_back(token, i + 1);
        assert(plain(token[i]));
        assert(seq![token[i]] + token.skip(i + 1) =~= token.skip(i));
    } else {
        assert(token.skip(i) =~= Seq::<char>::empty());
    }
}

/// What stands before a point does not change what is read behind it.
proof fn lemma_read_shifts(front: Seq<char>, word: Seq<char>, i: int, inside: bool)
    requires
        0 <= i,
    ensures
        read_from(front + word, front.len() + i, inside) == read_from(word, i, inside),
    decreases word.len() - i,
{
    let whole = front + word;
    if i < word.len() {
        assert(whole[front.len() + i] == word[i]);
        lemma_read_shifts(front, word, i + 1, inside);
        lemma_read_shifts(front, word, i + 1, !inside);
        if i + 1 < word.len() {
            assert(whole[front.len() + i + 1] == word[i + 1]);
            lemma_read_shifts(front, word, i + 2, false);
        }
    }
}

/// The tail of a quoted token, from inside the quotes.
proof fn lemma_escaped_reads_back(token: Seq<char>, i: int)
    requires
        0 <= i <= token.len(),
    ensures
        read_from(text::substituted_at(token, "'"@, "'\\''"@, i) + "'"@, 0, true) == Some(token.skip(i)),
    decreases token.len() - i,
{
    reveal_strlit("'");
    reveal_strlit("'\\''");
    let quote = "'"@;
    let escape = "'\\''"@;
    let rest = text::substituted_at(token, quote, escape, i);
    let word = rest + quote;
    if i >= token.len() {
        assert(rest.len() == 0);
        assert(word[0] == '\'');
        assert(read_from(word, 1, false) == Some(Seq::<char>::empty()));
        assert(token.skip(i) =~= Seq::<char>::empty());
    } else if token[i] == '\'' {
        lemma_escaped_reads_back(token, i + 1);
        assert(text::occurs_at(token, quote, i)) by {
            assert(token.subrange(i, i + 1) =~= quote);
        }
        let next = text::substituted_at(token, quote, escape, i + 1);
        assert(rest == escape + next);
        assert(word =~= escape + (next + quote));
        lemma_read_shifts(escape, next + quote, 0, true);
        assert(word[0] == '\'' && word[1] == '\\' && word[2] == '\'' && word[3] == '\'');
        let tail = read_from(word, 4, true);
        assert(tail == Some(token.skip(i + 1)));
        assert(read_from(word, 3, false) == tail);
        assert(read_from(word, 1, false) == prepended('\'', tail));
        assert(read_from(word, 0, true) == prepended('\'', tail));
        assert(seq!['\''] + token.skip(i + 1) =~= token.skip(i));
    } else {
        lemma_escaped_reads_back(token, i + 1);
        assert(!text::occurs_at(token, quote, i)) by {
            if text::occurs_at(token, quote, i) {
                assert(token.subrange(i, i + 1)[0] == quote[0]);
            }
        }
        let next = text::substituted_at(token, quote, escape, i + 1);
        let one = seq![token[i]];
        assert(rest == one + next);
        assert(word =~= one + (next + quote));
        lemma_read_shifts(one, next + quote, 0, true);
        assert(word[0] == token[i]);
        assert(seq![token[i]] + token.skip(i + 1) =~= token.skip(i));
    }
}

/// The shell reads a quoted token as that token, whatever it holds: no
/// character of it ends the word or means anything else.
pub proof fn law_the_shell_reads_a_quoted_token_back(token: Seq<char>)
    ensures
        shell_reads(quoted(token)) == Some(token),
{
    if clean(token) {
        lemma_clean_reads_back(token, 0);
        assert(token.skip(0) =~= token);
    } else {
        reveal_strlit("'");
        let inner = text::substituted(token, "'"@, "'\\''"@) + "'"@;
        lemma_escaped_reads_back(token, 0);
        assert(quoted(token) =~= "'"@ + inner);
        lemma_read_shifts("'"@, inner, 0, true);
        assert(quoted(token)[0] == '\'');
        assert(token.skip(0) =~= token);
    }
}

/// No path that is given as an argument can be taken for a flag: its word never
/// begins with a dash.
pub proof fn law_no_path_argument_is_a_flag(path: Seq<char>)
    ensures
        safe_name(argument(path)),
{
    reveal_strlit("-");
    reveal_strlit("'");
    reveal_strlit("./");
    let word = argument(path);
    if text::starts_with(word, "-"@) {
        assert(word.subrange(0, 1)[0] == '-');
        assert(word[0] == '-');
        if text::starts_with(path, "-"@) {
            if clean("./"@ + path) {
                assert(word[0] == '.');
            } else {
                assert(word[0] == '\'');
            }
        } else if clean(path) {
            assert(path.subrange(0, 1) =~= "-"@);
        } else {
            assert(word[0] == '\'');
        }
    }
}

} // verus!
