//! Hooks and their lock.
use vstd::prelude::*;
use crate::hook_health;
use crate::laws::places;
use crate::laws::words;
use crate::paths;
use crate::text;

verus! {

proof fn lemma_marked(names: Seq<Seq<char>>, bodies: Seq<Option<String>>)
    requires
        bodies.len() <= names.len(),
    ensures
        forall|i: int|
            0 <= i < hook_health::marked(names, bodies).len() ==> exists|k: int|
                0 <= k < bodies.len() && names[k] == (#[trigger] hook_health::marked(names, bodies)[i]) && (
                (#[trigger] bodies[k]) matches Some(b) && text::contains(b@, "codesage install-hooks"@)),
        forall|k: int|
            0 <= k < bodies.len() && ((#[trigger] bodies[k]) matches Some(b) && text::contains(
                b@,
                "codesage install-hooks"@,
            )) ==> hook_health::marked(names, bodies).contains(names[k]),
    decreases bodies.len(),
{
    if bodies.len() > 0 {
        let less = bodies.drop_last();
        lemma_marked(names, less);
        let front = hook_health::marked(names, less);
        let all = hook_health::marked(names, bodies);
        let n = bodies.len() - 1;
        assert(bodies[n] == bodies.last());
        assert forall|i: int| 0 <= i < all.len() implies exists|k: int|
            0 <= k < bodies.len() && names[k] == (#[trigger] all[i]) && ((#[trigger] bodies[k]) matches Some(b)
                && text::contains(b@, "codesage install-hooks"@)) by {
            if i < front.len() {
                assert(front[i] == all[i]);
                let k = choose|k: int|
                    0 <= k < less.len() && names[k] == front[i] && ((#[trigger] less[k]) matches Some(b)
                        && text::contains(b@, "codesage install-hooks"@));
                assert(bodies[k] == less[k]);
            } else {
                assert(all[i] == names[n]);
            }
        }
        assert forall|k: int|
            0 <= k < bodies.len() && ((#[trigger] bodies[k]) matches Some(b) && text::contains(
                b@,
                "codesage install-hooks"@,
            )) implies all.contains(names[k]) by {
            if k < less.len() {
                assert(less[k] == bodies[k]);
                let i = choose|i: int| 0 <= i < front.len() && front[i] == names[k];
                assert(all[i] == names[k]);
            } else {
                assert(all[all.len() - 1] == names[k]);
            }
        }
    }
}

/// A hook counts as installed exactly where its file carries the mark.
pub proof fn law_installed_hooks_carry_the_mark(bodies: Seq<Option<String>>)
    requires
        bodies.len() <= 4,
    ensures
        forall|i: int|
            0 <= i < hook_health::marked(hook_health::hook_names(), bodies).len() ==> exists|k: int|
                0 <= k < bodies.len() && hook_health::hook_names()[k] == (#[trigger] hook_health::marked(
                    hook_health::hook_names(),
                    bodies,
                )[i]) && ((#[trigger] bodies[k]) matches Some(b) && text::contains(b@, "codesage install-hooks"@)),
        forall|k: int|
            0 <= k < bodies.len() && ((#[trigger] bodies[k]) matches Some(b) && text::contains(
                b@,
                "codesage install-hooks"@,
            )) ==> hook_health::marked(hook_health::hook_names(), bodies).contains(hook_health::hook_names()[k]),
{
    lemma_marked(hook_health::hook_names(), bodies);
}

/// The hooks that index after a commit, a merge, a checkout and a rewrite.
pub proof fn law_these_hooks_index()
    ensures
        hook_health::hook_names() == seq!["post-commit"@, "post-merge"@, "post-checkout"@, "post-rewrite"@],
{
}

/// A lock names its process where the file is a regular one of at most
/// thirty-two bytes and holds a positive number.
pub proof fn law_a_lock_names_a_positive_process(regular: bool, len: nat, raw: Option<Seq<char>>, n: nat)
    ensures
        hook_health::pid_in(regular, len, raw) == Some(n) <==> regular && len <= 32 && n > 0 && (raw matches Some(s)
            && text::parsed(text::trimmed(s), u32::MAX as nat) == Some(n)),
{
}

/// A lock without a live process is an orphan; one that names no process becomes
/// one after half an hour; one whose process lives never does.
pub proof fn law_a_lock_is_an_orphan_without_its_process(pid: u32, age: u64)
    ensures
        hook_health::orphan(hook_health::held_label(Some(pid), false), Some(age)),
        !hook_health::orphan(hook_health::held_label(Some(pid), true), Some(age)),
        hook_health::orphan(hook_health::held_label(None, false), Some(age)) <==> age >= 1800,
        hook_health::orphan(hook_health::held_label(None, true), Some(age)) <==> age >= 1800,
        !hook_health::orphan(hook_health::held_label(None, false), None),
        !hook_health::orphan(hook_health::LOCK_ABSENT@, Some(age)),
{
    hook_health::law_only_a_lock_without_a_live_run_is_reaped(Some(pid), true, Some(age));
    hook_health::law_only_a_lock_without_a_live_run_is_reaped(Some(pid), false, Some(age));
    hook_health::law_only_a_lock_without_a_live_run_is_reaped(None, true, Some(age));
    hook_health::law_only_a_lock_without_a_live_run_is_reaped(None, false, Some(age));
    hook_health::law_only_a_lock_without_a_live_run_is_reaped(None, false, None);
}

/// A process runs a hook where it lives and its command names one of the hooks
/// below a hooks directory, or cannot be read.
pub proof fn law_a_live_process_counts_unless_it_runs_something_else(
    args: Seq<char>,
    root: Seq<char>,
    dir: Option<Seq<char>>,
    i: int,
)
    requires
        0 <= i < 4,
    ensures
        !hook_health::is_hook_run(false, Some(args), root, dir),
        hook_health::is_hook_run(true, None, root, dir),
        text::trimmed(args).len() == 0 ==> hook_health::is_hook_run(true, Some(args), root, dir),
        text::contains(text::trimmed(args), ".git/hooks"@ + "/"@ + hook_health::hook_names()[i])
            ==> hook_health::is_hook_run(true, Some(args), root, dir),
        text::contains(text::trimmed(args), ".husky"@ + "/"@ + hook_health::hook_names()[i])
            ==> hook_health::is_hook_run(true, Some(args), root, dir),
        (dir matches Some(d) && text::contains(text::trimmed(args), d + "/"@ + hook_health::hook_names()[i]))
            ==> hook_health::is_hook_run(true, Some(args), root, dir),
        text::trimmed(args).len() > 0 && dir is None && (forall|k: int|
            0 <= k < 4 ==> !text::contains(
                text::trimmed(args),
                ".git/hooks"@ + "/"@ + #[trigger] hook_health::hook_names()[k],
            ) && !text::contains(text::trimmed(args), ".husky"@ + "/"@ + hook_health::hook_names()[k]))
            ==> !hook_health::is_hook_run(true, Some(args), root, dir),
{
    assert(hook_health::hook_names().len() == 4);
}

/// The newest run is the last that the log says began, and its exit the last that
/// the log says ended after it.
pub proof fn law_the_newest_run_is_the_last_that_began(lines: Seq<Seq<char>>, line: Seq<char>, later: Option<nat>)
    ensures
        hook_health::newest_run(Seq::empty(), later) == (None::<Seq<char>>, later),
        !text::contains(line, " hook exit="@) && text::contains(line, " hook start"@) ==> hook_health::newest_run(
            lines.push(line),
            later,
        ) == (hook_health::stamp(line), later),
        !text::contains(line, " hook exit="@) && !text::contains(line, " hook start"@) ==> hook_health::newest_run(
            lines.push(line),
            later,
        ) == hook_health::newest_run(lines, later),
        text::split_first(line, " hook exit="@) matches Some((before, rest)) ==> {
            &&& later is None ==> hook_health::newest_run(lines.push(line), later) == hook_health::newest_run(
                lines,
                hook_health::exit_code(rest),
            )
            &&& later is Some ==> hook_health::newest_run(lines.push(line), later) == hook_health::newest_run(
                lines,
                later,
            )
        },
{
    text::lemma_contains_find(line, " hook exit="@);
    assert(lines.push(line).drop_last() =~= lines);
}

/// Where hooks lie: in the directory that git is configured for, taken from the
/// project root, or else in `hooks` of the common directory.
pub proof fn law_hooks_lie_where_git_looks_for_them(raw: Seq<char>, root: Seq<char>, common: Seq<char>)
    ensures
        hook_health::configured_dir(None, root, common) == paths::pushed(common, "hooks"@),
        text::trimmed(raw).len() == 0 ==> hook_health::configured_dir(Some(raw), root, common) == paths::pushed(
            common,
            "hooks"@,
        ),
        text::trimmed(raw).len() > 0 ==> hook_health::configured_dir(Some(raw), root, common) == paths::pushed(
            root,
            text::trimmed(raw),
        ),
{
}

/// The digits at the front of a text are read in their order, up to the first
/// character that is none.
pub proof fn law_the_digits_in_front_are_read(d: Seq<char>, rest: Seq<char>)
    requires
        forall|i: int| 0 <= i < d.len() ==> '0' <= (#[trigger] d[i]) <= '9',
        rest.len() == 0 || !('0' <= rest[0] <= '9'),
    ensures
        hook_health::leading_digits(d + rest) == d,
    decreases d.len(),
{
    let s = d + rest;
    if d.len() > 0 {
        let more = d.skip(1);
        assert(s[0] == d[0]);
        assert('0' <= d[0] <= '9');
        assert forall|i: int| 0 <= i < more.len() implies '0' <= (#[trigger] more[i]) <= '9' by {
            assert(more[i] == d[i + 1]);
        }
        law_the_digits_in_front_are_read(more, rest);
        assert(s.skip(1) =~= more + rest);
        assert(seq![d[0]] + more =~= d);
    } else {
        assert(s =~= rest);
        assert(hook_health::leading_digits(rest) =~= d);
    }
}

/// A run is told by the time between the brackets at the front of its line.
pub proof fn law_a_line_is_stamped_between_brackets(ts: Seq<char>, rest: Seq<char>, line: Seq<char>)
    requires
        !ts.contains(']'),
    ensures
        hook_health::stamp(seq!['['] + (ts + seq![']'] + rest)) == Some(ts),
        line.len() == 0 || line[0] != '[' ==> hook_health::stamp(line) is None,
{
    reveal_strlit("[");
    reveal_strlit("]");
    assert("["@ =~= seq!['[']);
    assert("]"@ =~= seq![']']);
    words::law_a_text_begins_and_ends_with_its_parts(seq!['['], ts + seq![']'] + rest, Seq::empty());
    words::law_a_text_is_cut_at_its_first_separator(ts, rest, ']');
    if text::starts_with(line, "["@) {
        assert(line.subrange(0, 1)[0] == line[0]);
    }
}

/// An exit code is the number in front, whatever follows it.
pub proof fn law_an_exit_code_is_the_number_in_front(n: nat, rest: Seq<char>)
    requires
        rest.len() == 0 || !('0' <= rest[0] <= '9'),
    ensures
        n <= i32::MAX ==> hook_health::exit_code(text::decimal(n) + rest) == Some(n),
        n > i32::MAX ==> hook_health::exit_code(text::decimal(n) + rest) is None,
{
    let d = text::decimal(n);
    text::law_a_written_number_reads_back(n);
    assert forall|i: int| 0 <= i < d.len() implies '0' <= (#[trigger] d[i]) <= '9' by {
        assert(text::is_digit(d[i]));
    }
    law_the_digits_in_front_are_read(d, rest);
    assert(d[0] != '+');
}

/// The first line of a log that was cut at its head is passed over, as it may be
/// a part of one.
pub proof fn law_a_cut_line_is_passed_over(s: Seq<char>)
    ensures
        hook_health::log_lines(s, false) == text::lines(s),
        text::lines(s).len() > 0 ==> seq![text::lines(s)[0]] + hook_health::log_lines(s, true) == text::lines(s),
        text::lines(s).len() == 0 ==> hook_health::log_lines(s, true).len() == 0,
{
    if text::lines(s).len() > 0 {
        assert(seq![text::lines(s)[0]] + hook_health::log_lines(s, true) =~= text::lines(s));
    }
}

/// Hooks that are configured to lie in the runner's own directory lie beside it.
pub proof fn law_the_directory_of_a_runner_is_left(root: Seq<char>, dir: Seq<char>, raw: Seq<char>)
    requires
        root.len() > 0,
        root.last() != '/',
        dir.len() > 0,
        dir[0] != '/',
        dir.last() != '/',
        dir.last() != '.',
        text::trimmed(raw) == dir + seq!['/', '_'],
    ensures
        hook_health::beside_runner(Some(raw), root) == Some(root + seq!['/'] + dir),
        hook_health::beside_runner(None, root) is None,
{
    reveal_strlit("_");
    reveal_strlit("/");
    assert("_"@ =~= seq!['_']);
    assert("/"@ =~= seq!['/']);
    let d = root + seq!['/'] + dir;
    let full = paths::pushed(root, text::trimmed(raw));
    assert(text::trimmed(raw)[0] == dir[0]);
    assert(full =~= d + seq!['/'] + seq!['_']);
    assert(d.last() == dir.last());
    assert(!seq!['_'].contains('/')) by {
        if seq!['_'].contains('/') {
            let i = choose|i: int| 0 <= i < seq!['_'].len() && seq!['_'][i] == '/';
        }
    }
    assert(seq!['_'] != seq!['.']) by {
        assert(seq!['_'][0] != seq!['.'][0]);
    }
    assert(seq!['_'] != seq!['.', '.']) by {
        assert(seq!['_'].len() != seq!['.', '.'].len());
    }
    assert(places::component(seq!['_']));
    places::law_a_file_lies_in_its_directory(d, seq!['_']);
}

} // verus!
