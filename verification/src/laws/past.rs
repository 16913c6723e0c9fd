//! What the history of a project says.
use vstd::prelude::*;
use crate::bundle::FeatureFileRole;
use crate::history::anchor;
use crate::history::anchor::{FeatureFileRef, HistoryAnchor, HistoryAnchorSource, IndexMode, Pass};
use crate::history::authors;
use crate::history::authors::AuthorEvent;
use crate::history::commits;
use crate::history::commits::{ChangeView, CommitView, LogView};
use crate::history::coupling;
use crate::history::coupling::{CoChangeEntry, CoChangeRow, TableFacts};
use crate::history::tally;
use crate::history::tally::{ClassedChange, ClassedCommit, PairStats, PairTouchView, TouchView};
use crate::history::top_symbols;
use crate::laws::words;
use crate::model::Symbol;
use crate::order;
use crate::text;

verus! {

// ---------------------------------------------------------------------------
// Subjects
// ---------------------------------------------------------------------------

/// A subject tells of a fix by its prefix, by the word, or by the issue that it
/// closes; and by nothing else.
pub proof fn law_a_fix_is_told_by_its_subject(s: Seq<char>)
    ensures
        commits::fix_subject(s) <==> {
            ||| text::starts_with(s, "fix:"@)
            ||| text::starts_with(s, "fix("@)
            ||| text::starts_with(s, "bugfix:"@)
            ||| text::starts_with(s, "hotfix:"@)
            ||| text::contains(s, " fix "@)
            ||| text::contains(s, " fixes "@)
            ||| text::contains(s, "fixes #"@)
            ||| text::contains(s, "fixes gh-"@)
            ||| text::contains(s, "closes #"@)
        },
{
}

/// Chores, builds, style and documentation are passed over, unless the subject
/// tells of a migration, a refactoring, an adoption or a deprecation.
pub proof fn law_chores_are_passed_over(subject: Seq<char>)
    ensures
        ({
            let s = text::lowered(subject);
            let chore = text::starts_with(s, "chore:"@) || text::starts_with(s, "chore("@) || text::starts_with(
                s,
                "build:"@,
            ) || text::starts_with(s, "build("@) || text::starts_with(s, "ci:"@) || text::starts_with(s, "style:"@)
                || text::starts_with(s, "docs:"@);
            let kept = text::contains(s, "migrate"@) || text::contains(s, "refactor"@) || text::contains(s, "adopt"@)
                || text::contains(s, "deprecate"@);
            commits::skipped_subject(subject) <==> chore && !kept
        }),
{
}

// ---------------------------------------------------------------------------
// Logs
// ---------------------------------------------------------------------------

proof fn lemma_arrow(a: Seq<char>, b: Seq<char>)
    requires
        !a.contains('='),
    ensures
        text::find(a + " => "@ + b, " => "@) == Some(a.len() as int),
{
    reveal_strlit(" => ");
    let s = a + " => "@ + b;
    text::lemma_first_at(s, " => "@, 0);
    assert(s.subrange(a.len() as int, a.len() as int + 4) =~= " => "@);
    assert(text::occurs_at(s, " => "@, a.len() as int));
    if let Some(i) = text::find(s, " => "@) {
        if i < a.len() {
            assert(s.subrange(i, i + 4)[1] == " => "@[1]);
            assert(s[i + 1] == '=');
            if i + 1 < a.len() {
                assert(a[i + 1] == '=');
            } else {
                assert(s[a.len() as int] == ' ');
            }
        }
    }
}

/// A rename is told by its destination: what stands behind the arrow, with what
/// the two names share around the braces.
pub proof fn law_a_rename_is_told_by_its_destination(a: Seq<char>, b: Seq<char>, c: Seq<char>, d: Seq<char>)
    requires
        !a.contains('{'),
        !a.contains('}'),
        !b.contains('}'),
        !b.contains('='),
        !c.contains('}'),
    ensures
        commits::destination(a + "{"@ + b + " => "@ + c + "}"@ + d) == a + c + d,
{
    reveal_strlit("{");
    reveal_strlit("}");
    reveal_strlit(" => ");
    assert("{"@ =~= seq!['{']);
    assert("}"@ =~= seq!['}']);
    let inner = "{"@ + b + " => "@ + c;
    let raw = a + "{"@ + b + " => "@ + c + "}"@ + d;
    assert(raw =~= a + seq!['{'] + (b + " => "@ + c + "}"@ + d));
    words::law_a_text_is_cut_at_its_first_separator(a, b + " => "@ + c + "}"@ + d, '{');
    let head = a + inner;
    assert(raw =~= head + seq!['}'] + d);
    assert(!head.contains('}')) by {
        if head.contains('}') {
            let i = choose|i: int| 0 <= i < head.len() && head[i] == '}';
            if i < a.len() {
                assert(a[i] == '}');
            } else if i == a.len() {
                assert(head[i] == '{');
            } else if i < a.len() + 1 + b.len() {
                assert(b[i - a.len() - 1] == '}');
            } else if i < a.len() + 1 + b.len() + 4 {
                assert(" => "@[i - a.len() - 1 - b.len()] == '}');
            } else {
                assert(c[i - a.len() - 1 - b.len() - 4] == '}');
            }
        }
    }
    words::law_a_text_is_cut_at_its_first_separator(head, d, '}');
    text::lemma_first_at(raw, "{"@, 0);
    text::lemma_first_at(raw, "}"@, 0);
    let open = text::find(raw, "{"@)->0;
    let close = text::find(raw, "}"@)->0;
    assert(raw.take(open) == a);
    assert(raw.take(open).len() == a.len());
    assert(open == a.len());
    assert(raw.take(close) == head);
    assert(raw.take(close).len() == head.len());
    assert(close == head.len());
    assert(raw.subrange(open, close) =~= ("{"@ + b) + " => "@ + c);
    assert(!("{"@ + b).contains('=')) by {
        if ("{"@ + b).contains('=') {
            let i = choose|i: int| 0 <= i < ("{"@ + b).len() && ("{"@ + b)[i] == '=';
            if i > 0 {
                assert(b[i - 1] == '=');
            }
        }
    }
    lemma_arrow("{"@ + b, c);
    assert(raw.subrange(open + ("{"@ + b).len() + 4, close) =~= c);
    assert(raw.skip(close + 1) =~= d);
}

/// A line of a log that gives two counts and a path is a change of that path by
/// so many lines, and belongs to the commit before it.
pub proof fn law_a_count_line_is_a_change_of_its_commit(
    log: LogView,
    c: CommitView,
    line: Seq<char>,
    added: nat,
    deleted: nat,
    path: Seq<char>,
    a: Seq<char>,
    d: Seq<char>,
)
    requires
        line == a + seq!['\t'] + (d + seq!['\t'] + path),
        !a.contains('\t'),
        !d.contains('\t'),
        text::parsed(a, u32::MAX as nat) == Some(added),
        text::parsed(d, u32::MAX as nat) == Some(deleted),
        path.len() > 0,
        log.current == Some(c),
        !text::starts_with(line, "commit\t"@),
    ensures
        commits::with_line(log, line) == (LogView {
            done: log.done,
            current: Some(
                CommitView {
                    changes: c.changes.push(
                        ChangeView { path: commits::destination(path), added: added as u32, deleted: deleted as u32 },
                    ),
                    ..c
                },
            ),
        }),
{
    reveal_strlit("\t");
    assert("\t"@ =~= seq!['\t']);
    words::law_a_text_is_cut_at_its_first_separator(a, d + seq!['\t'] + path, '\t');
    words::law_a_text_is_cut_at_its_first_separator(d, path, '\t');
}

/// A header line ends the commit before it and begins another; the last commit is
/// complete at the end.
pub proof fn law_a_header_begins_a_commit(log: LogView, rest: Seq<char>)
    ensures
        commits::with_line(log, "commit\t"@ + rest).done == commits::closed_log(log),
        commits::with_line(log, "commit\t"@ + rest).current == commits::header_commit(rest),
        log.current is None ==> commits::closed_log(log) == log.done,
        log.current matches Some(c) ==> commits::closed_log(log) == log.done.push(c),
{
    words::law_a_text_begins_and_ends_with_its_parts("commit\t"@, rest, Seq::empty());
}

// ---------------------------------------------------------------------------
// Coupling
// ---------------------------------------------------------------------------

/// Two observations are apart by the whole days between them; without both, or
/// with the second before the first, by none.
pub proof fn law_observations_are_apart_by_whole_days(f: i64, l: i64, n: int)
    requires
        0 <= n < 4_294_967_296,
    ensures
        l <= f ==> coupling::days(Some(f), Some(l)) == 0,
        n * 86_400 <= l - f < (n + 1) * 86_400 ==> coupling::days(Some(f), Some(l)) == n,
        coupling::days(None, Some(l)) == 0,
        coupling::days(Some(f), None) == 0,
{
    if n * 86_400 <= l - f < (n + 1) * 86_400 {
        assert((l - f) / 86_400 == n) by (nonlinear_arith)
            requires
                n * 86_400 <= l - f < (n + 1) * 86_400,
        ;
    }
}

/// A pair recurs where its observations are thirty days apart; one that was
/// indexed before spans were tracked is told as unknown.
pub proof fn law_a_pair_recurs_over_thirty_days(e: CoChangeEntry, r: CoChangeRow)
    requires
        coupling::shows(e, r),
    ensures
        e.recurring <==> e.span_days >= 30,
        e.span_known <==> r.first_observed_at is Some,
        e.count == r.count,
        e.recurrence == r.windows,
        e.file@ == r.file@,
        e.last_observed_at == r.last_observed_at,
        e.span_days == coupling::days(r.first_observed_at, r.last_observed_at),
{
}

/// Each pair of an unknown span counts once.
pub proof fn law_unknown_spans_are_counted(rows: Seq<CoChangeRow>, r: CoChangeRow)
    ensures
        coupling::unknown_spans(Seq::empty()) == 0,
        r.first_observed_at is None ==> coupling::unknown_spans(rows.push(r)) == coupling::unknown_spans(rows) + 1,
        r.first_observed_at is Some ==> coupling::unknown_spans(rows.push(r)) == coupling::unknown_spans(rows),
{
    reveal(Seq::filter);
    assert(rows.push(r).drop_last() =~= rows);
}

/// The widest span is that of some pair, and no pair has a wider one.
pub proof fn law_the_widest_span_is_no_less_than_any(rows: Seq<CoChangeRow>)
    ensures
        forall|k: int|
            0 <= k < rows.len() ==> coupling::days(
                (#[trigger] rows[k]).first_observed_at,
                rows[k].last_observed_at,
            ) <= coupling::max_span(rows),
        rows.len() > 0 ==> exists|k: int|
            0 <= k < rows.len() && coupling::days((#[trigger] rows[k]).first_observed_at, rows[k].last_observed_at)
                == coupling::max_span(rows) || coupling::max_span(rows) == 0,
        coupling::any_recurring(rows) ==> exists|k: int|
            0 <= k < rows.len() && coupling::days((#[trigger] rows[k]).first_observed_at, rows[k].last_observed_at)
                >= 30,
    decreases rows.len(),
{
    if rows.len() > 0 {
        let less = rows.drop_last();
        law_the_widest_span_is_no_less_than_any(less);
        assert(rows[rows.len() - 1] == rows.last());
        assert forall|k: int| 0 <= k < rows.len() implies coupling::days(
            (#[trigger] rows[k]).first_observed_at,
            rows[k].last_observed_at,
        ) <= coupling::max_span(rows) by {
            if k < less.len() {
                assert(less[k] == rows[k]);
            }
        }
        if coupling::any_recurring(rows) {
            if coupling::any_recurring(less) {
                let k = choose|k: int|
                    0 <= k < less.len() && coupling::days(
                        (#[trigger] less[k]).first_observed_at,
                        less[k].last_observed_at,
                    ) >= 30;
                assert(rows[k] == less[k]);
            } else {
                assert(coupling::days(rows[rows.len() - 1].first_observed_at, rows[rows.len() - 1].last_observed_at)
                    >= 30);
            }
        }
        assert(exists|k: int|
            0 <= k < rows.len() && coupling::days((#[trigger] rows[k]).first_observed_at, rows[k].last_observed_at)
                == coupling::max_span(rows) || coupling::max_span(rows) == 0) by {
            if less.len() > 0 && coupling::max_span(rows) == coupling::max_span(less) && coupling::max_span(less) != 0 {
                let k = choose|k: int|
                    0 <= k < less.len() && coupling::days(
                        (#[trigger] less[k]).first_observed_at,
                        less[k].last_observed_at,
                    ) == coupling::max_span(less) || coupling::max_span(less) == 0;
                assert(rows[k] == less[k]);
            } else {
                assert(rows[rows.len() - 1] == rows.last());
            }
        }
    }
}

/// Pairs that recur and whose spans are known need no note; anything else is
/// explained.
pub proof fn law_only_recurring_pairs_go_without_a_note(rows: Seq<CoChangeRow>, commits_seen: Option<u32>, t: TableFacts)
    ensures
        coupling::coupling_text(rows, commits_seen, t) is None <==> rows.len() > 0 && coupling::unknown_spans(rows) == 0
            && coupling::max_span(rows) >= 30,
{
}

// ---------------------------------------------------------------------------
// Authors
// ---------------------------------------------------------------------------

/// An author is known by their address, or by their name where there is none.
pub proof fn law_an_author_is_known_by_address_or_name(email: Seq<char>, name: Seq<char>)
    ensures
        ({
            let address = text::lowercased(text::trimmed(email));
            let plain = text::joined(text::words(name), " "@);
            &&& address.len() > 0 ==> authors::identity(email, name) == Some("email:"@ + address)
            &&& address.len() == 0 && plain.len() > 0 ==> authors::identity(email, name) == Some(
                "name:"@ + text::lowercased(plain),
            )
            &&& address.len() == 0 && plain.len() == 0 ==> authors::identity(email, name) is None
        }),
{
}

/// An event counts where it has an author and is at most two years of 365 days
/// old, the oldest second included.
pub proof fn law_events_of_two_years_count(events: Seq<AuthorEvent>, now: int, x: AuthorEvent)
    requires
        now - 63_072_000 >= i64::MIN,
    ensures
        authors::qualifying(events, now).contains(x) <==> events.contains(x) && x.author@.len() > 0 && x.timestamp
            >= now - 63_072_000,
        authors::nameless(events, now) <==> exists|i: int|
            0 <= i < events.len() && (#[trigger] events[i]).author@.len() == 0 && events[i].timestamp >= now
                - 63_072_000,
{
    let p = |e: AuthorEvent| e.author@.len() > 0 && e.timestamp >= authors::author_cutoff(now);
    let kept = events.filter(p);
    assert(authors::qualifying(events, now) == kept);
    if kept.contains(x) {
        let i = choose|i: int| 0 <= i < kept.len() && kept[i] == x;
        events.lemma_filter_pred(p, i);
        events.lemma_filter_contains_rev(p, x);
    }
    if events.contains(x) && p(x) {
        let i = choose|i: int| 0 <= i < events.len() && events[i] == x;
        events.lemma_filter_contains(p, i);
    }
}

/// Concentration is told only of a complete history that holds a qualifying event
/// and no nameless one in its window.
pub proof fn law_concentration_needs_a_complete_named_history(
    complete: bool,
    events: Seq<AuthorEvent>,
    now: int,
    name: Seq<char>,
)
    ensures
        authors::author_gap(complete, events, now, name) is None <==> complete && events.len() > 0 && !authors::nameless(
            events,
            now,
        ) && authors::qualifying(events, now).len() > 0,
{
}

// ---------------------------------------------------------------------------
// Windows
// ---------------------------------------------------------------------------

/// The window reaches two years of 365 days back, and never before the epoch.
pub proof fn law_the_window_reaches_two_years_back(at: int)
    ensures
        at >= 63_072_000 ==> anchor::window_cutoff(at) == at - 63_072_000,
        at < 63_072_000 ==> anchor::window_cutoff(at) == 0,
{
}

/// A history is read from scratch where that is asked for, where nothing was read
/// yet, or where what was read is no ancestor; it is left alone where nothing is
/// new.
pub proof fn law_a_history_is_read_as_far_as_it_is_new(last: Seq<char>, head: Seq<char>, ancestor: bool, mode: IndexMode)
    ensures
        anchor::due(IndexMode::Full, Some(last), head, ancestor) == Pass::Full,
        anchor::due(mode, None, head, ancestor) == Pass::Full,
        mode != IndexMode::Full && last == head ==> anchor::due(mode, Some(last), head, ancestor) == Pass::Unchanged,
        mode != IndexMode::Full && last != head && ancestor ==> anchor::due(mode, Some(last), head, ancestor)
            == Pass::Incremental,
        mode != IndexMode::Full && last != head && !ancestor ==> anchor::due(mode, Some(last), head, ancestor)
            == Pass::Full,
{
}

/// A feature is touched by a changed file that is part of it and no test.
pub proof fn law_tests_do_not_touch_a_feature(f: FeatureFileRef, changed: Seq<Seq<char>>)
    ensures
        f.role == FeatureFileRole::Test ==> !anchor::touches(f, changed),
        f.role != FeatureFileRole::Test ==> (anchor::touches(f, changed) <==> changed.contains(f.path@)),
{
}

/// Every line that is not blank names a changed file, with forward slashes.
pub proof fn law_every_line_names_a_changed_file(lines: Seq<Seq<char>>, line: Seq<char>)
    ensures
        text::trimmed(line).len() == 0 ==> anchor::changed_in(lines.push(line)) == anchor::changed_in(lines),
        text::trimmed(line).len() > 0 ==> anchor::changed_in(lines.push(line)) == anchor::changed_in(lines).push(
            text::replaced(text::trimmed(line), '\\', '/'),
        ),
{
    assert(lines.push(line).drop_last() =~= lines);
}

/// A stored anchor names its clock.
pub proof fn law_an_anchor_names_its_clock(epoch: i64)
    ensures
        anchor::stored_anchor(Some(("HEAD"@, epoch))) == Some(
            HistoryAnchor { epoch, source: HistoryAnchorSource::HeadCommit },
        ),
        anchor::stored_anchor(Some(("now"@, epoch))) == Some(
            HistoryAnchor { epoch, source: HistoryAnchorSource::WallClock },
        ),
        anchor::source_label(HistoryAnchorSource::HeadCommit) == "HEAD"@,
        anchor::source_label(HistoryAnchorSource::WallClock) == "now"@,
{
    reveal_strlit("HEAD");
    reveal_strlit("now");
    assert("HEAD"@.len() != "now"@.len());
}

// ---------------------------------------------------------------------------
// Tallies
// ---------------------------------------------------------------------------

/// A change counts where the commit is not passed over and the path is not
/// excluded.
pub proof fn law_a_change_counts_unless_it_is_excluded(c: ClassedCommit, x: ClassedChange)
    ensures
        commits::skipped_subject(c.subject@) ==> tally::kept(c).len() == 0,
        !commits::skipped_subject(c.subject@) ==> (tally::kept(c).contains(x) <==> c.changes@.contains(x)
            && !x.excluded),
{
    let p = |x: ClassedChange| !x.excluded;
    let kept = c.changes@.filter(p);
    if kept.contains(x) {
        let i = choose|i: int| 0 <= i < kept.len() && kept[i] == x;
        c.changes@.lemma_filter_pred(p, i);
        c.changes@.lemma_filter_contains_rev(p, x);
    }
    if c.changes@.contains(x) && !x.excluded {
        let i = choose|i: int| 0 <= i < c.changes@.len() && c.changes@[i] == x;
        c.changes@.lemma_filter_contains(p, i);
    }
}

/// A touch counts for its file alone: once, as a fix where it is one, and as the
/// last where it is the latest.
pub proof fn law_a_touch_counts_for_its_file(touches: Seq<TouchView>, t: TouchView, path: Seq<char>)
    ensures
        ({
            let a = tally::counts(touches, path);
            let b = tally::counts(touches.push(t), path);
            &&& t.path != path ==> b == a
            &&& t.path == path ==> b.total == a.total + 1
            &&& t.path == path && t.fix ==> b.fixes == a.fixes + 1
            &&& t.path == path && !t.fix ==> b.fixes == a.fixes
            &&& t.path == path ==> (b.last matches Some(l) && l >= t.timestamp && (a.last matches Some(m) ==> l >= m
                && (l == m || l == t.timestamp)) && (a.last is None ==> l == t.timestamp))
        }),
{
    assert(touches.push(t).drop_last() =~= touches);
}

/// A pair was touched at these times: counted once each, first and last at the
/// extremes.
pub proof fn law_a_pair_is_counted_with_its_first_and_last_time(
    touches: Seq<PairTouchView>,
    t: PairTouchView,
    a: Seq<char>,
    b: Seq<char>,
)
    ensures
        ({
            let p = tally::pair_counts(touches, a, b);
            let q = tally::pair_counts(touches.push(t), a, b);
            &&& !(t.a == a && t.b == b) ==> q == p
            &&& t.a == a && t.b == b ==> q.count == p.count + 1
            &&& t.a == a && t.b == b ==> (q.first matches Some(f) && f <= t.timestamp && (p.first matches Some(g) ==> f
                <= g && (f == g || f == t.timestamp)) && (p.first is None ==> f == t.timestamp))
            &&& t.a == a && t.b == b ==> (q.last matches Some(f) && f >= t.timestamp && (p.last matches Some(g) ==> f
                >= g && (f == g || f == t.timestamp)) && (p.last is None ==> f == t.timestamp))
        }),
{
    assert(touches.push(t).drop_last() =~= touches);
}

/// Two changes make a pair, in the order of their names.
pub open spec fn makes_pair(p: PairTouchView, x: ClassedChange, y: ClassedChange, timestamp: i64) -> bool {
    &&& p.timestamp == timestamp
    &&& order::text_before(x.path@, y.path@) ==> p.a == x.path@ && p.b == y.path@
    &&& !order::text_before(x.path@, y.path@) ==> p.a == y.path@ && p.b == x.path@
    &&& !(x.test_like && y.test_like)
}

proof fn lemma_pairs_from(changes: Seq<ClassedChange>, timestamp: i64, i: int, j: int, x: int, y: int)
    requires
        0 <= i < j,
        i <= x < y < changes.len(),
        x == i ==> y >= j,
        !(changes[x].test_like && changes[y].test_like),
    ensures
        exists|k: int|
            0 <= k < tally::pairs_from(changes, timestamp, i, j).len() && makes_pair(
                #[trigger] tally::pairs_from(changes, timestamp, i, j)[k],
                changes[x],
                changes[y],
                timestamp,
            ),
    decreases changes.len() - i, changes.len() - j,
{
    let all = tally::pairs_from(changes, timestamp, i, j);
    if j >= changes.len() {
        lemma_pairs_from(changes, timestamp, i + 1, i + 2, x, y);
    } else if x == i && y == j {
        assert(makes_pair(all[0], changes[x], changes[y], timestamp));
    } else {
        let rest = tally::pairs_from(changes, timestamp, i, j + 1);
        lemma_pairs_from(changes, timestamp, i, j + 1, x, y);
        let k = choose|k: int|
            0 <= k < rest.len() && makes_pair(#[trigger] rest[k], changes[x], changes[y], timestamp);
        if changes[i].test_like && changes[j].test_like {
            assert(all[k] == rest[k]);
        } else {
            assert(all[k + 1] == rest[k]);
        }
    }
}

/// A pair comes from two changes of the commit.
pub open spec fn is_pair_of(p: PairTouchView, changes: Seq<ClassedChange>, timestamp: i64) -> bool {
    exists|x: int, y: int|
        0 <= x < y < changes.len() && #[trigger] makes_pair(p, changes[x], changes[y], timestamp)
}

proof fn lemma_pairs_come(changes: Seq<ClassedChange>, timestamp: i64, i: int, j: int, k: int)
    requires
        0 <= i < j,
        0 <= k < tally::pairs_from(changes, timestamp, i, j).len(),
    ensures
        is_pair_of(tally::pairs_from(changes, timestamp, i, j)[k], changes, timestamp),
    decreases changes.len() - i, changes.len() - j,
{
    let all = tally::pairs_from(changes, timestamp, i, j);
    if j >= changes.len() {
        lemma_pairs_come(changes, timestamp, i + 1, i + 2, k);
    } else {
        let rest = tally::pairs_from(changes, timestamp, i, j + 1);
        if changes[i].test_like && changes[j].test_like {
            lemma_pairs_come(changes, timestamp, i, j + 1, k);
        } else if k == 0 {
            assert(makes_pair(all[0], changes[i], changes[j], timestamp));
        } else {
            lemma_pairs_come(changes, timestamp, i, j + 1, k - 1);
            assert(all[k] == rest[k - 1]);
        }
    }
}

/// A commit of at most thirty files pairs any two of them that are not both
/// tests, and nothing else; a larger one pairs nothing.
pub proof fn law_a_commit_pairs_its_files(changes: Seq<ClassedChange>, timestamp: i64, x: int, y: int, k: int)
    requires
        0 <= x < y < changes.len(),
    ensures
        changes.len() > 30 ==> tally::commit_pairs(changes, timestamp).len() == 0,
        changes.len() <= 30 && !(changes[x].test_like && changes[y].test_like) ==> exists|i: int|
            0 <= i < tally::commit_pairs(changes, timestamp).len() && makes_pair(
                #[trigger] tally::commit_pairs(changes, timestamp)[i],
                changes[x],
                changes[y],
                timestamp,
            ),
        0 <= k < tally::commit_pairs(changes, timestamp).len() ==> is_pair_of(
            tally::commit_pairs(changes, timestamp)[k],
            changes,
            timestamp,
        ),
{
    if changes.len() <= 30 {
        if !(changes[x].test_like && changes[y].test_like) {
            lemma_pairs_from(changes, timestamp, 0, 1, x, y);
        }
        if 0 <= k < tally::commit_pairs(changes, timestamp).len() {
            lemma_pairs_come(changes, timestamp, 0, 1, k);
        }
    }
}

/// A pair is shown from three commits on.
pub proof fn law_a_pair_is_shown_from_three_commits_on(list: Seq<PairStats>, p: PairStats)
    ensures
        tally::shown_pairs(Seq::empty()) == 0,
        p.count >= 3 ==> tally::shown_pairs(list.push(p)) == tally::shown_pairs(list) + 1,
        p.count < 3 ==> tally::shown_pairs(list.push(p)) == tally::shown_pairs(list),
{
    reveal(Seq::filter);
    assert(list.push(p).drop_last() =~= list);
}

/// Times fall into cells of ninety days from the epoch on.
pub proof fn law_times_fall_into_cells_of_ninety_days(t: int, n: int)
    requires
        0 <= n,
    ensures
        n * 7_776_000 <= t < (n + 1) * 7_776_000 ==> tally::cell(t) == n,
        t < 0 ==> tally::cell(t) == 0,
{
    if n * 7_776_000 <= t < (n + 1) * 7_776_000 {
        assert(t / 7_776_000 == n && t >= 0) by (nonlinear_arith)
            requires
                0 <= n,
                n * 7_776_000 <= t < (n + 1) * 7_776_000,
        ;
    }
}

/// A commit counts as scanned where something of it counts.
pub proof fn law_a_commit_counts_where_something_of_it_does(cs: Seq<ClassedCommit>, c: ClassedCommit)
    ensures
        tally::kept(c).len() > 0 ==> tally::counting(cs.push(c)) == tally::counting(cs) + 1,
        tally::kept(c).len() == 0 ==> tally::counting(cs.push(c)) == tally::counting(cs),
        tally::all_pairs(cs.push(c)) == tally::all_pairs(cs) + tally::commit_pairs(tally::kept(c), c.timestamp),
        tally::commit_touches(c).len() == tally::kept(c).len(),
        forall|i: int|
            0 <= i < tally::kept(c).len() ==> (#[trigger] tally::commit_touches(c)[i]).path == tally::kept(c)[i].path@
                && tally::commit_touches(c)[i].timestamp == c.timestamp && tally::commit_touches(c)[i].fix
                == commits::fix_subject(text::lowered(c.subject@)),
        forall|i: int|
            0 <= i < tally::kept(c).len() ==> (#[trigger] tally::commit_authors(c)[i]).path == tally::kept(c)[i].path@
                && tally::commit_authors(c)[i].author == c.author@ && tally::commit_authors(c)[i].sha == c.sha@,
{
    assert(cs.push(c).drop_last() =~= cs);
}

// ---------------------------------------------------------------------------
// Symbols
// ---------------------------------------------------------------------------

/// A symbol spans its lines, first and last included, and at least one.
pub proof fn law_a_symbol_spans_its_lines(s: Symbol)
    requires
        s.line_end - s.line_start < u32::MAX,
    ensures
        s.line_start <= s.line_end ==> top_symbols::line_count(s) == s.line_end - s.line_start + 1,
        s.line_end < s.line_start ==> top_symbols::line_count(s) == 1,
{
}

} // verus!
