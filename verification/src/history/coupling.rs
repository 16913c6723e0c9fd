//! Files that historically change together.
use vstd::prelude::*;
use vstd::string::*;
use crate::text;
use crate::text::{concat3, concat5, decimal_of};

verus! {

/// Days a pair must keep co-changing before it counts as recurring.
pub const RECURRING_SPAN_DAYS: u32 = 30;

/// One stored pair, seen from one of its two files.
#[derive(Debug)]
pub struct CoChangeRow {
    pub file: String,
    pub count: u32,
    pub windows: u32,
    /// `None` where the pair was indexed before spans were tracked.
    pub first_observed_at: Option<i64>,
    pub last_observed_at: Option<i64>,
    /// The other file is a test.
    pub is_test: bool,
}

/// One pair as an answer shows it.
#[derive(Debug)]
pub struct CoChangeEntry {
    pub file: String,
    pub count: u32,
    pub last_observed_at: Option<i64>,
    pub recurrence: u32,
    pub span_days: u32,
    pub span_known: bool,
    pub recurring: bool,
}

/// The two moments lie no further apart than a count of seconds can tell.
pub open spec fn measurable(first: Option<i64>, last: Option<i64>) -> bool {
    match (first, last) {
        (Some(f), Some(l)) => l - f <= i64::MAX,
        _ => true,
    }
}

/// Whole days from `first` to `last`; none where either is unknown or the
/// order is reversed. The count wraps at 32 bits.
pub open spec fn days(first: Option<i64>, last: Option<i64>) -> int {
    match (first, last) {
        (Some(f), Some(l)) => if l > f {
            ((l - f) / 86_400) % 4_294_967_296
        } else {
            0
        },
        _ => 0,
    }
}

pub fn days_between(first: Option<i64>, last: Option<i64>) -> (r: u32)
    requires
        measurable(first, last),
    ensures
        r == days(first, last),
{
    match (first, last) {
        (Some(f), Some(l)) => if l > f {
            let d: i64 = (l - f) / 86_400;
            (d % 4_294_967_296) as u32
        } else {
            0
        },
        _ => 0,
    }
}

/// The span rule that every answer about coupling applies.
pub fn is_recurring(span_days: u32) -> (r: bool)
    ensures
        r == (span_days >= RECURRING_SPAN_DAYS),
{
    span_days >= RECURRING_SPAN_DAYS
}

/// How an answer shows a stored pair.
pub open spec fn shows(e: CoChangeEntry, r: CoChangeRow) -> bool {
    &&& e.file@ == r.file@
    &&& e.count == r.count
    &&& e.last_observed_at == r.last_observed_at
    &&& e.recurrence == r.windows
    &&& e.span_days == days(r.first_observed_at, r.last_observed_at)
    &&& e.span_known == (r.first_observed_at is Some)
    &&& e.recurring == (e.span_days >= RECURRING_SPAN_DAYS)
}

pub fn to_co_change_entry(r: &CoChangeRow) -> (e: CoChangeEntry)
    requires
        measurable(r.first_observed_at, r.last_observed_at),
    ensures
        shows(e, *r),
{
    let span_days: u32 = days_between(r.first_observed_at, r.last_observed_at);
    CoChangeEntry {
        file: r.file.clone(),
        count: r.count,
        last_observed_at: r.last_observed_at,
        recurrence: r.windows,
        span_days,
        span_known: r.first_observed_at.is_some(),
        recurring: is_recurring(span_days),
    }
}

/// A pair whose span was not tracked.
pub open spec fn span_unknown(r: CoChangeRow) -> bool {
    r.first_observed_at is None
}

/// How many rows have no tracked span.
pub open spec fn unknown_spans(rows: Seq<CoChangeRow>) -> nat {
    rows.filter(|r: CoChangeRow| span_unknown(r)).len()
}

pub fn span_unknown_count(rows: &Vec<CoChangeRow>) -> (n: usize)
    ensures
        n == unknown_spans(rows@),
{
    let ghost p = |r: CoChangeRow| span_unknown(r);
    let mut n: usize = 0;
    let mut i: usize = 0;
    proof {
        assert(rows@.take(0) =~= Seq::empty());
        reveal(Seq::filter);
    }
    while i < rows.len()
        invariant
            i <= rows.len(),
            p == (|r: CoChangeRow| span_unknown(r)),
            n == rows@.take(i as int).filter(p).len(),
            n <= i,
        decreases rows.len() - i,
    {
        proof {
            assert(rows@.take(i + 1).drop_last() =~= rows@.take(i as int));
            assert(rows@.take(i + 1).last() == rows@[i as int]);
            reveal(Seq::filter);
        }
        if rows[i].first_observed_at.is_none() {
            n += 1;
        }
        i += 1;
    }
    assert(rows@.take(rows@.len() as int) =~= rows@);
    n
}

/// A span in words.
pub open spec fn span_words(max_span: nat) -> Seq<char> {
    if max_span == 0 {
        "within a day"@
    } else {
        "within "@ + text::decimal(max_span) + " days"@
    }
}

pub fn span_phrase(max_span: u32) -> (out: String)
    ensures
        out@ == span_words(max_span as nat),
{
    if max_span == 0 {
        String::from_str("within a day")
    } else {
        let n = decimal_of(max_span as u64);
        concat3("within ", n.as_str(), " days")
    }
}

pub open spec fn span_unknown_text(unknown: nat, scope: Seq<char>) -> Seq<char> {
    "span unknown for "@ + text::decimal(unknown) + " of "@ + scope
        + " (indexed before recurrence tracking); run `codesage git-index --full` to populate it"@
}

/// The wording for displayed pairs without a tracked span.
pub fn span_unknown_note(unknown: usize, scope: &str) -> (out: String)
    ensures
        out@ == span_unknown_text(unknown as nat, scope@),
{
    let n = decimal_of(unknown as u64);
    concat5(
        "span unknown for ",
        n.as_str(),
        " of ",
        scope,
        " (indexed before recurrence tracking); run `codesage git-index --full` to populate it",
    )
}

/// What the whole table of pairs shows.
#[derive(Debug, Clone, Copy)]
pub struct TableFacts {
    pub any_recurring: bool,
    pub any_span_missing: bool,
    /// The oldest and the newest observation of any pair.
    pub history: Option<(i64, i64)>,
}

pub open spec fn history_measurable(t: TableFacts) -> bool {
    match t.history {
        Some((first, last)) => measurable(Some(first), Some(last)),
        None => true,
    }
}

/// The note for a page without a recurring pair. A recurring pair anywhere
/// proves that the table can show one; a pair without a tracked span asks for
/// a full pass; a short history cannot have shown recurrence yet.
pub open spec fn one_off_text(max_span: nat, t: TableFacts) -> Seq<char> {
    let span = span_words(max_span);
    if t.any_recurring {
        "every returned pair co-changed only "@ + span
            + "; short-burst evidence (one mass commit or a brief stretch of work), not a recurring pattern"@
    } else if t.any_span_missing {
        "every returned pair co-changed "@ + span
            + ", and no baselined pair in the index spans 30+ days; some pairs predate recurrence tracking, so run `codesage git-index --full` to populate it"@
    } else {
        match t.history {
            Some((first, last)) => if days(Some(first), Some(last)) < RECURRING_SPAN_DAYS {
                "indexed co-change evidence spans only "@ + text::decimal(
                    days(Some(first), Some(last)) as nat,
                ) + " days; recurrence cannot be observed yet, and every returned pair co-changed "@
                    + span
            } else {
                short_burst_text(span)
            },
            None => short_burst_text(span),
        }
    }
}

pub open spec fn short_burst_text(span: Seq<char>) -> Seq<char> {
    "no pair in this history spans 30+ days; this project's coupling is short-burst throughout, and every returned pair co-changed "@
        + span
}

pub fn one_off_page_note(max_span: u32, t: TableFacts) -> (out: String)
    requires
        history_measurable(t),
    ensures
        out@ == one_off_text(max_span as nat, t),
{
    let span = span_phrase(max_span);
    if t.any_recurring {
        return concat3(
            "every returned pair co-changed only ",
            span.as_str(),
            "; short-burst evidence (one mass commit or a brief stretch of work), not a recurring pattern",
        );
    }
    if t.any_span_missing {
        return concat3(
            "every returned pair co-changed ",
            span.as_str(),
            ", and no baselined pair in the index spans 30+ days; some pairs predate recurrence tracking, so run `codesage git-index --full` to populate it",
        );
    }
    if let Some((first, last)) = t.history {
        let n: u32 = days_between(Some(first), Some(last));
        if n < RECURRING_SPAN_DAYS {
            let shown = decimal_of(n as u64);
            let mut out = concat3(
                "indexed co-change evidence spans only ",
                shown.as_str(),
                " days; recurrence cannot be observed yet, and every returned pair co-changed ",
            );
            out.append(span.as_str());
            return out;
        }
    }
    text::concat2(
        "no pair in this history spans 30+ days; this project's coupling is short-burst throughout, and every returned pair co-changed ",
        span.as_str(),
    )
}

/// The longest span among rows.
pub open spec fn max_span(rows: Seq<CoChangeRow>) -> int
    decreases rows.len(),
{
    if rows.len() == 0 {
        0
    } else {
        let r = rows.last();
        let d = days(r.first_observed_at, r.last_observed_at);
        let m = max_span(rows.drop_last());
        if d > m {
            d
        } else {
            m
        }
    }
}

/// Some row is a recurring pair.
pub open spec fn any_recurring(rows: Seq<CoChangeRow>) -> bool {
    max_span(rows) >= RECURRING_SPAN_DAYS
}

/// What an answer says where rows alone do not.
pub open spec fn coupling_text(
    rows: Seq<CoChangeRow>,
    commits: Option<u32>,
    t: TableFacts,
) -> Option<Seq<char>> {
    if rows.len() > 0 {
        if unknown_spans(rows) > 0 {
            Some(
                span_unknown_text(
                    unknown_spans(rows),
                    "these "@ + text::decimal(rows.len()) + " pairs"@,
                ),
            )
        } else if !any_recurring(rows) {
            Some(one_off_text(max_span(rows) as nat, t))
        } else {
            None
        }
    } else {
        match commits {
            None => Some(
                "file has no git history (not tracked by git, no commits yet, or path shape does not match the index — verify with `codesage status` or `codesage git-index --full`)"@,
            ),
            Some(n) => if n < 3 {
                Some(
                    "file has only "@ + text::decimal(n as nat)
                        + " tracked commit(s); co-change pairs need a count of 3+ to be shown (see `codesage git-index --full` to rebaseline)"@,
                )
            } else {
                Some(
                    "file has "@ + text::decimal(n as nat)
                        + " commits but no co-change pair crosses the min-count threshold of 3; indexed co-change evidence is insufficient to infer isolation"@,
                )
            },
        }
    }
}

#[derive(Debug)]
pub struct CouplingReport {
    pub found: bool,
    pub coupled: Vec<CoChangeEntry>,
    pub file_indexed: bool,
    pub file_commits: u32,
    pub note: Option<String>,
}

/// The pairs of a file, in the order given, with the note that an empty or a
/// short-lived list needs. `commits` is `None` for a file without history.
pub fn find_coupling_ranked(
    rows: &Vec<CoChangeRow>,
    commits: Option<u32>,
    table: TableFacts,
) -> (out: CouplingReport)
    requires
        forall|i: int|
            0 <= i < rows@.len() ==> measurable(
                (#[trigger] rows@[i]).first_observed_at,
                rows@[i].last_observed_at,
            ),
        history_measurable(table),
    ensures
        out.found == (commits is Some),
        out.file_indexed == (commits is Some),
        out.file_commits == (match commits {
            Some(n) => n,
            None => 0,
        }),
        out.coupled@.len() == rows@.len(),
        forall|i: int| 0 <= i < rows@.len() ==> shows(#[trigger] out.coupled@[i], rows@[i]),
        text::view_opt(out.note) == coupling_text(rows@, commits, table),
{
    let file_indexed = commits.is_some();
    let file_commits: u32 = match commits {
        Some(n) => n,
        None => 0,
    };
    let unknown: usize = span_unknown_count(rows);
    let mut coupled: Vec<CoChangeEntry> = Vec::new();
    let mut longest: u32 = 0;
    let mut i: usize = 0;
    assert(rows@.take(0) =~= Seq::empty());
    while i < rows.len()
        invariant
            i <= rows.len(),
            forall|i: int|
                0 <= i < rows@.len() ==> measurable(
                    (#[trigger] rows@[i]).first_observed_at,
                    rows@[i].last_observed_at,
                ),
            coupled@.len() == i,
            forall|j: int| 0 <= j < i ==> shows(#[trigger] coupled@[j], rows@[j]),
            longest == max_span(rows@.take(i as int)),
        decreases rows.len() - i,
    {
        assert(rows@.take(i + 1).drop_last() =~= rows@.take(i as int));
        assert(rows@.take(i + 1).last() == rows@[i as int]);
        let e = to_co_change_entry(&rows[i]);
        if e.span_days > longest {
            longest = e.span_days;
        }
        coupled.push(e);
        i += 1;
    }
    assert(rows@.take(rows@.len() as int) =~= rows@);
    let note = if rows.len() > 0 {
        if unknown > 0 {
            let n = decimal_of(rows.len() as u64);
            let scope = concat3("these ", n.as_str(), " pairs");
            Some(span_unknown_note(unknown, scope.as_str()))
        } else if longest < RECURRING_SPAN_DAYS {
            Some(one_off_page_note(longest, table))
        } else {
            None
        }
    } else if !file_indexed {
        Some(
            String::from_str(
                "file has no git history (not tracked by git, no commits yet, or path shape does not match the index — verify with `codesage status` or `codesage git-index --full`)",
            ),
        )
    } else if file_commits < 3 {
        let n = decimal_of(file_commits as u64);
        Some(
            concat3(
                "file has only ",
                n.as_str(),
                " tracked commit(s); co-change pairs need a count of 3+ to be shown (see `codesage git-index --full` to rebaseline)",
            ),
        )
    } else {
        let n = decimal_of(file_commits as u64);
        Some(
            concat3(
                "file has ",
                n.as_str(),
                " commits but no co-change pair crosses the min-count threshold of 3; indexed co-change evidence is insufficient to infer isolation",
            ),
        )
    };
    CouplingReport { found: file_indexed, coupled, file_indexed, file_commits, note }
}

} // verus!
