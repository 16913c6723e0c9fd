//! Who changed a file: identities, and when they say enough to count.
use vstd::prelude::*;
use vstd::string::*;
use crate::order;
use crate::text;
use crate::text::{
    concat2, concat4, concat5, decimal_of, join, signed_of, to_lowercase, trim, words_of,
};

verus! {

pub const AUTHOR_HALF_LIFE_DAYS: u32 = 180;

pub const AUTHOR_HISTORY_DAYS: u32 = 730;

/// The seconds of the history that counts.
pub const AUTHOR_HISTORY_SECS: i64 = 63_072_000;

/// The identity behind a mail address and a name: the address where there is
/// one, else the name, both without regard to case and spacing.
pub open spec fn identity(email: Seq<char>, name: Seq<char>) -> Option<Seq<char>> {
    let address = text::lowercased(text::trimmed(email));
    let plain = text::joined(text::words(name), " "@);
    if address.len() > 0 {
        Some("email:"@ + address)
    } else if plain.len() > 0 {
        Some("name:"@ + text::lowercased(plain))
    } else {
        None
    }
}

/// The identity that a lower-case address and a name with its lower-case form
/// make.
pub fn identity_of(address: &str, plain: &str, lowered: &str) -> (out: Option<String>)
    ensures
        text::view_opt(out) == (if address@.len() > 0 {
            Some("email:"@ + address@)
        } else if plain@.len() > 0 {
            Some("name:"@ + lowered@)
        } else {
            None
        }),
{
    if address.unicode_len() > 0 {
        Some(concat2("email:", address))
    } else if plain.unicode_len() > 0 {
        Some(concat2("name:", lowered))
    } else {
        None
    }
}

/// Finds the identity behind a mail address and a name.
pub fn normalized_author(email: &str, name: &str) -> (out: Option<String>)
    ensures
        text::view_opt(out) == identity(email@, name@),
{
    let address = to_lowercase(trim(email));
    let plain = join(&words_of(name), " ");
    let lowered = to_lowercase(plain.as_str());
    identity_of(address.as_str(), plain.as_str(), lowered.as_str())
}

/// One commit of an author on a path.
#[derive(Debug)]
pub struct AuthorEvent {
    pub author: String,
    pub timestamp: i64,
}

/// The oldest time that counts, as seen from `now`.
pub open spec fn author_cutoff(now: int) -> int {
    if now - AUTHOR_HISTORY_SECS < i64::MIN {
        i64::MIN as int
    } else {
        now - AUTHOR_HISTORY_SECS
    }
}

/// Some commit that counts has no author.
pub open spec fn nameless(events: Seq<AuthorEvent>, now: int) -> bool {
    exists|i: int|
        0 <= i < events.len() && (#[trigger] events[i]).author@.len() == 0 && events[i].timestamp >= author_cutoff(now)
}

/// The commits that count: by a known author, not too old.
pub open spec fn qualifying(events: Seq<AuthorEvent>, now: int) -> Seq<AuthorEvent> {
    events.filter(|e: AuthorEvent| e.author@.len() > 0 && e.timestamp >= author_cutoff(now))
}

/// Why nothing can be said of the authors of a path.
pub open spec fn author_gap(complete: bool, events: Seq<AuthorEvent>, now: int, anchor: Seq<char>) -> Option<Seq<char>> {
    if !complete {
        Some("author concentration unavailable: run codesage git-index --full to populate author history"@)
    } else if events.len() == 0 {
        Some("author concentration unavailable: no indexed author history for this path"@)
    } else if nameless(events, now) {
        Some("author concentration unavailable: commit author identities are missing"@)
    } else if qualifying(events, now).len() == 0 {
        Some(
            "author concentration unavailable: no qualifying commits in the 730-day window anchored at "@ + anchor
                + " (Unix timestamp "@ + text::signed(now) + ")"@,
        )
    } else {
        None
    }
}

fn cutoff_of(now: i64) -> (out: i64)
    ensures
        out == author_cutoff(now as int),
{
    if now < i64::MIN + AUTHOR_HISTORY_SECS {
        i64::MIN
    } else {
        now - AUTHOR_HISTORY_SECS
    }
}

fn is_nameless(events: &Vec<AuthorEvent>, now: i64) -> (r: bool)
    ensures
        r == nameless(events@, now as int),
{
    let cutoff: i64 = cutoff_of(now);
    let mut i: usize = 0;
    while i < events.len()
        invariant
            i <= events@.len(),
            cutoff == author_cutoff(now as int),
            forall|j: int|
                0 <= j < i ==> !((#[trigger] events@[j]).author@.len() == 0 && events@[j].timestamp >= author_cutoff(
                    now as int,
                )),
        decreases events@.len() - i,
    {
        if events[i].author.as_str().unicode_len() == 0 && events[i].timestamp >= cutoff {
            return true;
        }
        i += 1;
    }
    false
}

/// The places of the commits that count.
pub fn qualifying_places(events: &Vec<AuthorEvent>, now: i64) -> (out: Vec<usize>)
    ensures
        out@.len() == qualifying(events@, now as int).len(),
        forall|k: int|
            0 <= k < out@.len() ==> (#[trigger] out@[k]) < events@.len() && events@[out@[k] as int] == qualifying(
                events@,
                now as int,
            )[k],
        forall|a: int, b: int| 0 <= a < b < out@.len() ==> #[trigger] out@[a] < #[trigger] out@[b],
{
    let cutoff: i64 = cutoff_of(now);
    let ghost keep = |e: AuthorEvent| e.author@.len() > 0 && e.timestamp >= author_cutoff(now as int);
    let mut out: Vec<usize> = Vec::new();
    let mut i: usize = 0;
    assert(events@.take(0).filter(keep) =~= Seq::<AuthorEvent>::empty()) by {
        reveal(Seq::filter);
    }
    while i < events.len()
        invariant
            i <= events@.len(),
            cutoff == author_cutoff(now as int),
            keep == (|e: AuthorEvent| e.author@.len() > 0 && e.timestamp >= author_cutoff(now as int)),
            out@.len() == events@.take(i as int).filter(keep).len(),
            forall|k: int|
                0 <= k < out@.len() ==> (#[trigger] out@[k]) < events@.len() && events@[out@[k] as int]
                    == events@.take(i as int).filter(keep)[k],
            forall|k: int| 0 <= k < out@.len() ==> #[trigger] out@[k] < i,
            forall|a: int, b: int| 0 <= a < b < out@.len() ==> #[trigger] out@[a] < #[trigger] out@[b],
        decreases events@.len() - i,
    {
        proof {
            reveal(Seq::filter);
            assert(events@.take(i + 1).drop_last() =~= events@.take(i as int));
            assert(events@.take(i + 1).last() == events@[i as int]);
        }
        if events[i].author.as_str().unicode_len() > 0 && events[i].timestamp >= cutoff {
            out.push(i);
        }
        i += 1;
    }
    assert(events@.take(events@.len() as int) =~= events@);
    out
}

/// The authors of commits.
pub open spec fn authors_of(events: Seq<AuthorEvent>) -> Seq<Seq<char>> {
    events.map_values(|e: AuthorEvent| e.author@)
}

/// The identities whose commits count, ascending and each once. There is none
/// exactly where no commit counts.
pub fn qualifying_authors(events: &Vec<AuthorEvent>, now: i64) -> (out: Vec<String>)
    ensures
        text::views(out@) == order::ascending_set(authors_of(qualifying(events@, now as int))),
        order::ascending_of(text::views(out@), authors_of(qualifying(events@, now as int))),
        out@.len() == 0 <==> qualifying(events@, now as int).len() == 0,
{
    broadcast use text::group_views;
    let ghost all = authors_of(qualifying(events@, now as int));
    let places = qualifying_places(events, now);
    let mut named: Vec<String> = Vec::new();
    let mut i: usize = 0;
    assert(all.take(0) =~= text::views(named@));
    while i < places.len()
        invariant
            i <= places@.len(),
            all == authors_of(qualifying(events@, now as int)),
            places@.len() == all.len(),
            forall|k: int|
                0 <= k < places@.len() ==> (#[trigger] places@[k]) < events@.len() && events@[places@[k] as int]
                    == qualifying(events@, now as int)[k],
            text::views(named@) == all.take(i as int),
        decreases places@.len() - i,
    {
        broadcast use text::group_views;
        let e = &events[places[i]];
        assert(all[i as int] == e.author@);
        assert(all.take(i + 1) =~= all.take(i as int).push(e.author@));
        named.push(e.author.clone());
        i += 1;
    }
    assert(all.take(all.len() as int) =~= all);
    let out = order::ascending_list(&named);
    proof {
        if all.len() > 0 {
            assert(all.contains(all[0]));
            assert(text::views(out@).contains(all[0]));
        }
        if out@.len() > 0 {
            assert(text::views(out@).contains(text::views(out@)[0]));
            assert(all.contains(text::views(out@)[0]));
        }
    }
    out
}

/// Says why nothing can be said of the authors of a path, if that is so.
/// `complete` is whether the author history was ever indexed in full.
pub fn author_gap_note(complete: bool, events: &Vec<AuthorEvent>, now: i64, anchor_name: &str) -> (out: Option<String>)
    ensures
        text::view_opt(out) == author_gap(complete, events@, now as int, anchor_name@),
{
    if !complete {
        return Some(
            "author concentration unavailable: run codesage git-index --full to populate author history".to_string(),
        );
    }
    if events.len() == 0 {
        return Some("author concentration unavailable: no indexed author history for this path".to_string());
    }
    if is_nameless(events, now) {
        return Some("author concentration unavailable: commit author identities are missing".to_string());
    }
    if qualifying_places(events, now).len() == 0 {
        return Some(
            concat5(
                "author concentration unavailable: no qualifying commits in the 730-day window anchored at ",
                anchor_name,
                " (Unix timestamp ",
                signed_of(now).as_str(),
                ")",
            ),
        );
    }
    None
}

/// What is said of the authors of a path. `share` is the largest share in whole
/// percent, as it is printed.
pub open spec fn author_text(count: nat, share: Seq<char>, bus_factor: nat) -> Seq<char> {
    "author concentration: "@ + text::decimal(count) + " identities, largest "@ + share
        + "% of weighted commits, bus factor "@ + text::decimal(bus_factor)
        + " (identities covering at least 50%; 180-day half-life, 730-day history; informational only)"@
}

pub fn author_note(count: usize, share: &str, bus_factor: usize) -> (out: String)
    ensures
        out@ == author_text(count as nat, share@, bus_factor as nat),
{
    let lead = concat4("author concentration: ", decimal_of(count as u64).as_str(), " identities, largest ", share);
    concat4(
        lead.as_str(),
        "% of weighted commits, bus factor ",
        decimal_of(bus_factor as u64).as_str(),
        " (identities covering at least 50%; 180-day half-life, 730-day history; informational only)",
    )
}

} // verus!
