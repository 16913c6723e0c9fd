//! Days and dates of the Gregorian calendar, counted from 1970 without leap
//! seconds.
use vstd::prelude::*;
use vstd::string::*;
use crate::order;
use crate::text;
use crate::text::{concat2, concat3, concat5, decimal_of};

verus! {

pub open spec fn leap(y: int) -> bool {
    y % 4 == 0 && (y % 100 != 0 || y % 400 == 0)
}

pub open spec fn month_length(y: int, m: int) -> int {
    if m == 2 {
        if leap(y) {
            29
        } else {
            28
        }
    } else if m == 4 || m == 6 || m == 9 || m == 11 {
        30
    } else {
        31
    }
}

/// A day that the calendar has.
pub open spec fn is_date(y: int, m: int, d: int) -> bool {
    1970 <= y && 1 <= m <= 12 && 1 <= d <= month_length(y, m)
}

/// The days from the first of January 1970 to the first of January of `y`:
/// every fourth year is a day longer, but for the hundredth that is no four
/// hundredth.
pub open spec fn days_to_year(y: int) -> int {
    365 * (y - 1970) + ((y - 1) / 4 - 492) - ((y - 1) / 100 - 19) + ((y - 1) / 400 - 4)
}

/// The days of `y` before month `m`.
pub open spec fn days_to_month(y: int, m: int) -> int
    decreases m,
{
    if m <= 1 {
        0
    } else {
        days_to_month(y, m - 1) + month_length(y, m - 1)
    }
}

/// The days from the first of January 1970 to a date.
pub open spec fn day_number(y: int, m: int, d: int) -> int {
    days_to_year(y) + days_to_month(y, m) + d - 1
}

/// A year has 366 days where it is a leap year, and 365 otherwise.
pub proof fn law_years_have_their_length(y: int)
    ensures
        days_to_year(y + 1) - days_to_year(y) == if leap(y) {
            366int
        } else {
            365int
        },
        days_to_year(y + 1) - days_to_year(y) == days_to_month(y, 13),
{
    lemma_year_quarters(y);
    lemma_month_table(y);
}

/// The quotients of a year and of the year before it differ by one exactly
/// where the divisor divides the year.
proof fn lemma_year_quarters(y: int)
    ensures
        y / 4 - (y - 1) / 4 == if y % 4 == 0 {
            1int
        } else {
            0int
        },
        y / 100 - (y - 1) / 100 == if y % 100 == 0 {
            1int
        } else {
            0int
        },
        y / 400 - (y - 1) / 400 == if y % 400 == 0 {
            1int
        } else {
            0int
        },
        y % 100 == 0 ==> y % 4 == 0,
        y % 400 == 0 ==> y % 100 == 0,
{
}

proof fn lemma_month_table(y: int)
    ensures
        days_to_month(y, 1) == 0,
        days_to_month(y, 2) == 31,
        days_to_month(y, 3) == 31 + month_length(y, 2),
        days_to_month(y, 4) == days_to_month(y, 3) + 31,
        days_to_month(y, 5) == days_to_month(y, 3) + 61,
        days_to_month(y, 6) == days_to_month(y, 3) + 92,
        days_to_month(y, 7) == days_to_month(y, 3) + 122,
        days_to_month(y, 8) == days_to_month(y, 3) + 153,
        days_to_month(y, 9) == days_to_month(y, 3) + 184,
        days_to_month(y, 10) == days_to_month(y, 3) + 214,
        days_to_month(y, 11) == days_to_month(y, 3) + 245,
        days_to_month(y, 12) == days_to_month(y, 3) + 275,
        days_to_month(y, 13) == days_to_month(y, 3) + 306,
{
    reveal_with_fuel(days_to_month, 14);
}

proof fn lemma_years_grow(a: int, b: int)
    requires
        a <= b,
    ensures
        days_to_year(a) <= days_to_year(b),
    decreases b - a,
{
    if a < b {
        law_years_have_their_length(b - 1);
        lemma_years_grow(a, b - 1);
    }
}

proof fn lemma_months_grow(y: int, a: int, b: int)
    requires
        1 <= a <= b,
    ensures
        days_to_month(y, a) <= days_to_month(y, b),
    decreases b - a,
{
    if a < b {
        lemma_months_grow(y, a, b - 1);
    }
}

/// Two dates with the same day number are the same date.
pub proof fn law_a_day_has_one_date(y: int, m: int, d: int, y2: int, m2: int, d2: int)
    requires
        is_date(y, m, d),
        is_date(y2, m2, d2),
        day_number(y, m, d) == day_number(y2, m2, d2),
    ensures
        y == y2,
        m == m2,
        d == d2,
{
    if y < y2 {
        lemma_date_before_the_next_year(y, m, d);
        lemma_years_grow(y + 1, y2);
        lemma_months_grow(y2, 1, m2);
    } else if y2 < y {
        lemma_date_before_the_next_year(y2, m2, d2);
        lemma_years_grow(y2 + 1, y);
        lemma_months_grow(y, 1, m);
    } else if m < m2 {
        lemma_months_grow(y, m + 1, m2);
    } else if m2 < m {
        lemma_months_grow(y, m2 + 1, m);
    }
}

proof fn lemma_date_before_the_next_year(y: int, m: int, d: int)
    requires
        is_date(y, m, d),
    ensures
        day_number(y, m, d) < days_to_year(y + 1),
{
    law_years_have_their_length(y);
    lemma_months_grow(y, m + 1, 13);
}

/// A date, as a year, a month and a day of it.
pub struct Date {
    pub year: u64,
    pub month: u64,
    pub day: u64,
}

/// The date that stands so many days after the first of January 1970.
pub fn date_of(days: u64) -> (out: Date)
    requires
        days <= 0xffff_ffff_ffff,
    ensures
        is_date(out.year as int, out.month as int, out.day as int),
        day_number(out.year as int, out.month as int, out.day as int) == days,
{
    // Years are counted from March, so that a leap day ends one.
    let z: u64 = days + 719_468;
    let era: u64 = z / 146_097;
    let doe: u64 = z % 146_097;
    let century: u64 = if doe / 36_524 < 3 {
        doe / 36_524
    } else {
        3
    };
    let doc: u64 = doe - 36_524 * century;
    let quad: u64 = doc / 1_461;
    let doq: u64 = doc % 1_461;
    let yoq: u64 = if doq / 365 < 3 {
        doq / 365
    } else {
        3
    };
    let doy: u64 = doq - 365 * yoq;
    let y: u64 = 400 * era + 100 * century + 4 * quad + yoq;
    let mp: u64 = (5 * doy + 2) / 153;
    assert(doc <= 36_524);
    assert(quad <= 24);
    assert(doy <= 365);
    let day: u64 = doy - (153 * mp + 2) / 5 + 1;
    let (year, month): (u64, u64) = if mp < 10 {
        (y, mp + 3)
    } else {
        (y + 1, mp - 9)
    };
    proof {
        lemma_march_year(era as int, century as int, quad as int, yoq as int, doy as int, days as int);
        lemma_march_month(y as int, mp as int, doy as int);
        lemma_month_table(y as int);
        lemma_month_table(y + 1);
    }
    Date { year, month, day }
}

/// Where a year that begins in March stands among the days.
proof fn lemma_march_year(era: int, century: int, quad: int, yoq: int, doy: int, days: int)
    requires
        0 <= era,
        0 <= century <= 3,
        0 <= quad <= 24,
        0 <= yoq <= 3,
        0 <= doy <= 365,
        0 <= days,
        doy == 365 ==> yoq == 3 && (quad == 24 ==> century == 3),
        days + 719_468 == 146_097 * era + 36_524 * century + 1_461 * quad + 365 * yoq + doy,
    ensures
        ({
            let y = 400 * era + 100 * century + 4 * quad + yoq;
            &&& days_to_year(y + 1) == days - doy + 306
            &&& doy == 365 ==> leap(y + 1)
            &&& days_to_year(y) + 31 + month_length(y, 2) == days - doy
            &&& 1969 <= y
            &&& y == 1969 ==> doy >= 306
        }),
{
    let y = 400 * era + 100 * century + 4 * quad + yoq;
    assert(y / 4 == 100 * era + 25 * century + quad);
    assert(y / 100 == 4 * era + century);
    assert(y / 400 == era);
    lemma_year_quarters(y);
    lemma_year_quarters(y + 1);
    law_years_have_their_length(y);
}

/// Which month of a year that begins in March a day falls in.
proof fn lemma_march_month(y: int, mp: int, doy: int)
    requires
        0 <= doy <= 365,
        mp == (5 * doy + 2) / 153,
        doy == 365 ==> leap(y + 1),
    ensures
        0 <= mp <= 11,
        ({
            let day = doy - (153 * mp + 2) / 5 + 1;
            if mp < 10 {
                &&& 1 <= day <= month_length(y, mp + 3)
                &&& days_to_month(y, mp + 3) + day - 1 == 31 + month_length(y, 2) + doy
            } else {
                &&& 1 <= day <= month_length(y + 1, mp - 9)
                &&& days_to_month(y + 1, mp - 9) + day - 1 == doy - 306
            }
        }),
{
    lemma_month_table(y);
    lemma_month_table(y + 1);
    assert(0 <= mp <= 11);
    if mp == 0 {
    } else if mp == 1 {
    } else if mp == 2 {
    } else if mp == 3 {
    } else if mp == 4 {
    } else if mp == 5 {
    } else if mp == 6 {
    } else if mp == 7 {
    } else if mp == 8 {
    } else if mp == 9 {
    } else if mp == 10 {
    } else {
    }
}

/// `n` in decimal, with zeros before it up to a width.
pub open spec fn padded(n: nat, width: nat) -> Seq<char> {
    let s = text::decimal(n);
    if s.len() < width {
        Seq::new((width - s.len()) as nat, |i: int| '0') + s
    } else {
        s
    }
}

fn pad(n: u64, width: usize) -> (out: String)
    ensures
        out@ == padded(n as nat, width as nat),
{
    let s = decimal_of(n);
    let len: usize = s.as_str().unicode_len();
    if len >= width {
        return s;
    }
    let mut out = String::new();
    let mut i: usize = 0;
    while i < width - len
        invariant
            i <= width - len,
            len < width,
            out@ == Seq::new(i as nat, |j: int| '0'),
        decreases width - len - i,
    {
        out.push('0');
        i += 1;
        assert(out@ =~= Seq::new(i as nat, |j: int| '0'));
    }
    concat2(out.as_str(), s.as_str())
}

/// An instant in text: a date and the seconds of its day.
pub open spec fn instant(y: nat, m: nat, d: nat, secs: nat) -> Seq<char> {
    padded(y, 4) + "-"@ + padded(m, 2) + "-"@ + padded(d, 2) + ("T"@ + padded(secs / 3600, 2) + ":"@
        + padded(secs % 3600 / 60, 2) + (":"@ + padded(secs % 60, 2) + "Z"@))
}

/// `s` is the text of so many seconds after the first of January 1970.
pub open spec fn writes_instant(s: Seq<char>, unix: nat) -> bool {
    exists|y: nat, m: nat, d: nat| #[trigger]
        is_date(y as int, m as int, d as int) && day_number(y as int, m as int, d as int) == unix / 86_400
            && s == instant(y, m, d, unix % 86_400)
}

/// Unix seconds in text, such as `2000-02-29T00:00:00Z`.
pub fn format_utc(unix: u64) -> (out: String)
    ensures
        writes_instant(out@, unix as nat),
{
    let secs: u64 = unix % 86_400;
    let date = date_of(unix / 86_400);
    let year = pad(date.year, 4);
    let month = pad(date.month, 2);
    let day = pad(date.day, 2);
    let h = pad(secs / 3_600, 2);
    let m = pad(secs % 3_600 / 60, 2);
    let s = pad(secs % 60, 2);
    let front = concat5(year.as_str(), "-", month.as_str(), "-", day.as_str());
    let end = concat3(":", s.as_str(), "Z");
    let time = concat5("T", h.as_str(), ":", m.as_str(), end.as_str());
    let out = concat2(front.as_str(), time.as_str());
    assert(is_date(
        (date.year as nat) as int,
        (date.month as nat) as int,
        (date.day as nat) as int,
    ));
    assert(out@ == instant(date.year as nat, date.month as nat, date.day as nat, secs as nat));
    out
}

/// The last second of the year 9999.
pub const LAST_FOUR_DIGIT_SECOND: u64 = 253_402_300_799;

proof fn lemma_two_digits(n: nat)
    requires
        n < 100,
    ensures
        padded(n, 2) == seq![text::digit_char(n / 10), text::digit_char(n % 10)],
        text::all_digits(padded(n, 2)),
        text::digits_value(padded(n, 2)) == n,
{
    reveal_with_fuel(text::decimal, 2);
    reveal_with_fuel(text::digits_value, 3);
    let s = seq![text::digit_char(n / 10), text::digit_char(n % 10)];
    assert(padded(n, 2) =~= s);
    assert(s.drop_last() =~= seq![text::digit_char(n / 10)]);
    assert(s.drop_last().drop_last() =~= Seq::<char>::empty());
}

proof fn lemma_four_digits(n: nat)
    requires
        n < 10_000,
    ensures
        padded(n, 4) == padded(n / 100, 2) + padded(n % 100, 2),
        text::all_digits(padded(n, 4)),
        text::digits_value(padded(n, 4)) == n,
{
    reveal_with_fuel(text::decimal, 4);
    reveal_with_fuel(text::digits_value, 5);
    lemma_two_digits(n / 100);
    lemma_two_digits(n % 100);
    let s = seq![
        text::digit_char(n / 1000),
        text::digit_char(n / 100 % 10),
        text::digit_char(n / 10 % 10),
        text::digit_char(n % 10),
    ];
    assert(n / 10 / 10 == n / 100);
    assert(n / 100 / 10 == n / 1000);
    assert(n % 100 / 10 == n / 10 % 10);
    assert(n % 100 % 10 == n % 10);
    assert(padded(n, 4) =~= s);
    assert(s =~= padded(n / 100, 2) + padded(n % 100, 2));
    assert(s.drop_last() =~= seq![s[0], s[1], s[2]]);
    assert(s.drop_last().drop_last() =~= seq![s[0], s[1]]);
    assert(s.drop_last().drop_last().drop_last() =~= seq![s[0]]);
    assert(s.drop_last().drop_last().drop_last().drop_last() =~= Seq::<char>::empty());
}

proof fn lemma_two_digits_in_order(n: nat, m: nat)
    requires
        n < m < 100,
    ensures
        order::text_before(padded(n, 2), padded(m, 2)),
{
    reveal_with_fuel(order::text_before, 3);
    lemma_two_digits(n);
    lemma_two_digits(m);
    assert(padded(n, 2).skip(1) =~= seq![text::digit_char(n % 10)]);
    assert(padded(m, 2).skip(1) =~= seq![text::digit_char(m % 10)]);
}

proof fn lemma_four_digits_in_order(n: nat, m: nat)
    requires
        n < m < 10_000,
    ensures
        order::text_before(padded(n, 4), padded(m, 4)),
{
    lemma_four_digits(n);
    lemma_four_digits(m);
    lemma_two_digits(n / 100);
    lemma_two_digits(m / 100);
    lemma_two_digits(n % 100);
    lemma_two_digits(m % 100);
    if n / 100 < m / 100 {
        lemma_two_digits_in_order(n / 100, m / 100);
        order::lemma_text_before_decided(
            padded(n / 100, 2),
            padded(m / 100, 2),
            padded(n % 100, 2),
            padded(m % 100, 2),
        );
    } else {
        lemma_two_digits_in_order(n % 100, m % 100);
        order::lemma_text_before_common(padded(n / 100, 2), padded(n % 100, 2), padded(m % 100, 2));
    }
}

/// A date with four digits and its text, taken apart.
proof fn lemma_instant_parts(y: nat, m: nat, d: nat, secs: nat)
    requires
        y < 10_000,
        m < 100,
        d < 100,
        secs < 86_400,
    ensures
        ({
            let s = instant(y, m, d, secs);
            &&& s.len() == 20
            &&& s.subrange(0, 4) == padded(y, 4)
            &&& s.subrange(5, 7) == padded(m, 2)
            &&& s.subrange(8, 10) == padded(d, 2)
            &&& s.subrange(11, 13) == padded(secs / 3600, 2)
            &&& s.subrange(14, 16) == padded(secs % 3600 / 60, 2)
            &&& s.subrange(17, 19) == padded(secs % 60, 2)
            &&& s[4] == '-' && s[7] == '-' && s[10] == 'T' && s[13] == ':' && s[16] == ':' && s[19] == 'Z'
        }),
{
    reveal_strlit("-");
    reveal_strlit("T");
    reveal_strlit(":");
    reveal_strlit("Z");
    lemma_four_digits(y);
    lemma_two_digits(y / 100);
    lemma_two_digits(y % 100);
    lemma_two_digits(m);
    lemma_two_digits(d);
    lemma_two_digits(secs / 3600);
    lemma_two_digits(secs % 3600 / 60);
    lemma_two_digits(secs % 60);
    let s = instant(y, m, d, secs);
    assert(s.subrange(0, 4) =~= padded(y, 4));
    assert(s.subrange(5, 7) =~= padded(m, 2));
    assert(s.subrange(8, 10) =~= padded(d, 2));
    assert(s.subrange(11, 13) =~= padded(secs / 3600, 2));
    assert(s.subrange(14, 16) =~= padded(secs % 3600 / 60, 2));
    assert(s.subrange(17, 19) =~= padded(secs % 60, 2));
}

proof fn lemma_four_digit_year(y: int, m: int, d: int, unix: nat)
    requires
        is_date(y, m, d),
        day_number(y, m, d) == unix / 86_400,
        unix <= LAST_FOUR_DIGIT_SECOND,
    ensures
        y < 10_000,
{
    if y >= 10_000 {
        lemma_years_grow(10_000, y);
        lemma_months_grow(y, 1, m);
        assert(days_to_year(10_000) == 2_932_897);
    }
}

/// The number that the digits from one position to another write.
pub open spec fn number_at(s: Seq<char>, from: int, to: int) -> int {
    text::digits_value(s.subrange(from, to)) as int
}

/// The seconds after the first of January 1970 that a text of twenty
/// characters stands for.
pub open spec fn instant_read(s: Seq<char>) -> int {
    86_400 * day_number(number_at(s, 0, 4), number_at(s, 5, 7), number_at(s, 8, 10)) + 3600 * number_at(
        s,
        11,
        13,
    ) + 60 * number_at(s, 14, 16) + number_at(s, 17, 19)
}

/// The text has the shape `YYYY-MM-DDTHH:MM:SSZ`.
pub open spec fn instant_shaped(s: Seq<char>) -> bool {
    &&& s.len() == 20
    &&& s[4] == '-' && s[7] == '-' && s[10] == 'T' && s[13] == ':' && s[16] == ':' && s[19] == 'Z'
    &&& text::all_digits(s.subrange(0, 4))
    &&& text::all_digits(s.subrange(5, 7))
    &&& text::all_digits(s.subrange(8, 10))
    &&& text::all_digits(s.subrange(11, 13))
    &&& text::all_digits(s.subrange(14, 16))
    &&& text::all_digits(s.subrange(17, 19))
}

/// An instant has one text.
pub proof fn law_an_instant_has_one_text(s: Seq<char>, t: Seq<char>, unix: nat)
    requires
        writes_instant(s, unix),
        writes_instant(t, unix),
    ensures
        s == t,
{
    let (y, m, d) = choose|y: nat, m: nat, d: nat| #[trigger]
        is_date(y as int, m as int, d as int) && day_number(y as int, m as int, d as int) == unix / 86_400
            && s == instant(y, m, d, unix % 86_400);
    let (y2, m2, d2) = choose|y: nat, m: nat, d: nat| #[trigger]
        is_date(y as int, m as int, d as int) && day_number(y as int, m as int, d as int) == unix / 86_400
            && t == instant(y, m, d, unix % 86_400);
    law_a_day_has_one_date(y as int, m as int, d as int, y2 as int, m2 as int, d2 as int);
}

/// Up to the end of the year 9999 the text of an instant has twenty characters
/// of one shape, and stands for the instant that it was written for.
pub proof fn law_an_instant_reads_back(s: Seq<char>, unix: nat)
    requires
        writes_instant(s, unix),
        unix <= LAST_FOUR_DIGIT_SECOND,
    ensures
        instant_shaped(s),
        instant_read(s) == unix,
{
    let (y, m, d) = choose|y: nat, m: nat, d: nat| #[trigger]
        is_date(y as int, m as int, d as int) && day_number(y as int, m as int, d as int) == unix / 86_400
            && s == instant(y, m, d, unix % 86_400);
    let secs = unix % 86_400;
    lemma_four_digit_year(y as int, m as int, d as int, unix);
    lemma_instant_parts(y, m, d, secs);
    lemma_four_digits(y);
    lemma_two_digits(m);
    lemma_two_digits(d);
    lemma_two_digits(secs / 3600);
    lemma_two_digits(secs % 3600 / 60);
    lemma_two_digits(secs % 60);
    lemma_seconds(secs);
}

proof fn lemma_seconds(secs: nat)
    ensures
        3600 * (secs / 3600) + 60 * (secs % 3600 / 60) + secs % 60 == secs,
{
    assert(secs % 3600 % 60 == secs % 60);
}

/// Of two dates the later day has the later date.
proof fn lemma_later_day_later_date(y: int, m: int, d: int, y2: int, m2: int, d2: int)
    requires
        is_date(y, m, d),
        is_date(y2, m2, d2),
        day_number(y, m, d) < day_number(y2, m2, d2),
    ensures
        y < y2 || (y == y2 && (m < m2 || (m == m2 && d < d2))),
{
    if y2 < y {
        lemma_date_before_the_next_year(y2, m2, d2);
        lemma_years_grow(y2 + 1, y);
        lemma_months_grow(y, 1, m);
    } else if y == y2 && m2 < m {
        lemma_months_grow(y, m2 + 1, m);
    }
}

/// Up to the end of the year 9999 a later instant has a later text: texts sort
/// as the instants do.
pub proof fn law_later_instants_have_later_texts(s: Seq<char>, t: Seq<char>, earlier: nat, later: nat)
    requires
        writes_instant(s, earlier),
        writes_instant(t, later),
        earlier < later <= LAST_FOUR_DIGIT_SECOND,
    ensures
        order::text_before(s, t),
{
    let (y, m, d) = choose|y: nat, m: nat, d: nat| #[trigger]
        is_date(y as int, m as int, d as int) && day_number(y as int, m as int, d as int) == earlier
            / 86_400 && s == instant(y, m, d, earlier % 86_400);
    let (y2, m2, d2) = choose|y: nat, m: nat, d: nat| #[trigger]
        is_date(y as int, m as int, d as int) && day_number(y as int, m as int, d as int) == later / 86_400
            && t == instant(y, m, d, later % 86_400);
    let a = earlier % 86_400;
    let b = later % 86_400;
    lemma_four_digit_year(y as int, m as int, d as int, earlier);
    lemma_four_digit_year(y2 as int, m2 as int, d2 as int, later);
    lemma_instant_parts(y, m, d, a);
    lemma_instant_parts(y2, m2, d2, b);
    if earlier / 86_400 == later / 86_400 {
        law_a_day_has_one_date(y as int, m as int, d as int, y2 as int, m2 as int, d2 as int);
        lemma_times_in_order(s, t, a, b);
    } else {
        lemma_later_day_later_date(y as int, m as int, d as int, y2 as int, m2 as int, d2 as int);
        lemma_dates_in_order(s, t, y, m, d, y2, m2, d2);
    }
}

/// Texts of instants on one day stand in the order of their seconds.
proof fn lemma_times_in_order(s: Seq<char>, t: Seq<char>, a: nat, b: nat)
    requires
        a < b < 86_400,
        s.len() == 20,
        t.len() == 20,
        s.subrange(0, 4) == t.subrange(0, 4),
        s.subrange(5, 7) == t.subrange(5, 7),
        s.subrange(8, 10) == t.subrange(8, 10),
        s.subrange(11, 13) == padded(a / 3600, 2),
        t.subrange(11, 13) == padded(b / 3600, 2),
        s.subrange(14, 16) == padded(a % 3600 / 60, 2),
        t.subrange(14, 16) == padded(b % 3600 / 60, 2),
        s.subrange(17, 19) == padded(a % 60, 2),
        t.subrange(17, 19) == padded(b % 60, 2),
        s[4] == '-' && s[7] == '-' && s[10] == 'T' && s[13] == ':' && s[16] == ':',
        t[4] == '-' && t[7] == '-' && t[10] == 'T' && t[13] == ':' && t[16] == ':',
    ensures
        order::text_before(s, t),
{
    assert(s.take(11) =~= s.subrange(0, 4).push('-') + s.subrange(5, 7).push('-') + s.subrange(8, 10).push('T'));
    assert(t.take(11) =~= t.subrange(0, 4).push('-') + t.subrange(5, 7).push('-') + t.subrange(8, 10).push('T'));
    lemma_seconds(a);
    lemma_seconds(b);
    if a / 3600 < b / 3600 {
        lemma_fields_in_order(s, t, 11, 13, a / 3600, b / 3600);
    } else {
        assert(s.take(14) =~= s.take(11) + s.subrange(11, 13).push(':'));
        assert(t.take(14) =~= t.take(11) + t.subrange(11, 13).push(':'));
        if a % 3600 / 60 < b % 3600 / 60 {
            lemma_fields_in_order(s, t, 14, 16, a % 3600 / 60, b % 3600 / 60);
        } else {
            assert(s.take(17) =~= s.take(14) + s.subrange(14, 16).push(':'));
            assert(t.take(17) =~= t.take(14) + t.subrange(14, 16).push(':'));
            lemma_fields_in_order(s, t, 17, 19, a % 60, b % 60);
        }
    }
}

/// Texts of instants on two days stand in the order of their dates.
proof fn lemma_dates_in_order(s: Seq<char>, t: Seq<char>, y: nat, m: nat, d: nat, y2: nat, m2: nat, d2: nat)
    requires
        y < 10_000 && m < 100 && d < 100,
        y2 < 10_000 && m2 < 100 && d2 < 100,
        y < y2 || (y == y2 && (m < m2 || (m == m2 && d < d2))),
        s.len() == 20,
        t.len() == 20,
        s.subrange(0, 4) == padded(y, 4),
        t.subrange(0, 4) == padded(y2, 4),
        s.subrange(5, 7) == padded(m, 2),
        t.subrange(5, 7) == padded(m2, 2),
        s.subrange(8, 10) == padded(d, 2),
        t.subrange(8, 10) == padded(d2, 2),
        s[4] == '-' && s[7] == '-',
        t[4] == '-' && t[7] == '-',
    ensures
        order::text_before(s, t),
{
    if y < y2 {
        lemma_four_digits_in_order(y, y2);
        order::lemma_text_before_decided(s.subrange(0, 4), t.subrange(0, 4), s.skip(4), t.skip(4));
        assert(s =~= s.subrange(0, 4) + s.skip(4));
        assert(t =~= t.subrange(0, 4) + t.skip(4));
    } else {
        assert(s.take(5) =~= s.subrange(0, 4).push('-'));
        assert(t.take(5) =~= t.subrange(0, 4).push('-'));
        if m < m2 {
            lemma_fields_in_order(s, t, 5, 7, m, m2);
        } else {
            assert(s.take(8) =~= s.take(5) + s.subrange(5, 7).push('-'));
            assert(t.take(8) =~= t.take(5) + t.subrange(5, 7).push('-'));
            lemma_fields_in_order(s, t, 8, 10, d, d2);
        }
    }
}

/// Two texts that agree up to a field of two digits stand in the order of the
/// numbers there.
proof fn lemma_fields_in_order(s: Seq<char>, t: Seq<char>, from: int, to: int, n: nat, m: nat)
    requires
        0 <= from,
        to == from + 2,
        to <= s.len(),
        to <= t.len(),
        s.take(from) == t.take(from),
        s.subrange(from, to) == padded(n, 2),
        t.subrange(from, to) == padded(m, 2),
        n < m < 100,
    ensures
        order::text_before(s, t),
{
    lemma_two_digits_in_order(n, m);
    lemma_two_digits(n);
    lemma_two_digits(m);
    order::lemma_text_before_decided(padded(n, 2), padded(m, 2), s.skip(to), t.skip(to));
    order::lemma_text_before_common(s.take(from), padded(n, 2) + s.skip(to), padded(m, 2) + t.skip(to));
    assert(s =~= s.take(from) + (s.subrange(from, to) + s.skip(to)));
    assert(t =~= t.take(from) + (t.subrange(from, to) + t.skip(to)));
}

} // verus!
