//! The learned layer: what listening teaches, kept beside the catalogue,
//! one file per artist, never pushed upstream. Its counters are floats that
//! decay; what is exact about it is here: the dates its counters carry, how
//! two machines' flags merge, and the taste the listener's gestures write —
//! liked, skipped, banned — with what each gesture does to it.

use vstd::prelude::*;
use crate::text::{chars_of, string_of, slice, push_all, push_str, decimal, decimal_of, split, split_of,
    i64_of, parse_i64, quoted, quote_exec, all_digits, digits_value, unsigned_of, is_ascii_digit,
    lemma_split_concat, lemma_split_single, lemma_decimal_digits, lemma_leading_zeros, same_str};
use crate::fork::{lex_lt, lex_less, insert_at, set_insert, strictly_sorted, set_insert_keeps_sorted,
    lemma_insert_at, lemma_insert_at_below, lemma_lex_irreflexive, lemma_lex_total, lemma_lex_transitive};
use crate::edit::strings;

verus! {

/// The civil date of a day counted from 1970-01-01 (Hinnant's formulas,
/// on the proleptic Gregorian calendar): year, month, day.
pub open spec fn civil_of(days: int) -> (int, int, int) {
    let z = days + 719468;
    let era = z / 146097;
    let doe = z - era * 146097;
    let yoe = (doe - doe / 1460 + doe / 36524 - doe / 146096) / 365;
    let y = yoe + era * 400;
    let doy = doe - (365 * yoe + yoe / 4 - yoe / 100);
    let mp = (5 * doy + 2) / 153;
    let d = doy - (153 * mp + 2) / 5 + 1;
    let m = if mp < 10 { mp + 3 } else { mp - 9 };
    (if m <= 2 { y + 1 } else { y }, m, d)
}

/// The day, counted from 1970-01-01, of a civil date.
pub open spec fn days_of(y: int, m: int, d: int) -> int {
    let y = if m <= 2 { y - 1 } else { y };
    let era = y / 400;
    let yoe = y - era * 400;
    let mp = if m > 2 { m - 3 } else { m + 9 };
    let doy = (153 * mp + 2) / 5 + d - 1;
    let doe = yoe * 365 + yoe / 4 - yoe / 100 + doy;
    era * 146097 + doe - 719468
}

proof fn lemma_year_of_era(doe: int)
    requires
        0 <= doe <= 146096,
    ensures
        0 <= (doe - doe / 1460 + doe / 36524 - doe / 146096) / 365 <= 399,
{
}

proof fn lemma_day_of_year(doe: int)
    requires
        0 <= doe <= 146096,
    ensures
        ({
            let yoe = (doe - doe / 1460 + doe / 36524 - doe / 146096) / 365;
            let doy = doe - (365 * yoe + yoe / 4 - yoe / 100);
            0 <= doy <= 365
        }),
{
}

proof fn lemma_month_day(doy: int)
    requires
        0 <= doy <= 365,
    ensures
        ({
            let mp = (5 * doy + 2) / 153;
            let d = doy - (153 * mp + 2) / 5 + 1;
            0 <= mp <= 11 && 1 <= d <= 31 && (153 * mp + 2) / 5 + d - 1 == doy
        }),
{
}

proof fn lemma_era_back(yoe: int, era: int)
    requires
        0 <= yoe <= 399,
    ensures
        (yoe + era * 400) / 400 == era,
        (yoe + era * 400) - era * 400 == yoe,
{
}

proof fn lemma_era_split(z: int)
    ensures
        0 <= z - (z / 146097) * 146097 <= 146096,
{
}

/// A date written by `iso` reads back as the same day: the month and the
/// day are in range, and the civil date counts back to the same day.
pub proof fn civil_round_trip(days: int)
    ensures
        1 <= civil_of(days).1 <= 12,
        1 <= civil_of(days).2 <= 31,
        days_of(civil_of(days).0, civil_of(days).1, civil_of(days).2) == days,
{
    let z = days + 719468;
    let era = z / 146097;
    let doe = z - era * 146097;
    lemma_era_split(z);
    lemma_year_of_era(doe);
    lemma_day_of_year(doe);
    let yoe = (doe - doe / 1460 + doe / 36524 - doe / 146096) / 365;
    let y = yoe + era * 400;
    let doy = doe - (365 * yoe + yoe / 4 - yoe / 100);
    lemma_month_day(doy);
    let mp = (5 * doy + 2) / 153;
    let d = doy - (153 * mp + 2) / 5 + 1;
    let m = if mp < 10 { mp + 3 } else { mp - 9 };
    let y2 = if m <= 2 { y + 1 } else { y };
    assert(civil_of(days) == (y2, m, d));
    lemma_era_back(yoe, era);
    let back = if m <= 2 { y2 - 1 } else { y2 };
    assert(back == y);
    assert(back / 400 == era);
    assert(back - (back / 400) * 400 == yoe);
    let mp2 = if m > 2 { m - 3 } else { m + 9 };
    assert(mp2 == mp);
    assert((153 * mp2 + 2) / 5 + d - 1 == doy);
    assert(yoe * 365 + yoe / 4 - yoe / 100 + doy == doe);
}

// ---------------------------------------------------------------------------
// Dates as the learned files write them: `YYYY-MM-DD`.

/// `s` with zeros before it, to `w` characters.
pub open spec fn zero_padded(s: Seq<char>, w: nat) -> Seq<char> {
    if s.len() < w { Seq::new((w - s.len()) as nat, |i: int| '0') + s } else { s }
}

/// A year as `{:04}` writes it: four digits at least, a minus sign counted
/// in the four.
pub open spec fn year_text(y: int) -> Seq<char> {
    if y >= 0 { zero_padded(decimal(y as nat), 4) } else { seq!['-'] + zero_padded(decimal((-y) as nat), 3) }
}

/// A day counted from 1970-01-01, in ISO.
pub open spec fn iso_of(days: int) -> Seq<char> {
    let c = civil_of(days);
    year_text(c.0) + seq!['-'] + zero_padded(decimal(c.1 as nat), 2) + seq!['-'] + zero_padded(decimal(c.2 as nat), 2)
}

fn zero_pad(s: Vec<char>, w: usize) -> (r: Vec<char>)
    ensures
        r@ == zero_padded(s@, w as nat),
{
    if s.len() >= w {
        return s;
    }
    let mut r: Vec<char> = Vec::new();
    let n = w - s.len();
    let mut i: usize = 0;
    while i < n
        invariant
            i <= n,
            r@ == Seq::new(i as nat, |k: int| '0'),
        decreases n - i,
    {
        r.push('0');
        i = i + 1;
        assert(r@ =~= Seq::new(i as nat, |k: int| '0'));
    }
    push_all(&mut r, &s);
    r
}

proof fn lemma_floor_negative(z: int)
    requires
        z < 0,
    ensures
        z / 146097 == -((146096 - z) / 146097),
{
}

/// Days since the epoch → `YYYY-MM-DD`.
pub fn iso(days: i64) -> (r: String)
    requires
        days + 719468 <= i64::MAX,
        days + 719468 >= 0 || days + 719468 - 146096 >= i64::MIN,
    ensures
        r@ == iso_of(days as int),
{
    let z: i128 = days as i128 + 719468;
    let era: i128 = if z >= 0 { z / 146097 } else { -((146096 - z) / 146097) };
    proof {
        if z < 0 {
            lemma_floor_negative(z as int);
        }
        lemma_era_split(z as int);
    }
    assert(era == (z as int) / 146097);
    let doe: i128 = z - era * 146097;
    proof { lemma_year_of_era(doe as int); lemma_day_of_year(doe as int); }
    let yoe: i128 = (doe - doe / 1460 + doe / 36524 - doe / 146096) / 365;
    let y: i128 = yoe + era * 400;
    let doy: i128 = doe - (365 * yoe + yoe / 4 - yoe / 100);
    proof { lemma_month_day(doy as int); }
    let mp: i128 = (5 * doy + 2) / 153;
    let d: i128 = doy - (153 * mp + 2) / 5 + 1;
    let m: i128 = if mp < 10 { mp + 3 } else { mp - 9 };
    let y2: i128 = if m <= 2 { y + 1 } else { y };
    assert(civil_of(days as int) == (y2 as int, m as int, d as int));
    assert(-0x1_0000_0000_0000_0000 < y2 < 0x1_0000_0000_0000_0000) by {
        assert(-0x8000_0000_0000_0000 <= z <= 0x8000_0000_0000_0000);
    }
    let mut text = if y2 >= 0 {
        zero_pad(decimal_of(y2 as u64), 4)
    } else {
        let mut t: Vec<char> = Vec::new();
        t.push('-');
        let digits = zero_pad(decimal_of((-y2) as u64), 3);
        push_all(&mut t, &digits);
        t
    };
    assert(text@ =~= year_text(y2 as int));
    text.push('-');
    let mm = zero_pad(decimal_of(m as u64), 2);
    push_all(&mut text, &mm);
    text.push('-');
    let dd = zero_pad(decimal_of(d as u64), 2);
    push_all(&mut text, &dd);
    assert(text@ =~= iso_of(days as int));
    string_of(&text)
}

/// The year, month and day a text starts with, as integers.
pub open spec fn date_parts(text: Seq<char>) -> Option<(int, int, int)> {
    let ps = split(text, '-');
    if ps.len() >= 3 {
        match (i64_of(ps[0]), i64_of(ps[1]), i64_of(ps[2])) {
            (Some(y), Some(m), Some(d)) => Some((y, m, d)),
            _ => None,
        }
    } else {
        None
    }
}

/// The day a `YYYY-MM-DD` text names: a month from 1 to 12 and a day from 1
/// to 31, or nothing.
pub open spec fn from_iso_of(text: Seq<char>) -> Option<int> {
    match date_parts(text) {
        Some((y, m, d)) => if 1 <= m <= 12 && 1 <= d <= 31 { Some(days_of(y, m, d)) } else { None },
        None => None,
    }
}

/// The count of a date's day stays within what an `i64` holds at every step.
pub open spec fn days_fit(y: int, m: int, d: int) -> bool {
    let y1 = if m <= 2 { y - 1 } else { y };
    let era = y1 / 400;
    let yoe = y1 - era * 400;
    let mp = if m > 2 { m - 3 } else { m + 9 };
    let doy = (153 * mp + 2) / 5 + d - 1;
    let doe = yoe * 365 + yoe / 4 - yoe / 100 + doy;
    &&& y1 >= i64::MIN
    &&& (y1 >= 0 || y1 - 399 >= i64::MIN)
    &&& i64::MIN <= era * 146097 <= i64::MAX
    &&& i64::MIN <= era * 146097 + doe <= i64::MAX
    &&& era * 146097 + doe - 719468 >= i64::MIN
}

/// A date whose count of days an `i64` holds at every step.
pub open spec fn from_iso_fits(text: Seq<char>) -> bool {
    match date_parts(text) {
        Some((y, m, d)) => !(1 <= m <= 12 && 1 <= d <= 31) || days_fit(y, m, d),
        None => true,
    }
}

proof fn lemma_floor_400(y: int)
    requires
        y < 0,
    ensures
        y / 400 == -((399 - y) / 400),
{
}

/// `YYYY-MM-DD` → days since the epoch.
pub fn from_iso(text: &str) -> (r: Option<i64>)
    requires
        from_iso_fits(text@),
    ensures
        match r {
            Some(v) => from_iso_of(text@) == Some(v as int),
            None => from_iso_of(text@) is None,
        },
{
    let ps = split_of(&chars_of(text), '-');
    if ps.len() < 3 {
        return None;
    }
    let y = match parse_i64(&ps[0]) { Some(v) => v, None => return None };
    let m = match parse_i64(&ps[1]) { Some(v) => v, None => return None };
    let d = match parse_i64(&ps[2]) { Some(v) => v, None => return None };
    assert(date_parts(text@) == Some((y as int, m as int, d as int)));
    if !(1 <= m && m <= 12) || !(1 <= d && d <= 31) {
        return None;
    }
    let y1: i128 = if m <= 2 { y as i128 - 1 } else { y as i128 };
    let era: i128 = if y1 >= 0 { y1 / 400 } else { -((399 - y1) / 400) };
    proof {
        if y1 < 0 {
            lemma_floor_400(y1 as int);
        }
    }
    let yoe: i128 = y1 - era * 400;
    let mp: i128 = if m > 2 { m as i128 - 3 } else { m as i128 + 9 };
    let doy: i128 = (153 * mp + 2) / 5 + d as i128 - 1;
    let doe: i128 = yoe * 365 + yoe / 4 - yoe / 100 + doy;
    let days: i128 = era * 146097 + doe - 719468;
    assert(days == days_of(y as int, m as int, d as int));
    Some(days as i64)
}

/// Whether each step of a date's arithmetic holds in an `i64`: what a
/// caller tests before it asks [`from_iso`] for the day.
pub fn fits_as_day(text: &str) -> (r: bool)
    ensures
        r == from_iso_fits(text@),
{
    let ps = split_of(&chars_of(text), '-');
    if ps.len() < 3 {
        return true;
    }
    let y = match parse_i64(&ps[0]) { Some(v) => v, None => return true };
    let m = match parse_i64(&ps[1]) { Some(v) => v, None => return true };
    let d = match parse_i64(&ps[2]) { Some(v) => v, None => return true };
    assert(date_parts(text@) == Some((y as int, m as int, d as int)));
    if !(1 <= m && m <= 12) || !(1 <= d && d <= 31) {
        return true;
    }
    let y1: i128 = if m <= 2 { y as i128 - 1 } else { y as i128 };
    let era: i128 = if y1 >= 0 { y1 / 400 } else { -((399 - y1) / 400) };
    proof {
        if y1 < 0 {
            lemma_floor_400(y1 as int);
        }
    }
    let yoe: i128 = y1 - era * 400;
    let mp: i128 = if m > 2 { m as i128 - 3 } else { m as i128 + 9 };
    let doy: i128 = (153 * mp + 2) / 5 + d as i128 - 1;
    let doe: i128 = yoe * 365 + yoe / 4 - yoe / 100 + doy;
    let lo: i128 = i64::MIN as i128;
    let hi: i128 = i64::MAX as i128;
    y1 >= lo && (y1 >= 0 || y1 - 399 >= lo) && lo <= era * 146097 && era * 146097 <= hi
        && lo <= era * 146097 + doe && era * 146097 + doe <= hi && era * 146097 + doe - 719468 >= lo
}

proof fn lemma_padded_digits(n: nat, w: nat)
    ensures
        all_digits(zero_padded(decimal(n), w)),
        digits_value(zero_padded(decimal(n), w)) == n,
        zero_padded(decimal(n), w).len() > 0,
{
    lemma_decimal_digits(n);
    let s = decimal(n);
    if s.len() < w {
        lemma_leading_zeros((w - s.len()) as nat, s);
    }
}

proof fn lemma_digits_read(t: Seq<char>)
    requires
        t.len() > 0,
        all_digits(t),
        digits_value(t) <= i64::MAX,
    ensures
        i64_of(t) == Some(digits_value(t) as int),
        forall|i: int| 0 <= i < t.len() ==> t[i] != '-',
{
    assert(is_ascii_digit(t[0]));
    assert forall|i: int| 0 <= i < t.len() implies t[i] != '-' by {
        assert(is_ascii_digit(t[i]));
    }
}

/// A day written by `iso` reads back through `from_iso` as the same day,
/// for every day `iso` takes whose year is not before year 0 (a year before
/// it is written with a minus sign, which `from_iso` reads as a separator).
pub proof fn iso_round_trip(days: int)
    requires
        days + 719468 <= i64::MAX,
        civil_of(days).0 >= 0,
    ensures
        from_iso_fits(iso_of(days)),
        from_iso_of(iso_of(days)) == Some(days),
{
    civil_round_trip(days);
    let c = civil_of(days);
    let (y, m, d) = (c.0, c.1, c.2);
    let z = days + 719468;
    lemma_era_split(z);
    assert(y <= i64::MAX) by {
        let era = z / 146097;
        let doe = z - era * 146097;
        lemma_year_of_era(doe);
    }
    let ys = zero_padded(decimal(y as nat), 4);
    let ms = zero_padded(decimal(m as nat), 2);
    let ds = zero_padded(decimal(d as nat), 2);
    lemma_padded_digits(y as nat, 4);
    lemma_padded_digits(m as nat, 2);
    lemma_padded_digits(d as nat, 2);
    lemma_digits_read(ys);
    lemma_digits_read(ms);
    lemma_digits_read(ds);
    assert(year_text(y) == ys);
    let text = iso_of(days);
    assert(text =~= ys + seq!['-'] + (ms + seq!['-'] + ds));
    lemma_split_concat(ys, ms + seq!['-'] + ds, '-');
    lemma_split_concat(ms, ds, '-');
    lemma_split_single(ds, '-');
    assert(split(text, '-') =~= seq![ys, ms, ds]);
    assert(date_parts(text) == Some((y, m, d)));
}

// ---------------------------------------------------------------------------
// Today, and merging two machines' flags.

/// The seconds since the epoch the system clock reads, or 0 when it reads
/// a time before it.
#[verifier::external_body]
fn clock_seconds() -> (s: i64)
{
    std::time::SystemTime::now()
        .duration_since(std::time::UNIX_EPOCH)
        .map(|d| d.as_secs() as i64)
        .unwrap_or(0)
}

/// The whole days in a count of seconds from the epoch, rounded toward the
/// epoch.
pub open spec fn day_of_seconds(secs: int) -> int {
    if secs >= 0 { secs / 86400 } else { -((-secs) / 86400) }
}

/// The day, counted from 1970-01-01, of a count of seconds from the epoch:
/// its whole days, rounded toward the epoch.
pub fn day_of(secs: i64) -> (r: i64)
    ensures
        r == day_of_seconds(secs as int),
        i64::MIN / 86400 - 1 <= r <= i64::MAX / 86400,
{
    if secs >= 0 { secs / 86400 } else { -((-(secs as i128)) / 86400) as i64 }
}

/// Today, counted in days from 1970-01-01, by the system clock: the day of
/// the seconds it reads.
pub fn today() -> (r: i64)
    ensures
        exists|secs: i64| r == day_of_seconds(secs as int),
        i64::MIN / 86400 - 1 <= r <= i64::MAX / 86400,
{
    let secs = clock_seconds();
    day_of(secs)
}

/// Today's date, in ISO. An edit carries it in its note: that is what
/// later tells where a line of a card came from.
pub fn today_iso() -> (r: String)
    ensures
        exists|d: int| i64::MIN / 86400 - 1 <= d <= i64::MAX / 86400 && r@ == iso_of(d),
{
    let day = today();
    let r = iso(day);
    assert(r@ == iso_of(day as int));
    r
}

/// A flag set on either side since the base holds: a ban or a like is a
/// decision, and two machines cannot un-decide each other silently.
pub open spec fn merged_flag(base: bool, a: bool, b: bool) -> bool {
    if a != base { a } else if b != base { b } else { base }
}

pub fn merge_flag(base: bool, a: bool, b: bool) -> (r: bool)
    ensures
        r == merged_flag(base, a, b),
{
    if a != base {
        a
    } else if b != base {
        b
    } else {
        base
    }
}

/// Merging flags does not depend on which machine is which; a side that did
/// not move yields to the other; a flag both sides leave alone stays.
pub proof fn merge_flag_laws(base: bool, a: bool, b: bool)
    ensures
        merged_flag(base, a, b) == merged_flag(base, b, a),
        merged_flag(base, base, b) == b,
        merged_flag(base, a, base) == a,
        merged_flag(base, base, base) == base,
{
}

/// A value as a learned file writes it: in quotes, escaped.
pub fn quote(s: &str) -> (r: String)
    ensures
        r@ == quoted(s@),
{
    string_of(&quote_exec(&chars_of(s)))
}

/// A harvest to sort later, as the marks' inbox appends it: who, what,
/// and the day it was marked.
pub fn mark_entry(artist: &str, title: &str, today: i64) -> (r: String)
    requires
        today + 719468 <= i64::MAX,
        today + 719468 >= 0 || today + 719468 - 146096 >= i64::MIN,
    ensures
        r@ == "[[mark]]\nartist = "@ + quoted(artist@) + "\ntitle = "@ + quoted(title@) + "\nat = "@
            + quoted(iso_of(today as int)) + "\n\n"@,
{
    let mut m: Vec<char> = Vec::new();
    push_str(&mut m, "[[mark]]\nartist = ");
    push_str(&mut m, quote(artist).as_str());
    push_str(&mut m, "\ntitle = ");
    push_str(&mut m, quote(title).as_str());
    push_str(&mut m, "\nat = ");
    push_str(&mut m, quote(iso(today).as_str()).as_str());
    push_str(&mut m, "\n\n");
    string_of(&m)
}

/// What the file leaves out: a flag that is not set.
pub fn is_false(b: &bool) -> (r: bool)
    ensures
        r == !*b,
{
    !*b
}

/// What the file leaves out: a count that is zero.
pub fn is_zero_u32(n: &u32) -> (r: bool)
    ensures
        r == (*n == 0),
{
    *n == 0
}

// ---------------------------------------------------------------------------
// Taste: what the listener's gestures say, beside the counters.

/// What the listening says of one track besides its counter: liked, how
/// many times skipped, banned.
#[derive(Clone, Copy, PartialEq, Eq, Structural, Debug)]
pub struct Top {
    pub liked: bool,
    pub skipped: u32,
    pub blacklisted: bool,
}

/// A track nothing was said of.
pub open spec fn untouched() -> Top {
    Top { liked: false, skipped: 0, blacklisted: false }
}

impl Default for Top {
    fn default() -> (t: Self)
        ensures
            t == untouched(),
    {
        Top { liked: false, skipped: 0, blacklisted: false }
    }
}

/// What the listening says of one artist besides its counter and weight:
/// banned, "not one of my liked", and its tracks by title.
pub struct Artist {
    pub blacklisted: bool,
    pub unliked: bool,
    pub tops: Vec<(String, Top)>,
}

pub open spec fn tops_view(ts: Seq<(String, Top)>) -> Seq<(Seq<char>, Top)> {
    ts.map_values(|p: (String, Top)| (p.0@, p.1))
}

impl View for Artist {
    type V = (bool, bool, Seq<(Seq<char>, Top)>);

    open spec fn view(&self) -> (bool, bool, Seq<(Seq<char>, Top)>) {
        (self.blacklisted, self.unliked, tops_view(self.tops@))
    }
}

/// The titles of an artist's tracks, in the order they are kept.
pub open spec fn titles(ts: Seq<(Seq<char>, Top)>) -> Seq<Seq<char>> {
    ts.map_values(|p: (Seq<char>, Top)| p.0)
}

pub open spec fn has_title(ts: Seq<(Seq<char>, Top)>, title: Seq<char>) -> bool {
    exists|k: int| 0 <= k < ts.len() && ts[k].0 == title
}

/// Where a title is kept, when it is.
pub open spec fn title_index(ts: Seq<(Seq<char>, Top)>, title: Seq<char>) -> int {
    choose|k: int| 0 <= k < ts.len() && ts[k].0 == title
}

/// What is said of a title: its entry, or nothing.
pub open spec fn top_in(ts: Seq<(Seq<char>, Top)>, title: Seq<char>) -> Top {
    if has_title(ts, title) {
        ts[title_index(ts, title)].1
    } else {
        untouched()
    }
}

/// The tracks with `t` said of `title`: its entry replaced, or a new one
/// where the title sorts.
pub open spec fn put_top(ts: Seq<(Seq<char>, Top)>, title: Seq<char>, t: Top) -> Seq<(Seq<char>, Top)> {
    let j = insert_at(titles(ts), title, 0);
    if 0 <= j < ts.len() && ts[j].0 == title {
        ts.update(j, (title, t))
    } else {
        ts.insert(j, (title, t))
    }
}

pub open spec fn has_slug(v: Seq<(Seq<char>, (bool, bool, Seq<(Seq<char>, Top)>))>, slug: Seq<char>) -> bool {
    exists|k: int| 0 <= k < v.len() && v[k].0 == slug
}

/// Where an artist is kept, when it is.
pub open spec fn slug_index(v: Seq<(Seq<char>, (bool, bool, Seq<(Seq<char>, Top)>))>, slug: Seq<char>) -> int {
    choose|k: int| 0 <= k < v.len() && v[k].0 == slug
}

/// What is said of an artist: its entry, or nothing.
pub open spec fn artist_in(v: Seq<(Seq<char>, (bool, bool, Seq<(Seq<char>, Top)>))>, slug: Seq<char>) -> (bool, bool, Seq<(Seq<char>, Top)>) {
    if has_slug(v, slug) {
        v[slug_index(v, slug)].1
    } else {
        (false, false, seq![])
    }
}

/// The layer with `a` said of `slug`: its entry replaced in place, or a
/// new one at the end.
pub open spec fn put_artist(
    v: Seq<(Seq<char>, (bool, bool, Seq<(Seq<char>, Top)>))>,
    slug: Seq<char>,
    a: (bool, bool, Seq<(Seq<char>, Top)>),
) -> Seq<(Seq<char>, (bool, bool, Seq<(Seq<char>, Top)>))> {
    if has_slug(v, slug) {
        v.update(slug_index(v, slug), (slug, a))
    } else {
        v.push((slug, a))
    }
}

/// What is said of one track of one artist.
pub open spec fn top_at(v: Seq<(Seq<char>, (bool, bool, Seq<(Seq<char>, Top)>))>, slug: Seq<char>, title: Seq<char>) -> Top {
    top_in(artist_in(v, slug).2, title)
}

/// The layer with `t` said of one track.
pub open spec fn with_top(
    v: Seq<(Seq<char>, (bool, bool, Seq<(Seq<char>, Top)>))>,
    slug: Seq<char>,
    title: Seq<char>,
    t: Top,
) -> Seq<(Seq<char>, (bool, bool, Seq<(Seq<char>, Top)>))> {
    let a = artist_in(v, slug);
    put_artist(v, slug, (a.0, a.1, put_top(a.2, title, t)))
}

pub open spec fn distinct_slugs(v: Seq<(Seq<char>, (bool, bool, Seq<(Seq<char>, Top)>))>) -> bool {
    forall|i: int, j: int| 0 <= i < j < v.len() ==> v[i].0 != v[j].0
}

/// How the layer is kept: each artist once, each artist's tracks sorted
/// by title (each once), so that a file reads the same on every machine.
pub open spec fn kept(v: Seq<(Seq<char>, (bool, bool, Seq<(Seq<char>, Top)>))>) -> bool {
    &&& distinct_slugs(v)
    &&& forall|i: int| #![trigger v[i]] 0 <= i < v.len() ==> strictly_sorted(titles(v[i].1.2))
}

proof fn lemma_sorted_distinct(s: Seq<Seq<char>>, i: int, j: int)
    requires
        strictly_sorted(s),
        0 <= i < s.len(),
        0 <= j < s.len(),
        i != j,
    ensures
        s[i] != s[j],
{
    if i < j {
        assert(lex_lt(s[i], s[j]));
        lemma_lex_irreflexive(s[i]);
    } else {
        assert(lex_lt(s[j], s[i]));
        lemma_lex_irreflexive(s[j]);
    }
}

/// In a sorted list, a title not at the place where it would go is not
/// there at all.
proof fn lemma_not_found(s: Seq<Seq<char>>, x: Seq<char>)
    requires
        strictly_sorted(s),
        insert_at(s, x, 0) >= s.len() || s[insert_at(s, x, 0)] != x,
    ensures
        !s.contains(x),
{
    let j = insert_at(s, x, 0);
    lemma_insert_at(s, x, 0);
    lemma_insert_at_below(s, x, 0);
    if s.contains(x) {
        let k = choose|k: int| 0 <= k < s.len() && s[k] == x;
        if k < j {
            assert(lex_lt(s[k], x));
            lemma_lex_irreflexive(x);
        } else if k > j {
            lemma_lex_total(s[j], x);
            assert(lex_lt(s[j], s[k]));
            lemma_lex_transitive(x, s[j], s[k]);
            lemma_lex_irreflexive(x);
        }
    }
}

proof fn lemma_titles_have(ts: Seq<(Seq<char>, Top)>, title: Seq<char>)
    ensures
        has_title(ts, title) <==> titles(ts).contains(title),
{
    if has_title(ts, title) {
        let k = choose|k: int| 0 <= k < ts.len() && ts[k].0 == title;
        assert(titles(ts)[k] == title);
    }
    if titles(ts).contains(title) {
        let k = choose|k: int| 0 <= k < titles(ts).len() && titles(ts)[k] == title;
        assert(ts[k].0 == title);
    }
}

/// Putting a track's entry keeps the tracks sorted, gives back what was
/// put, and leaves every other title as it was.
proof fn lemma_put_top(ts: Seq<(Seq<char>, Top)>, title: Seq<char>, t: Top)
    requires
        strictly_sorted(titles(ts)),
    ensures
        titles(put_top(ts, title, t)) == set_insert(titles(ts), title),
        strictly_sorted(titles(put_top(ts, title, t))),
        has_title(put_top(ts, title, t), title),
        top_in(put_top(ts, title, t), title) == t,
        forall|u: Seq<char>| u != title ==> #[trigger] has_title(put_top(ts, title, t), u) == has_title(ts, u),
        forall|u: Seq<char>| u != title ==> #[trigger] top_in(put_top(ts, title, t), u) == top_in(ts, u),
{
    let s = titles(ts);
    let j = insert_at(s, title, 0);
    lemma_insert_at(s, title, 0);
    let p = put_top(ts, title, t);
    if 0 <= j < ts.len() && ts[j].0 == title {
        assert(titles(p) =~= s);
        assert(s[j] == title);
        assert(set_insert(s, title) == s);
    } else {
        assert(titles(p) =~= s.insert(j, title));
        assert(set_insert(s, title) == s.insert(j, title));
    }
    set_insert_keeps_sorted(s, title);
    assert(p[j] == (title, t));
    assert(has_title(p, title));
    let k = title_index(p, title);
    if k != j {
        assert(titles(p)[k] == title && titles(p)[j] == title);
        lemma_sorted_distinct(titles(p), k, j);
    }
    assert forall|u: Seq<char>| u != title implies #[trigger] has_title(p, u) == has_title(ts, u)
        && top_in(p, u) == top_in(ts, u) by {
        if has_title(ts, u) {
            let a = choose|a: int| 0 <= a < ts.len() && ts[a].0 == u;
            let b = if a < j || (0 <= j < ts.len() && ts[j].0 == title) { a } else { a + 1 };
            assert(p[b] == ts[a]);
            let c = title_index(p, u);
            if c != b {
                assert(titles(p)[c] == u && titles(p)[b] == u);
                lemma_sorted_distinct(titles(p), c, b);
            }
            let d = title_index(ts, u);
            if d != a {
                assert(titles(ts)[d] == u && titles(ts)[a] == u);
                lemma_sorted_distinct(titles(ts), d, a);
            }
        } else if has_title(p, u) {
            let c = choose|c: int| 0 <= c < p.len() && p[c].0 == u;
            if 0 <= j < ts.len() && ts[j].0 == title {
                assert(ts[c].0 == u);
            } else if c < j {
                assert(ts[c].0 == u);
            } else {
                assert(c != j);
                assert(ts[c - 1].0 == u);
            }
        }
    }
}

/// Putting an artist's entry keeps each artist once, gives back what was
/// put, and leaves every other artist as it was.
proof fn lemma_put_artist(
    v: Seq<(Seq<char>, (bool, bool, Seq<(Seq<char>, Top)>))>,
    slug: Seq<char>,
    a: (bool, bool, Seq<(Seq<char>, Top)>),
)
    requires
        distinct_slugs(v),
    ensures
        distinct_slugs(put_artist(v, slug, a)),
        has_slug(put_artist(v, slug, a), slug),
        artist_in(put_artist(v, slug, a), slug) == a,
        forall|u: Seq<char>| u != slug ==> #[trigger] artist_in(put_artist(v, slug, a), u) == artist_in(v, u),
        forall|i: int| 0 <= i < put_artist(v, slug, a).len() ==> #[trigger] put_artist(v, slug, a)[i] == (slug, a)
            || (i < v.len() && put_artist(v, slug, a)[i] == v[i]),
{
    let p = put_artist(v, slug, a);
    let j = if has_slug(v, slug) { slug_index(v, slug) } else { v.len() as int };
    assert(p[j] == (slug, a));
    assert forall|x: int, y: int| 0 <= x < y < p.len() implies p[x].0 != p[y].0 by {
        if x != j && y != j {
            assert(p[x] == v[x] && p[y] == v[y]);
        } else if x == j {
            assert(p[y] == v[y]);
            if has_slug(v, slug) {
                assert(v[j].0 == slug);
            }
        } else {
            assert(p[x] == v[x]);
            if has_slug(v, slug) {
                assert(v[j].0 == slug);
            }
        }
    }
    let k = slug_index(p, slug);
    if k != j {
        assert(p[k].0 == p[j].0);
    }
    assert forall|u: Seq<char>| u != slug implies #[trigger] artist_in(p, u) == artist_in(v, u) by {
        if has_slug(v, u) {
            let b = choose|b: int| 0 <= b < v.len() && v[b].0 == u;
            assert(b != j);
            assert(p[b] == v[b]);
            let c = slug_index(p, u);
            if c != b {
                assert(p[c].0 == p[b].0);
            }
            let d = slug_index(v, u);
            if d != b {
                assert(v[d].0 == v[b].0);
            }
        } else if has_slug(p, u) {
            let c = choose|c: int| 0 <= c < p.len() && p[c].0 == u;
            assert(c != j);
            assert(v[c].0 == u);
        }
    }
}

/// Saying something of one track keeps the layer as it is kept, gives
/// back what was said, and leaves every other track, and every artist's
/// own flags, as they were.
proof fn lemma_with_top(
    v: Seq<(Seq<char>, (bool, bool, Seq<(Seq<char>, Top)>))>,
    slug: Seq<char>,
    title: Seq<char>,
    t: Top,
)
    requires
        kept(v),
    ensures
        kept(with_top(v, slug, title, t)),
        has_slug(with_top(v, slug, title, t), slug),
        has_title(artist_in(with_top(v, slug, title, t), slug).2, title),
        top_at(with_top(v, slug, title, t), slug, title) == t,
        forall|s2: Seq<char>, t2: Seq<char>| (s2 != slug || t2 != title) ==>
            #[trigger] top_at(with_top(v, slug, title, t), s2, t2) == top_at(v, s2, t2),
        forall|s2: Seq<char>| #[trigger] artist_in(with_top(v, slug, title, t), s2).0 == artist_in(v, s2).0
            && artist_in(with_top(v, slug, title, t), s2).1 == artist_in(v, s2).1,
{
    let a = artist_in(v, slug);
    if has_slug(v, slug) {
        let k = slug_index(v, slug);
        assert(strictly_sorted(titles(v[k].1.2)));
    } else {
        assert(titles(a.2) =~= seq![]);
    }
    assert(strictly_sorted(titles(a.2)));
    let na = (a.0, a.1, put_top(a.2, title, t));
    lemma_put_top(a.2, title, t);
    lemma_put_artist(v, slug, na);
    let w = with_top(v, slug, title, t);
    assert forall|i: int| #![trigger w[i]] 0 <= i < w.len() implies strictly_sorted(titles(w[i].1.2)) by {
        if w[i] != (slug, na) {
            assert(w[i] == v[i]);
        }
    }
    assert forall|s2: Seq<char>, t2: Seq<char>| (s2 != slug || t2 != title) implies
        #[trigger] top_at(w, s2, t2) == top_at(v, s2, t2) by {
        if s2 == slug {
            assert(top_in(put_top(a.2, title, t), t2) == top_in(a.2, t2));
        } else {
            assert(artist_in(w, s2) == artist_in(v, s2));
        }
    }
    assert forall|s2: Seq<char>| #[trigger] artist_in(w, s2).0 == artist_in(v, s2).0
        && artist_in(w, s2).1 == artist_in(v, s2).1 by {
        if s2 != slug {
            assert(artist_in(w, s2) == artist_in(v, s2));
        }
    }
}

proof fn lemma_slug_at(v: Seq<(Seq<char>, (bool, bool, Seq<(Seq<char>, Top)>))>, slug: Seq<char>, i: int)
    requires
        distinct_slugs(v),
        0 <= i < v.len(),
        v[i].0 == slug,
    ensures
        has_slug(v, slug),
        slug_index(v, slug) == i,
        artist_in(v, slug) == v[i].1,
{
    assert(has_slug(v, slug));
    let k = slug_index(v, slug);
    if k != i {
        assert(v[k].0 == v[i].0);
    }
}

proof fn lemma_title_at(ts: Seq<(Seq<char>, Top)>, title: Seq<char>, j: int)
    requires
        strictly_sorted(titles(ts)),
        0 <= j < ts.len(),
        ts[j].0 == title,
    ensures
        has_title(ts, title),
        title_index(ts, title) == j,
        top_in(ts, title) == ts[j].1,
{
    assert(has_title(ts, title));
    let k = title_index(ts, title);
    if k != j {
        assert(titles(ts)[k] == title && titles(ts)[j] == title);
        lemma_sorted_distinct(titles(ts), k, j);
    }
}

/// The layer's gestures, as what they make of it.
pub open spec fn like_track_of(
    v: Seq<(Seq<char>, (bool, bool, Seq<(Seq<char>, Top)>))>,
    slug: Seq<char>,
    title: Seq<char>,
) -> Seq<(Seq<char>, (bool, bool, Seq<(Seq<char>, Top)>))> {
    let t = top_at(v, slug, title);
    with_top(v, slug, title, Top { liked: true, skipped: 0, blacklisted: t.blacklisted })
}

pub open spec fn skip_track_of(
    v: Seq<(Seq<char>, (bool, bool, Seq<(Seq<char>, Top)>))>,
    slug: Seq<char>,
    title: Seq<char>,
) -> Seq<(Seq<char>, (bool, bool, Seq<(Seq<char>, Top)>))> {
    let t = top_at(v, slug, title);
    with_top(v, slug, title, Top { liked: false, skipped: (t.skipped + 1) as u32, blacklisted: t.blacklisted })
}

pub open spec fn unlike_track_of(
    v: Seq<(Seq<char>, (bool, bool, Seq<(Seq<char>, Top)>))>,
    slug: Seq<char>,
    title: Seq<char>,
) -> Seq<(Seq<char>, (bool, bool, Seq<(Seq<char>, Top)>))> {
    if has_slug(v, slug) && has_title(artist_in(v, slug).2, title) {
        let t = top_at(v, slug, title);
        with_top(v, slug, title, Top { liked: false, skipped: t.skipped, blacklisted: t.blacklisted })
    } else {
        v
    }
}

pub open spec fn ban_track_of(
    v: Seq<(Seq<char>, (bool, bool, Seq<(Seq<char>, Top)>))>,
    slug: Seq<char>,
    title: Seq<char>,
) -> Seq<(Seq<char>, (bool, bool, Seq<(Seq<char>, Top)>))> {
    let t = top_at(v, slug, title);
    with_top(v, slug, title, Top { liked: t.liked, skipped: t.skipped, blacklisted: true })
}

pub open spec fn ban_artist_of(
    v: Seq<(Seq<char>, (bool, bool, Seq<(Seq<char>, Top)>))>,
    slug: Seq<char>,
) -> Seq<(Seq<char>, (bool, bool, Seq<(Seq<char>, Top)>))> {
    let a = artist_in(v, slug);
    put_artist(v, slug, (true, a.1, a.2))
}

/// The liked titles among an artist's tracks, in the order they are kept.
pub open spec fn liked_titles(ts: Seq<(Seq<char>, Top)>) -> Seq<Seq<char>>
    decreases ts.len(),
{
    if ts.len() == 0 {
        seq![]
    } else {
        let r = liked_titles(ts.drop_last());
        if ts.last().1.liked { r.push(ts.last().0) } else { r }
    }
}

/// The banned titles among an artist's tracks, in the order they are kept.
pub open spec fn banned_titles(ts: Seq<(Seq<char>, Top)>) -> Seq<Seq<char>>
    decreases ts.len(),
{
    if ts.len() == 0 {
        seq![]
    } else {
        let r = banned_titles(ts.drop_last());
        if ts.last().1.blacklisted { r.push(ts.last().0) } else { r }
    }
}

/// Every banned title of every artist, artist after artist.
pub open spec fn banned_everywhere(v: Seq<(Seq<char>, (bool, bool, Seq<(Seq<char>, Top)>))>) -> Seq<Seq<char>>
    decreases v.len(),
{
    if v.len() == 0 {
        seq![]
    } else {
        banned_everywhere(v.drop_last()) + banned_titles(v.last().1.2)
    }
}

/// The banned artists, in the order they are kept.
pub open spec fn banned_slugs(v: Seq<(Seq<char>, (bool, bool, Seq<(Seq<char>, Top)>))>) -> Seq<Seq<char>>
    decreases v.len(),
{
    if v.len() == 0 {
        seq![]
    } else {
        let r = banned_slugs(v.drop_last());
        if v.last().1.0 { r.push(v.last().0) } else { r }
    }
}

/// The liked tracks of one artist that are not banned, as (artist, title).
pub open spec fn liked_here(slug: Seq<char>, ts: Seq<(Seq<char>, Top)>) -> Seq<(Seq<char>, Seq<char>)>
    decreases ts.len(),
{
    if ts.len() == 0 {
        seq![]
    } else {
        let r = liked_here(slug, ts.drop_last());
        if ts.last().1.liked && !ts.last().1.blacklisted { r.push((slug, ts.last().0)) } else { r }
    }
}

/// The liked tracks that are not banned, artist after artist.
pub open spec fn liked_everywhere(v: Seq<(Seq<char>, (bool, bool, Seq<(Seq<char>, Top)>))>) -> Seq<(Seq<char>, Seq<char>)>
    decreases v.len(),
{
    if v.len() == 0 {
        seq![]
    } else {
        liked_everywhere(v.drop_last()) + liked_here(v.last().0, v.last().1.2)
    }
}

pub open spec fn pairs_view(v: Seq<(String, String)>) -> Seq<(Seq<char>, Seq<char>)> {
    v.map_values(|p: (String, String)| (p.0@, p.1@))
}

pub open spec fn artists_view(v: Seq<(String, Artist)>) -> Seq<(Seq<char>, (bool, bool, Seq<(Seq<char>, Top)>))> {
    v.map_values(|p: (String, Artist)| (p.0@, p.1@))
}

fn find_slug(v: &Vec<(String, Artist)>, slug: &str) -> (r: Option<usize>)
    ensures
        match r {
            Some(i) => i < v@.len() && v@[i as int].0@ == slug@,
            None => !has_slug(artists_view(v@), slug@),
        },
{
    let mut i: usize = 0;
    while i < v.len()
        invariant
            i <= v@.len(),
            forall|k: int| 0 <= k < i ==> v@[k].0@ != slug@,
        decreases v@.len() - i,
    {
        if same_str(v[i].0.as_str(), slug) {
            return Some(i);
        }
        i = i + 1;
    }
    proof {
        let w = artists_view(v@);
        if has_slug(w, slug@) {
            let k = choose|k: int| 0 <= k < w.len() && w[k].0 == slug@;
            assert(w[k].0 == v@[k].0@);
        }
    }
    None
}

fn find_top(ts: &Vec<(String, Top)>, title: &str) -> (j: usize)
    ensures
        j == insert_at(titles(tops_view(ts@)), title@, 0),
        j <= ts@.len(),
{
    let ghost s = titles(tops_view(ts@));
    let tc = chars_of(title);
    proof { lemma_insert_at(s, title@, 0); }
    let mut j: usize = 0;
    while j < ts.len() && lex_less(&chars_of(ts[j].0.as_str()), &tc)
        invariant
            j <= ts@.len(),
            s == titles(tops_view(ts@)),
            tc@ == title@,
            insert_at(s, title@, 0) == insert_at(s, title@, j as int),
        decreases ts@.len() - j,
    {
        assert(s[j as int] == ts@[j as int].0@);
        j = j + 1;
    }
    proof {
        if j < ts.len() {
            assert(s[j as int] == ts@[j as int].0@);
        }
    }
    j
}

fn put_top_exec(ts: &mut Vec<(String, Top)>, title: &str, t: Top)
    ensures
        tops_view(final(ts)@) == put_top(tops_view(old(ts)@), title@, t),
{
    let ghost tv = tops_view(ts@);
    let j = find_top(ts, title);
    let found = j < ts.len() && same_str(ts[j].0.as_str(), title);
    let entry = (string_of(&chars_of(title)), t);
    if found {
        let ghost before = ts@;
        ts.set(j, entry);
        assert(tops_view(ts@) =~= tv.update(j as int, (title@, t)));
    } else {
        let ghost before = ts@;
        ts.insert(j, entry);
        assert(tops_view(ts@) =~= tv.insert(j as int, (title@, t)));
    }
}

/// The learned layer's taste: each artist something was said of, once,
/// with its tracks sorted by title. The counters and weights beside them
/// are floats, and live with the player.
pub struct Learned {
    artists: Vec<(String, Artist)>,
}

impl View for Learned {
    type V = Seq<(Seq<char>, (bool, bool, Seq<(Seq<char>, Top)>))>;

    closed spec fn view(&self) -> Seq<(Seq<char>, (bool, bool, Seq<(Seq<char>, Top)>))> {
        artists_view(self.artists@)
    }
}

impl Learned {
    #[verifier::type_invariant]
    spec fn well_kept(self) -> bool {
        kept(artists_view(self.artists@))
    }

    /// A layer nobody has listened through yet.
    pub fn blank() -> (l: Learned)
        ensures
            l@ == Seq::<(Seq<char>, (bool, bool, Seq<(Seq<char>, Top)>))>::empty(),
    {
        let artists: Vec<(String, Artist)> = Vec::new();
        assert(artists_view(artists@) =~= Seq::<(Seq<char>, (bool, bool, Seq<(Seq<char>, Top)>))>::empty());
        Learned { artists }
    }

    /// How many artists something was said of.
    pub fn known(&self) -> (r: usize)
        ensures
            r == self@.len(),
    {
        self.artists.len()
    }

    fn top_of_track(&self, slug: &str, title: &str) -> (r: Top)
        ensures
            r == top_at(self@, slug@, title@),
    {
        proof { use_type_invariant(self); }
        match find_slug(&self.artists, slug) {
            Some(i) => {
                proof { lemma_slug_at(self@, slug@, i as int); }
                let ts = &self.artists[i].1.tops;
                let ghost tv = tops_view(ts@);
                assert(tv == self@[i as int].1.2);
                let j = find_top(ts, title);
                if j < ts.len() && same_str(ts[j].0.as_str(), title) {
                    proof { lemma_title_at(tv, title@, j as int); }
                    ts[j].1
                } else {
                    proof {
                        if j < ts.len() {
                            assert(titles(tv)[j as int] == ts@[j as int].0@);
                        }
                        lemma_not_found(titles(tv), title@);
                        lemma_titles_have(tv, title@);
                    }
                    Top { liked: false, skipped: 0, blacklisted: false }
                }
            },
            None => Top { liked: false, skipped: 0, blacklisted: false },
        }
    }
}

impl Learned {
    fn put_track(&mut self, slug: &str, title: &str, t: Top)
        ensures
            final(self)@ == with_top(old(self)@, slug@, title@, t),
    {
        proof { use_type_invariant(&*self); }
        let ghost v0 = self@;
        proof { lemma_with_top(v0, slug@, title@, t); }
        let mut artists: Vec<(String, Artist)> = Vec::new();
        assert(artists_view(artists@) =~= Seq::<(Seq<char>, (bool, bool, Seq<(Seq<char>, Top)>))>::empty());
        std::mem::swap(&mut artists, &mut self.artists);
        assert(artists_view(artists@) == v0);
        match find_slug(&artists, slug) {
            Some(i) => {
                proof { lemma_slug_at(v0, slug@, i as int); }
                let (name, mut artist) = artists.remove(i);
                assert(artist@ == v0[i as int].1);
                put_top_exec(&mut artist.tops, title, t);
                let ghost a = v0[i as int].1;
                assert(artist@ == (a.0, a.1, put_top(a.2, title@, t)));
                let ghost before = artists@;
                artists.insert(i, (name, artist));
                assert(artists_view(artists@) =~= v0.update(i as int, (slug@, artist@)));
            },
            None => {
                let mut tops: Vec<(String, Top)> = Vec::new();
                tops.push((string_of(&chars_of(title)), t));
                let artist = Artist { blacklisted: false, unliked: false, tops };
                proof {
                    lemma_insert_at(titles(seq![]), title@, 0);
                    assert(tops_view(artist.tops@) =~= put_top(seq![], title@, t));
                }
                let ghost before = artists@;
                artists.push((string_of(&chars_of(slug)), artist));
                assert(artists_view(artists@) =~= v0.push((slug@, artist@)));
            },
        }
        self.artists = artists;
    }

    fn has_track(&self, slug: &str, title: &str) -> (r: bool)
        ensures
            r == (has_slug(self@, slug@) && has_title(artist_in(self@, slug@).2, title@)),
    {
        proof { use_type_invariant(self); }
        match find_slug(&self.artists, slug) {
            Some(i) => {
                proof { lemma_slug_at(self@, slug@, i as int); }
                let ts = &self.artists[i].1.tops;
                let ghost tv = tops_view(ts@);
                assert(tv == self@[i as int].1.2);
                let j = find_top(ts, title);
                if j < ts.len() && same_str(ts[j].0.as_str(), title) {
                    proof { lemma_title_at(tv, title@, j as int); }
                    true
                } else {
                    proof {
                        if j < ts.len() {
                            assert(titles(tv)[j as int] == ts@[j as int].0@);
                        }
                        lemma_not_found(titles(tv), title@);
                        lemma_titles_have(tv, title@);
                    }
                    false
                }
            },
            None => false,
        }
    }

    /// "More often" on a track — the one gesture of taste. It also forgives
    /// the skips: the opposite gesture cancels the previous one.
    pub fn like_track(&mut self, slug: &str, title: &str)
        ensures
            final(self)@ == like_track_of(old(self)@, slug@, title@),
    {
        let t = self.top_of_track(slug, title);
        self.put_track(slug, title, Top { liked: true, skipped: 0, blacklisted: t.blacklisted });
    }

    /// Take the like back, and only that. A track nothing was said of
    /// stays so.
    pub fn unlike_track(&mut self, slug: &str, title: &str)
        ensures
            final(self)@ == unlike_track_of(old(self)@, slug@, title@),
    {
        if self.has_track(slug, title) {
            let t = self.top_of_track(slug, title);
            self.put_track(slug, title, Top { liked: false, skipped: t.skipped, blacklisted: t.blacklisted });
        }
    }

    /// "Less often" on a track: each skip pushes it further back, and
    /// takes the like away.
    pub fn skip_track(&mut self, slug: &str, title: &str)
        requires
            top_at(old(self)@, slug@, title@).skipped < u32::MAX,
        ensures
            final(self)@ == skip_track_of(old(self)@, slug@, title@),
    {
        let t = self.top_of_track(slug, title);
        self.put_track(slug, title, Top { liked: false, skipped: t.skipped + 1, blacklisted: t.blacklisted });
    }

    pub fn ban_track(&mut self, slug: &str, title: &str)
        ensures
            final(self)@ == ban_track_of(old(self)@, slug@, title@),
    {
        let t = self.top_of_track(slug, title);
        self.put_track(slug, title, Top { liked: t.liked, skipped: t.skipped, blacklisted: true });
    }

    pub fn ban_artist(&mut self, slug: &str)
        ensures
            final(self)@ == ban_artist_of(old(self)@, slug@),
    {
        proof { use_type_invariant(&*self); }
        let ghost v0 = self@;
        let ghost a0 = artist_in(v0, slug@);
        proof {
            lemma_put_artist(v0, slug@, (true, a0.1, a0.2));
            if has_slug(v0, slug@) {
                let k = slug_index(v0, slug@);
                assert(strictly_sorted(titles(v0[k].1.2)));
            }
            let w = ban_artist_of(v0, slug@);
            assert forall|i: int| #![trigger w[i]] 0 <= i < w.len() implies strictly_sorted(titles(w[i].1.2)) by {
                if w[i] != (slug@, (true, a0.1, a0.2)) {
                    assert(w[i] == v0[i]);
                } else if !has_slug(v0, slug@) {
                    assert(titles(a0.2) =~= seq![]);
                }
            }
        }
        let mut artists: Vec<(String, Artist)> = Vec::new();
        assert(artists_view(artists@) =~= Seq::<(Seq<char>, (bool, bool, Seq<(Seq<char>, Top)>))>::empty());
        std::mem::swap(&mut artists, &mut self.artists);
        assert(artists_view(artists@) == v0);
        match find_slug(&artists, slug) {
            Some(i) => {
                proof { lemma_slug_at(v0, slug@, i as int); }
                let (name, mut artist) = artists.remove(i);
                assert(artist@ == v0[i as int].1);
                artist.blacklisted = true;
                artists.insert(i, (name, artist));
                assert(artists_view(artists@) =~= v0.update(i as int, (slug@, artist@)));
            },
            None => {
                let artist = Artist { blacklisted: true, unliked: false, tops: Vec::new() };
                assert(artist@.2 =~= seq![]);
                artists.push((string_of(&chars_of(slug)), artist));
                assert(artists_view(artists@) =~= v0.push((slug@, artist@)));
            },
        }
        self.artists = artists;
    }
}

fn liked_of(ts: &Vec<(String, Top)>) -> (r: Vec<String>)
    ensures
        strings(r@) == liked_titles(tops_view(ts@)),
{
    let ghost tv = tops_view(ts@);
    let mut r: Vec<String> = Vec::new();
    let mut k: usize = 0;
    assert(tv.take(0) =~= seq![]);
    while k < ts.len()
        invariant
            k <= ts@.len(),
            tv == tops_view(ts@),
            strings(r@) == liked_titles(tv.take(k as int)),
        decreases ts@.len() - k,
    {
        assert(tv.take(k + 1).drop_last() =~= tv.take(k as int));
        if ts[k].1.liked {
            let ghost before = r@;
            r.push(ts[k].0.clone());
            assert(strings(r@) =~= strings(before).push(ts@[k as int].0@));
        }
        k = k + 1;
    }
    assert(tv.take(k as int) =~= tv);
    r
}

fn banned_of(ts: &Vec<(String, Top)>, into: &mut Vec<String>)
    ensures
        strings(final(into)@) == strings(old(into)@) + banned_titles(tops_view(ts@)),
{
    let ghost tv = tops_view(ts@);
    let ghost start = strings(into@);
    let mut k: usize = 0;
    assert(tv.take(0) =~= seq![]);
    assert(start + banned_titles(tv.take(0)) =~= start);
    while k < ts.len()
        invariant
            k <= ts@.len(),
            tv == tops_view(ts@),
            strings(into@) == start + banned_titles(tv.take(k as int)),
        decreases ts@.len() - k,
    {
        assert(tv.take(k + 1).drop_last() =~= tv.take(k as int));
        if ts[k].1.blacklisted {
            let ghost before = into@;
            into.push(ts[k].0.clone());
            assert(strings(into@) =~= strings(before).push(ts@[k as int].0@));
            assert(start + banned_titles(tv.take(k + 1)) =~= (start + banned_titles(tv.take(k as int))).push(ts@[k as int].0@));
        }
        k = k + 1;
    }
    assert(tv.take(k as int) =~= tv);
}

fn liked_here_of(slug: &String, ts: &Vec<(String, Top)>, into: &mut Vec<(String, String)>)
    ensures
        pairs_view(final(into)@) == pairs_view(old(into)@) + liked_here(slug@, tops_view(ts@)),
{
    let ghost tv = tops_view(ts@);
    let ghost start = pairs_view(into@);
    let mut k: usize = 0;
    assert(tv.take(0) =~= seq![]);
    assert(start + liked_here(slug@, tv.take(0)) =~= start);
    while k < ts.len()
        invariant
            k <= ts@.len(),
            tv == tops_view(ts@),
            pairs_view(into@) == start + liked_here(slug@, tv.take(k as int)),
        decreases ts@.len() - k,
    {
        assert(tv.take(k + 1).drop_last() =~= tv.take(k as int));
        if ts[k].1.liked && !ts[k].1.blacklisted {
            let ghost before = into@;
            into.push((slug.clone(), ts[k].0.clone()));
            assert(pairs_view(into@) =~= pairs_view(before).push((slug@, ts@[k as int].0@)));
            assert(start + liked_here(slug@, tv.take(k + 1))
                =~= (start + liked_here(slug@, tv.take(k as int))).push((slug@, ts@[k as int].0@)));
        }
        k = k + 1;
    }
    assert(tv.take(k as int) =~= tv);
}

impl Learned {
    /// Is this track one of the listener's liked ones?
    pub fn track_liked(&self, slug: &str, title: &str) -> (r: bool)
        ensures
            r == top_at(self@, slug@, title@).liked,
    {
        self.top_of_track(slug, title).liked
    }

    /// How many times this track was skipped: it pushes it back in the draw.
    pub fn skipped(&self, slug: &str, title: &str) -> (r: u32)
        ensures
            r == top_at(self@, slug@, title@).skipped,
    {
        self.top_of_track(slug, title).skipped
    }

    pub fn track_banned(&self, slug: &str, title: &str) -> (r: bool)
        ensures
            r == top_at(self@, slug@, title@).blacklisted,
    {
        self.top_of_track(slug, title).blacklisted
    }

    pub fn artist_is_banned(&self, slug: &str) -> (r: bool)
        ensures
            r == artist_in(self@, slug@).0,
    {
        proof { use_type_invariant(self); }
        match find_slug(&self.artists, slug) {
            Some(i) => {
                proof { lemma_slug_at(self@, slug@, i as int); }
                self.artists[i].1.blacklisted
            },
            None => false,
        }
    }

    /// The tracks this listener has liked at an artist, by title.
    pub fn liked_tracks(&self, slug: &str) -> (r: Vec<String>)
        ensures
            strings(r@) == liked_titles(artist_in(self@, slug@).2),
    {
        proof { use_type_invariant(self); }
        match find_slug(&self.artists, slug) {
            Some(i) => {
                proof { lemma_slug_at(self@, slug@, i as int); }
                liked_of(&self.artists[i].1.tops)
            },
            None => {
                let r: Vec<String> = Vec::new();
                assert(strings(r@) =~= seq![]);
                r
            },
        }
    }

    /// Every banned track of every artist, as the engine excludes by title.
    pub fn banned_tracks(&self) -> (r: Vec<String>)
        ensures
            strings(r@) == banned_everywhere(self@),
    {
        let ghost v = self@;
        let mut r: Vec<String> = Vec::new();
        assert(strings(r@) =~= seq![]);
        assert(v.take(0) =~= seq![]);
        let mut i: usize = 0;
        while i < self.artists.len()
            invariant
                i <= self.artists@.len(),
                v == self@,
                v == artists_view(self.artists@),
                strings(r@) == banned_everywhere(v.take(i as int)),
            decreases self.artists@.len() - i,
        {
            assert(v.take(i + 1).drop_last() =~= v.take(i as int));
            assert(v[i as int].1.2 == tops_view(self.artists@[i as int].1.tops@));
            banned_of(&self.artists[i].1.tops, &mut r);
            i = i + 1;
        }
        assert(v.take(i as int) =~= v);
        r
    }

    /// The banned artists, by slug.
    pub fn banned_artists(&self) -> (r: Vec<String>)
        ensures
            strings(r@) == banned_slugs(self@),
    {
        let ghost v = self@;
        let mut r: Vec<String> = Vec::new();
        assert(strings(r@) =~= seq![]);
        assert(v.take(0) =~= seq![]);
        let mut i: usize = 0;
        while i < self.artists.len()
            invariant
                i <= self.artists@.len(),
                v == self@,
                v == artists_view(self.artists@),
                strings(r@) == banned_slugs(v.take(i as int)),
            decreases self.artists@.len() - i,
        {
            assert(v.take(i + 1).drop_last() =~= v.take(i as int));
            if self.artists[i].1.blacklisted {
                let ghost before = r@;
                r.push(self.artists[i].0.clone());
                assert(strings(r@) =~= strings(before).push(self.artists@[i as int].0@));
            }
            i = i + 1;
        }
        assert(v.take(i as int) =~= v);
        r
    }

    /// The tracks this listener liked anywhere and did not ban, as
    /// (artist, title): a seed that is a track rather than an artist.
    pub fn liked_anywhere(&self) -> (r: Vec<(String, String)>)
        ensures
            pairs_view(r@) == liked_everywhere(self@),
    {
        let ghost v = self@;
        let mut r: Vec<(String, String)> = Vec::new();
        assert(pairs_view(r@) =~= seq![]);
        assert(v.take(0) =~= seq![]);
        let mut i: usize = 0;
        while i < self.artists.len()
            invariant
                i <= self.artists@.len(),
                v == self@,
                v == artists_view(self.artists@),
                pairs_view(r@) == liked_everywhere(v.take(i as int)),
            decreases self.artists@.len() - i,
        {
            assert(v.take(i + 1).drop_last() =~= v.take(i as int));
            assert(v[i as int].1.2 == tops_view(self.artists@[i as int].1.tops@));
            liked_here_of(&self.artists[i].0, &self.artists[i].1.tops, &mut r);
            i = i + 1;
        }
        assert(v.take(i as int) =~= v);
        r
    }
}

/// Each gesture reads back as what it says: a like forgives the skips, a
/// skip takes the like away and counts one more, an unlike takes the like
/// back and only that, a ban holds through them all; and the layer stays
/// kept as it is kept.
pub proof fn gestures_read_back(
    v: Seq<(Seq<char>, (bool, bool, Seq<(Seq<char>, Top)>))>,
    slug: Seq<char>,
    title: Seq<char>,
)
    requires
        kept(v),
    ensures
        kept(like_track_of(v, slug, title)),
        kept(skip_track_of(v, slug, title)),
        kept(unlike_track_of(v, slug, title)),
        kept(ban_track_of(v, slug, title)),
        kept(ban_artist_of(v, slug)),
        top_at(like_track_of(v, slug, title), slug, title)
            == (Top { liked: true, skipped: 0, blacklisted: top_at(v, slug, title).blacklisted }),
        top_at(v, slug, title).skipped < u32::MAX ==> top_at(skip_track_of(v, slug, title), slug, title)
            == (Top { liked: false, skipped: (top_at(v, slug, title).skipped + 1) as u32, blacklisted: top_at(v, slug, title).blacklisted }),
        top_at(unlike_track_of(v, slug, title), slug, title)
            == (Top { liked: false, skipped: top_at(v, slug, title).skipped, blacklisted: top_at(v, slug, title).blacklisted }),
        top_at(ban_track_of(v, slug, title), slug, title)
            == (Top { liked: top_at(v, slug, title).liked, skipped: top_at(v, slug, title).skipped, blacklisted: true }),
        artist_in(ban_artist_of(v, slug), slug).0,
{
    let t = top_at(v, slug, title);
    lemma_with_top(v, slug, title, Top { liked: true, skipped: 0, blacklisted: t.blacklisted });
    lemma_with_top(v, slug, title, Top { liked: false, skipped: (t.skipped + 1) as u32, blacklisted: t.blacklisted });
    lemma_with_top(v, slug, title, Top { liked: false, skipped: t.skipped, blacklisted: t.blacklisted });
    lemma_with_top(v, slug, title, Top { liked: t.liked, skipped: t.skipped, blacklisted: true });
    let a0 = artist_in(v, slug);
    lemma_put_artist(v, slug, (true, a0.1, a0.2));
    if has_slug(v, slug) {
        let k = slug_index(v, slug);
        assert(strictly_sorted(titles(v[k].1.2)));
    } else {
        assert(titles(a0.2) =~= seq![]);
        assert(!has_title(a0.2, title));
    }
    let w = ban_artist_of(v, slug);
    assert forall|i: int| #![trigger w[i]] 0 <= i < w.len() implies strictly_sorted(titles(w[i].1.2)) by {
        if w[i] != (slug, (true, a0.1, a0.2)) {
            assert(w[i] == v[i]);
        }
    }
    if !(has_slug(v, slug) && has_title(a0.2, title)) {
        assert(!has_title(a0.2, title));
        assert(t == untouched());
    }
}

/// The opposite gesture cancels the previous one: skips a like forgives,
/// a like a skip takes away.
pub proof fn the_opposite_gesture_cancels(
    v: Seq<(Seq<char>, (bool, bool, Seq<(Seq<char>, Top)>))>,
    slug: Seq<char>,
    title: Seq<char>,
)
    requires
        kept(v),
        top_at(v, slug, title).skipped < u32::MAX,
    ensures
        top_at(like_track_of(skip_track_of(v, slug, title), slug, title), slug, title).skipped == 0,
        top_at(like_track_of(skip_track_of(v, slug, title), slug, title), slug, title).liked,
        !top_at(skip_track_of(like_track_of(v, slug, title), slug, title), slug, title).liked,
{
    gestures_read_back(v, slug, title);
    gestures_read_back(skip_track_of(v, slug, title), slug, title);
    gestures_read_back(like_track_of(v, slug, title), slug, title);
}

/// A gesture on a track touches that track alone: every other track, and
/// every artist's own flags, read as before. A ban on an artist touches
/// that artist's flag alone.
pub proof fn a_gesture_touches_one_track(
    v: Seq<(Seq<char>, (bool, bool, Seq<(Seq<char>, Top)>))>,
    slug: Seq<char>,
    title: Seq<char>,
    s2: Seq<char>,
    t2: Seq<char>,
)
    requires
        kept(v),
    ensures
        (s2 != slug || t2 != title) ==> {
            &&& top_at(like_track_of(v, slug, title), s2, t2) == top_at(v, s2, t2)
            &&& top_at(skip_track_of(v, slug, title), s2, t2) == top_at(v, s2, t2)
            &&& top_at(unlike_track_of(v, slug, title), s2, t2) == top_at(v, s2, t2)
            &&& top_at(ban_track_of(v, slug, title), s2, t2) == top_at(v, s2, t2)
        },
        artist_in(like_track_of(v, slug, title), s2).0 == artist_in(v, s2).0,
        artist_in(skip_track_of(v, slug, title), s2).0 == artist_in(v, s2).0,
        artist_in(ban_track_of(v, slug, title), s2).0 == artist_in(v, s2).0,
        top_at(ban_artist_of(v, slug), s2, t2) == top_at(v, s2, t2),
        s2 != slug ==> artist_in(ban_artist_of(v, slug), s2) == artist_in(v, s2),
{
    let t = top_at(v, slug, title);
    lemma_with_top(v, slug, title, Top { liked: true, skipped: 0, blacklisted: t.blacklisted });
    lemma_with_top(v, slug, title, Top { liked: false, skipped: (t.skipped + 1) as u32, blacklisted: t.blacklisted });
    lemma_with_top(v, slug, title, Top { liked: false, skipped: t.skipped, blacklisted: t.blacklisted });
    lemma_with_top(v, slug, title, Top { liked: t.liked, skipped: t.skipped, blacklisted: true });
    let a0 = artist_in(v, slug);
    lemma_put_artist(v, slug, (true, a0.1, a0.2));
    if s2 == slug {
        assert(artist_in(ban_artist_of(v, slug), s2).2 == a0.2);
    }
}

proof fn lemma_liked_titles(ts: Seq<(Seq<char>, Top)>, x: Seq<char>)
    requires
        strictly_sorted(titles(ts)),
    ensures
        liked_titles(ts).contains(x) <==> (has_title(ts, x) && top_in(ts, x).liked),
    decreases ts.len(),
{
    if ts.len() > 0 {
        let init = ts.drop_last();
        let n = ts.len() - 1;
        assert(titles(init) =~= titles(ts).drop_last());
        assert forall|i: int, j: int| 0 <= i < j < titles(init).len() implies lex_lt(#[trigger] titles(init)[i], #[trigger] titles(init)[j]) by {
            assert(titles(init)[i] == titles(ts)[i] && titles(init)[j] == titles(ts)[j]);
        }
        lemma_liked_titles(init, x);
        let r = liked_titles(init);
        if ts[n].0 == x {
            lemma_title_at(ts, x, n);
            if has_title(init, x) {
                let k = choose|k: int| 0 <= k < init.len() && init[k].0 == x;
                assert(titles(ts)[k] == x && titles(ts)[n] == x);
                lemma_sorted_distinct(titles(ts), k, n);
            }
            if ts[n].1.liked {
                assert(liked_titles(ts) == r.push(x));
                assert(liked_titles(ts)[r.len() as int] == x);
            } else {
                assert(liked_titles(ts) == r);
            }
        } else {
            if ts[n].1.liked {
                assert(liked_titles(ts) == r.push(ts[n].0));
                assert(liked_titles(ts).contains(x) ==> r.contains(x)) by {
                    if liked_titles(ts).contains(x) {
                        let k = choose|k: int| 0 <= k < liked_titles(ts).len() && liked_titles(ts)[k] == x;
                        assert(k < r.len());
                        assert(r[k] == x);
                    }
                }
                assert(r.contains(x) ==> liked_titles(ts).contains(x)) by {
                    if r.contains(x) {
                        let k = choose|k: int| 0 <= k < r.len() && r[k] == x;
                        assert(liked_titles(ts)[k] == x);
                    }
                }
            }
            if has_title(init, x) {
                let k = choose|k: int| 0 <= k < init.len() && init[k].0 == x;
                lemma_title_at(init, x, k);
                lemma_title_at(ts, x, k);
            }
            if has_title(ts, x) {
                let k = choose|k: int| 0 <= k < ts.len() && ts[k].0 == x;
                assert(k != n);
                assert(init[k].0 == x);
            }
        }
    }
}

/// A track is liked exactly when it is among its artist's liked tracks.
pub proof fn liked_tracks_are_the_liked_ones(
    v: Seq<(Seq<char>, (bool, bool, Seq<(Seq<char>, Top)>))>,
    slug: Seq<char>,
    title: Seq<char>,
)
    requires
        kept(v),
    ensures
        liked_titles(artist_in(v, slug).2).contains(title) <==> top_at(v, slug, title).liked,
{
    let a = artist_in(v, slug);
    if has_slug(v, slug) {
        let k = slug_index(v, slug);
        assert(strictly_sorted(titles(v[k].1.2)));
    } else {
        assert(titles(a.2) =~= seq![]);
    }
    lemma_liked_titles(a.2, title);
}

// ---------------------------------------------------------------------------
// Merging what two machines' gestures said of one artist.

impl Default for Artist {
    fn default() -> (a: Self)
        ensures
            !a.blacklisted,
            !a.unliked,
            a.tops@.len() == 0,
    {
        Artist { blacklisted: false, unliked: false, tops: Vec::new() }
    }
}

/// One track, merged: a flag set on either side since the base holds, and
/// what each side skipped since the base adds up.
pub open spec fn merged_top(b: Top, a: Top, t: Top) -> Top {
    Top {
        liked: merged_flag(b.liked, a.liked, t.liked),
        skipped: if a.skipped + t.skipped >= b.skipped { (a.skipped + t.skipped - b.skipped) as u32 } else { 0 },
        blacklisted: merged_flag(b.blacklisted, a.blacklisted, t.blacklisted),
    }
}

/// What a side says of a title: its own entry, or the base's when it
/// never saw that title.
pub open spec fn side_top(base: Seq<(Seq<char>, Top)>, side: Seq<(Seq<char>, Top)>, title: Seq<char>) -> Top {
    if has_title(side, title) { top_in(side, title) } else { top_in(base, title) }
}

/// The sums a merge takes fit in a count.
pub open spec fn merge_fits(base: Seq<(Seq<char>, Top)>, ours: Seq<(Seq<char>, Top)>, theirs: Seq<(Seq<char>, Top)>) -> bool {
    forall|x: Seq<char>| #[trigger] side_top(base, ours, x).skipped + side_top(base, theirs, x).skipped <= u32::MAX
}

fn top_lookup(ts: &Vec<(String, Top)>, title: &str) -> (r: Option<Top>)
    requires
        strictly_sorted(titles(tops_view(ts@))),
    ensures
        r == (if has_title(tops_view(ts@), title@) { Some(top_in(tops_view(ts@), title@)) } else { None }),
{
    let ghost tv = tops_view(ts@);
    let j = find_top(ts, title);
    if j < ts.len() && same_str(ts[j].0.as_str(), title) {
        proof { lemma_title_at(tv, title@, j as int); }
        Some(ts[j].1)
    } else {
        proof {
            if j < ts.len() {
                assert(titles(tv)[j as int] == ts@[j as int].0@);
            }
            lemma_not_found(titles(tv), title@);
            lemma_titles_have(tv, title@);
        }
        None
    }
}

fn titles_into(ts: &Vec<(String, Top)>, keys: &mut Vec<String>)
    requires
        strictly_sorted(strings(old(keys)@)),
    ensures
        strictly_sorted(strings(final(keys)@)),
        forall|x: Seq<char>| #[trigger] strings(final(keys)@).contains(x)
            <==> (strings(old(keys)@).contains(x) || has_title(tops_view(ts@), x)),
{
    let ghost tv = tops_view(ts@);
    let ghost start = strings(keys@);
    let mut k: usize = 0;
    while k < ts.len()
        invariant
            k <= ts@.len(),
            tv == tops_view(ts@),
            strictly_sorted(strings(keys@)),
            forall|x: Seq<char>| #[trigger] strings(keys@).contains(x)
                <==> (start.contains(x) || has_title(tv.take(k as int), x)),
        decreases ts@.len() - k,
    {
        let ghost before = strings(keys@);
        let name = ts[k].0.clone();
        assert(name@ == ts@[k as int].0@);
        crate::fork::set_insert_exec(keys, name);
        proof {
            set_insert_keeps_sorted(before, ts@[k as int].0@);
            assert forall|x: Seq<char>| #[trigger] strings(keys@).contains(x)
                <==> (start.contains(x) || has_title(tv.take(k + 1), x)) by {
                let next = tv.take(k + 1);
                let prev = tv.take(k as int);
                assert(strings(keys@).contains(x) <==> (before.contains(x) || x == ts@[k as int].0@));
                assert(before.contains(x) <==> (start.contains(x) || has_title(prev, x)));
                if has_title(next, x) && x != ts@[k as int].0@ {
                    let c = choose|c: int| 0 <= c < next.len() && next[c].0 == x;
                    assert(prev[c].0 == x);
                }
                if has_title(prev, x) {
                    let c = choose|c: int| 0 <= c < prev.len() && prev[c].0 == x;
                    assert(next[c].0 == x);
                }
                if x == ts@[k as int].0@ {
                    assert(next[k as int].0 == x);
                }
            }
        }
        k = k + 1;
    }
    assert(tv.take(k as int) =~= tv);
}

/// What two machines' gestures said of one artist since their common
/// ancestor, merged: a ban or an unlike set on either side holds, a
/// track's flags merge the same way, the skips each side counted since
/// the base add up, and a track one side never saw comes in as the other
/// has it. Tracks come out sorted by title, each once.
pub fn merge_taste(base: &Artist, ours: &Artist, theirs: &Artist) -> (r: Artist)
    requires
        strictly_sorted(titles(base@.2)),
        strictly_sorted(titles(ours@.2)),
        strictly_sorted(titles(theirs@.2)),
        merge_fits(base@.2, ours@.2, theirs@.2),
    ensures
        r.blacklisted == merged_flag(base.blacklisted, ours.blacklisted, theirs.blacklisted),
        r.unliked == merged_flag(base.unliked, ours.unliked, theirs.unliked),
        strictly_sorted(titles(r@.2)),
        forall|x: Seq<char>| #[trigger] has_title(r@.2, x)
            <==> (has_title(base@.2, x) || has_title(ours@.2, x) || has_title(theirs@.2, x)),
        forall|x: Seq<char>| has_title(r@.2, x) ==> #[trigger] top_in(r@.2, x)
            == merged_top(top_in(base@.2, x), side_top(base@.2, ours@.2, x), side_top(base@.2, theirs@.2, x)),
{
    let mut keys: Vec<String> = Vec::new();
    assert(strings(keys@) =~= seq![]);
    titles_into(&base.tops, &mut keys);
    titles_into(&ours.tops, &mut keys);
    titles_into(&theirs.tops, &mut keys);
    let ghost ks = strings(keys@);
    let ghost bv = base@.2;
    let ghost ov = ours@.2;
    let ghost tv = theirs@.2;
    let mut tops: Vec<(String, Top)> = Vec::new();
    let mut i: usize = 0;
    while i < keys.len()
        invariant
            i <= keys@.len(),
            ks == strings(keys@),
            strictly_sorted(ks),
            bv == tops_view(base.tops@),
            ov == tops_view(ours.tops@),
            tv == tops_view(theirs.tops@),
            strictly_sorted(titles(bv)),
            strictly_sorted(titles(ov)),
            strictly_sorted(titles(tv)),
            merge_fits(bv, ov, tv),
            tops@.len() == i,
            titles(tops_view(tops@)) == ks.take(i as int),
            forall|c: int| 0 <= c < i ==> #[trigger] tops_view(tops@)[c].1
                == merged_top(top_in(bv, ks[c]), side_top(bv, ov, ks[c]), side_top(bv, tv, ks[c])),
        decreases keys@.len() - i,
    {
        let key = keys[i].as_str();
        let bt = match top_lookup(&base.tops, key) {
            Some(t) => t,
            None => Top { liked: false, skipped: 0, blacklisted: false },
        };
        let at = match top_lookup(&ours.tops, key) {
            Some(t) => t,
            None => bt,
        };
        let tt = match top_lookup(&theirs.tops, key) {
            Some(t) => t,
            None => bt,
        };
        assert(at == side_top(bv, ov, ks[i as int]));
        assert(tt == side_top(bv, tv, ks[i as int]));
        assert(at.skipped + tt.skipped <= u32::MAX);
        let sum: u32 = at.skipped + tt.skipped;
        let merged = Top {
            liked: merge_flag(bt.liked, at.liked, tt.liked),
            skipped: if sum >= bt.skipped { sum - bt.skipped } else { 0 },
            blacklisted: merge_flag(bt.blacklisted, at.blacklisted, tt.blacklisted),
        };
        let ghost before = tops@;
        let name = keys[i].clone();
        assert(name@ == ks[i as int]);
        tops.push((name, merged));
        assert(tops_view(tops@) =~= tops_view(before).push((ks[i as int], merged)));
        assert(titles(tops_view(tops@)) =~= titles(tops_view(before)).push(ks[i as int]));
        assert(ks.take(i + 1) =~= ks.take(i as int).push(ks[i as int]));
        i = i + 1;
    }
    assert(ks.take(i as int) =~= ks);
    let r = Artist {
        blacklisted: merge_flag(base.blacklisted, ours.blacklisted, theirs.blacklisted),
        unliked: merge_flag(base.unliked, ours.unliked, theirs.unliked),
        tops,
    };
    proof {
        let rv = r@.2;
        assert(titles(rv) == ks);
        assert forall|x: Seq<char>| #[trigger] has_title(rv, x)
            <==> (has_title(bv, x) || has_title(ov, x) || has_title(tv, x)) by {
            lemma_titles_have(rv, x);
        }
        assert forall|x: Seq<char>| has_title(rv, x) implies #[trigger] top_in(rv, x)
            == merged_top(top_in(bv, x), side_top(bv, ov, x), side_top(bv, tv, x)) by {
            let c = choose|c: int| 0 <= c < rv.len() && rv[c].0 == x;
            lemma_title_at(rv, x, c);
            assert(ks[c] == x);
        }
    }
    r
}

/// Merging does not depend on which machine is which; a side that did not
/// move yields to the other; a track new on one side comes in as it is;
/// a ban set on either side holds.
pub proof fn merged_top_laws(b: Top, a: Top, t: Top)
    ensures
        merged_top(b, a, t) == merged_top(b, t, a),
        merged_top(b, b, t) == t,
        merged_top(untouched(), a, untouched()) == a,
        (a.blacklisted || t.blacklisted) && !b.blacklisted ==> merged_top(b, a, t).blacklisted,
{
}


/// A year of the Gregorian calendar with a 29th of February.
pub open spec fn leap(y: int) -> bool {
    y % 4 == 0 && (y % 100 != 0 || y % 400 == 0)
}

/// The days in month `m` of year `y`.
pub open spec fn month_length(y: int, m: int) -> int {
    if m == 2 {
        if leap(y) { 29 } else { 28 }
    } else if m == 4 || m == 6 || m == 9 || m == 11 {
        30
    } else {
        31
    }
}

proof fn lemma_year_back(c: int, k: int, r: int, doy: int)
    requires
        0 <= c <= 3,
        0 <= k <= 24,
        0 <= r <= 3,
        0 <= doy,
        doy <= 364 + (if r == 3 && (k != 24 || c == 3) { 1int } else { 0 }),
    ensures
        ({
            let doe = 36524 * c + 1461 * k + 365 * r + doy;
            (doe - doe / 1460 + doe / 36524 - doe / 146096) / 365 == 100 * c + 4 * k + r
        }),
{
    let doe = 36524 * c + 1461 * k + 365 * r + doy;
    assert(doe / 146096 == if c == 3 && k == 24 && r == 3 && doy == 365 { 1int } else { 0 });
    assert(doe / 36524 == c + (if c == 3 && k == 24 && r == 3 && doy == 365 { 1int } else { 0 }));
    assert(doe / 1460 == 25 * c + k + (24 * c + k + 365 * r + doy) / 1460);
}


proof fn lemma_month_back(mp: int, d: int)
    requires
        0 <= mp <= 11,
        1 <= d,
        d <= (if mp == 11 { 29int } else if mp == 1 || mp == 3 || mp == 6 || mp == 8 { 30 } else { 31 }),
    ensures
        ({
            let doy = (153 * mp + 2) / 5 + d - 1;
            (5 * doy + 2) / 153 == mp && doy - (153 * mp + 2) / 5 + 1 == d && 0 <= doy <= 365
        }),
{
}

/// The day a real calendar date counts to is written back as that date.
proof fn lemma_civil_of_days(y: int, m: int, d: int)
    requires
        1 <= m <= 12,
        1 <= d <= month_length(y, m),
    ensures
        civil_of(days_of(y, m, d)) == (y, m, d),
{
    let y1 = if m <= 2 { y - 1 } else { y };
    let era = y1 / 400;
    let yoe = y1 - era * 400;
    let mp = if m > 2 { m - 3 } else { m + 9 };
    lemma_month_back(mp, d);
    let doy = (153 * mp + 2) / 5 + d - 1;
    let c = yoe / 100;
    let k = (yoe % 100) / 4;
    let r = yoe % 4;
    assert(0 <= yoe <= 399);
    assert(yoe == 100 * c + 4 * k + r);
    assert(yoe / 4 == 25 * c + k);
    let doe = yoe * 365 + yoe / 4 - yoe / 100 + doy;
    assert(doe == 36524 * c + 1461 * k + 365 * r + doy);
    assert(doy <= 364 + (if r == 3 && (k != 24 || c == 3) { 1int } else { 0 })) by {
        if mp == 11 {
            assert(y == y1 + 1);
            assert(y == era * 400 + yoe + 1);
            assert(y % 4 == (yoe + 1) % 4);
            assert(y % 100 == (yoe + 1) % 100);
            assert(y % 400 == (yoe + 1) % 400);
        }
    }
    lemma_year_back(c, k, r, doy);
    assert(0 <= doe <= 146096);
    let days = era * 146097 + doe - 719468;
    assert(days == days_of(y, m, d));
    let z = days + 719468;
    assert(z / 146097 == era && z - era * 146097 == doe) by (nonlinear_arith)
        requires
            z == era * 146097 + doe,
            0 <= doe <= 146096,
    ;
}

/// A real calendar date, written `YYYY-MM-DD` for a year from 0 to 9999,
/// reads as a day that `iso` writes back as the same text.
pub proof fn real_dates_round_trip(y: int, m: int, d: int)
    requires
        0 <= y <= 9999,
        1 <= m <= 12,
        1 <= d <= month_length(y, m),
    ensures
        ({
            let text = year_text(y) + seq!['-'] + zero_padded(decimal(m as nat), 2) + seq!['-']
                + zero_padded(decimal(d as nat), 2);
            &&& from_iso_fits(text)
            &&& from_iso_of(text) == Some(days_of(y, m, d))
            &&& iso_of(days_of(y, m, d)) == text
        }),
{
    lemma_civil_of_days(y, m, d);
    let days = days_of(y, m, d);
    assert(days + 719468 <= i64::MAX) by {
        let y1 = if m <= 2 { y - 1 } else { y };
        let mp = if m > 2 { m - 3 } else { m + 9 };
        assert(y1 / 400 <= 25);
        assert((153 * mp + 2) / 5 <= 337);
    }
    iso_round_trip(days);
}


proof fn lemma_year_from_zero(days: int)
    requires
        days >= -719528,
    ensures
        civil_of(days).0 >= 0,
{
    let z = days + 719468;
    if z >= 0 {
        lemma_era_split(z);
        let era = z / 146097;
        let doe = z - era * 146097;
        lemma_year_of_era(doe);
    } else {
        assert(z / 146097 == -1);
        let doe = z + 146097;
        assert(doe >= 146037);
        let yoe = (doe - doe / 1460 + doe / 36524 - doe / 146096) / 365;
        assert(yoe == 399);
        let doy = doe - (365 * yoe + yoe / 4 - yoe / 100);
        assert(doy >= 306);
        let mp = (5 * doy + 2) / 153;
        assert(mp >= 10);
    }
}

/// Every day from 0000-01-01 (day -719 528) to 9999-12-31 (day 2 932 896)
/// is written by `iso` and read back by `from_iso` as the same day.
pub proof fn days_in_range_round_trip(days: int)
    requires
        -719528 <= days <= 2932896,
    ensures
        from_iso_fits(iso_of(days)),
        from_iso_of(iso_of(days)) == Some(days),
{
    lemma_year_from_zero(days);
    iso_round_trip(days);
}

} // verus!
