//! The engine's bookkeeping that is not a weight: which tags are genres,
//! which two cards share, and where the playlist's last segment starts. The
//! draw itself, weighted by decaying floats, is the caller's.

use vstd::prelude::*;
use crate::text::{chars_of, same, is_ascii_digit, is_ascii_lower, is_ascii_upper};
use crate::edit::strings;
use crate::catalog::Card;

verus! {

/// The comfort dial, from 0 (exploration) to 5 (cocoon): comfort is
/// familiarity.
#[derive(Clone, Copy, PartialEq, Eq, Structural, Debug)]
pub struct Comfort(u8);

impl View for Comfort {
    type V = u8;

    closed spec fn view(&self) -> u8 {
        self.0
    }
}

impl Comfort {
    /// The dial set to `value`, five at most.
    pub fn new(value: u8) -> (c: Comfort)
        ensures
            c@ == (if value <= 5 { value } else { 5u8 }),
    {
        Comfort(if value <= 5 { value } else { 5 })
    }

    pub fn value(self) -> (r: u8)
        ensures
            r == self@,
    {
        self.0
    }
}


/// A decade tag: digits, then an `s` ("80s", "2010s").
pub open spec fn is_decade_tag(t: Seq<char>) -> bool {
    t.len() > 0 && t.last() == 's' && forall|i: int| 0 <= i < t.len() - 1 ==> is_ascii_digit(#[trigger] t[i])
}

/// A country tag: two ASCII letters.
pub open spec fn is_country_tag(t: Seq<char>) -> bool {
    t.len() == 2 && (is_ascii_lower(t[0]) || is_ascii_upper(t[0])) && (is_ascii_lower(t[1]) || is_ascii_upper(t[1]))
}

/// The genre tags among `tags`: countries and decades are context, not
/// kinship — they must not justify a bridge alone.
pub open spec fn genres_of(tags: Seq<Seq<char>>) -> Seq<Seq<char>>
    decreases tags.len(),
{
    if tags.len() == 0 {
        seq![]
    } else {
        let t = tags.last();
        let before = genres_of(tags.drop_last());
        if !is_decade_tag(t) && !is_country_tag(t) { before.push(t) } else { before }
    }
}

fn is_decade_exec(t: &Vec<char>) -> (r: bool)
    ensures
        r == is_decade_tag(t@),
{
    if t.len() == 0 || t[t.len() - 1] != 's' {
        return false;
    }
    let mut i: usize = 0;
    while i < t.len() - 1
        invariant
            0 < t@.len(),
            i <= t@.len() - 1,
            forall|j: int| 0 <= j < i ==> is_ascii_digit(#[trigger] t@[j]),
        decreases t@.len() - 1 - i,
    {
        if !('0' <= t[i] && t[i] <= '9') {
            assert(!is_ascii_digit(t@[i as int]));
            return false;
        }
        i = i + 1;
    }
    true
}

fn ascii_letter(c: char) -> (r: bool)
    ensures
        r == (is_ascii_lower(c) || is_ascii_upper(c)),
{
    ('a' <= c && c <= 'z') || ('A' <= c && c <= 'Z')
}

/// Genre tags only: countries (two letters) and decades ("80s", "2010s")
/// are context, not kinship.
pub fn genre_tags(card: &Card) -> (r: Vec<String>)
    ensures
        strings(r@) == genres_of(strings(card.tags@)),
{
    let mut out: Vec<String> = Vec::new();
    let mut i: usize = 0;
    assert(strings(out@) =~= seq![]);
    while i < card.tags.len()
        invariant
            i <= card.tags@.len(),
            strings(out@) == genres_of(strings(card.tags@).take(i as int)),
        decreases card.tags@.len() - i,
    {
        proof {
            assert(strings(card.tags@).take(i + 1).drop_last() =~= strings(card.tags@).take(i as int));
            assert(strings(card.tags@).take(i + 1).last() == card.tags@[i as int]@);
        }
        let t = chars_of(card.tags[i].as_str());
        let country = t.len() == 2 && ascii_letter(t[0]) && ascii_letter(t[1]);
        if !is_decade_exec(&t) && !country {
            let ghost before = out@;
            out.push(card.tags[i].clone());
            assert(strings(out@) =~= strings(before).push(t@));
        }
        i = i + 1;
    }
    assert(strings(card.tags@).take(i as int) =~= strings(card.tags@));
    out
}

/// The tags of `a` that `b` carries too, in `a`'s order.
pub open spec fn shared_of(a: Seq<Seq<char>>, b: Seq<Seq<char>>) -> Seq<Seq<char>>
    decreases a.len(),
{
    if a.len() == 0 {
        seq![]
    } else {
        let before = shared_of(a.drop_last(), b);
        if b.contains(a.last()) { before.push(a.last()) } else { before }
    }
}

fn carries(v: &Vec<String>, x: &Vec<char>) -> (r: bool)
    ensures
        r == strings(v@).contains(x@),
{
    let mut i: usize = 0;
    while i < v.len()
        invariant
            i <= v@.len(),
            forall|k: int| 0 <= k < i ==> strings(v@)[k] != x@,
        decreases v@.len() - i,
    {
        if same(&chars_of(v[i].as_str()), x) {
            assert(strings(v@)[i as int] == x@);
            return true;
        }
        i = i + 1;
    }
    false
}

/// The tags two cards share.
pub fn shared_tags(a: &Card, b: &Card) -> (r: Vec<String>)
    ensures
        strings(r@) == shared_of(strings(a.tags@), strings(b.tags@)),
{
    let mut out: Vec<String> = Vec::new();
    let mut i: usize = 0;
    assert(strings(out@) =~= seq![]);
    while i < a.tags.len()
        invariant
            i <= a.tags@.len(),
            strings(out@) == shared_of(strings(a.tags@).take(i as int), strings(b.tags@)),
        decreases a.tags@.len() - i,
    {
        proof {
            assert(strings(a.tags@).take(i + 1).drop_last() =~= strings(a.tags@).take(i as int));
            assert(strings(a.tags@).take(i + 1).last() == a.tags@[i as int]@);
        }
        let t = chars_of(a.tags[i].as_str());
        if carries(&b.tags, &t) {
            let ghost before = out@;
            out.push(a.tags[i].clone());
            assert(strings(out@) =~= strings(before).push(t@));
        }
        i = i + 1;
    }
    assert(strings(a.tags@).take(i as int) =~= strings(a.tags@));
    out
}

/// The artists of the playlist's last segment: from the last stop that
/// opens one (a branch's head) to the end, each once, those with a card
/// only — the whole playlist when nothing opens a segment.
pub open spec fn segment_acc(axis: Seq<(Seq<char>, bool)>, known: Seq<bool>) -> Seq<Seq<char>>
    decreases axis.len(),
{
    if axis.len() == 0 {
        seq![]
    } else {
        let i = axis.len() - 1;
        let before = if axis[i].1 { seq![] } else { segment_acc(axis.drop_last(), known) };
        if known[i] && !before.contains(axis[i].0) { before.push(axis[i].0) } else { before }
    }
}

pub open spec fn axis_view(axis: Seq<(String, bool)>) -> Seq<(Seq<char>, bool)> {
    axis.map_values(|s: (String, bool)| (s.0@, s.1))
}

/// `axis` holds each stop's slug and whether it opens a segment; `known[i]`
/// says whether the `i`-th stop's artist has a card.
pub fn segment_of(axis: &Vec<(String, bool)>, known: &Vec<bool>) -> (r: Vec<String>)
    requires
        known@.len() == axis@.len(),
    ensures
        strings(r@) == segment_acc(axis_view(axis@), known@),
{
    let mut segment: Vec<String> = Vec::new();
    let mut i: usize = 0;
    assert(strings(segment@) =~= seq![]);
    while i < axis.len()
        invariant
            i <= axis@.len(),
            known@.len() == axis@.len(),
            strings(segment@) == segment_acc(axis_view(axis@).take(i as int), known@),
        decreases axis@.len() - i,
    {
        proof {
            assert(axis_view(axis@).take(i + 1).drop_last() =~= axis_view(axis@).take(i as int));
            assert(axis_view(axis@).take(i + 1)[i as int] == (axis@[i as int].0@, axis@[i as int].1));
        }
        if axis[i].1 {
            segment = Vec::new();
            assert(strings(segment@) =~= seq![]);
        }
        let slug = chars_of(axis[i].0.as_str());
        if known[i] && !carries(&segment, &slug) {
            let ghost before = segment@;
            segment.push(axis[i].0.clone());
            assert(strings(segment@) =~= strings(before).push(slug@));
        }
        i = i + 1;
    }
    assert(axis_view(axis@).take(i as int) =~= axis_view(axis@));
    segment
}

} // verus!
