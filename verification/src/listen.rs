//! What the listening session says and decides between two keys: the
//! comfort dial in words, the names a title credits, the proposal cut short
//! for its confirmation, the block laid over the screen, and the closeness
//! of a connection being drawn. The session itself — sound, screen, the
//! engine's draw — is the caller's.

use vstd::prelude::*;
use crate::text::{chars_of, string_of, slice, push_all, push_str, lines, lines_of, views, trim, trim_exec,
    find, find_in, lemma_find_from, occurs_at, lowercase, to_lowercase, decimal, decimal_of};
use crate::edit::{byte_offset, strings};
use crate::generate::{char_at_byte, same_boundary, lemma_ascii_cut};
use crate::text::{is_ascii_text, ascii_lowered};
use crate::keys::Cmd;
use crate::text::{same_str, same, join, join_of, strip_all, strip_all_exec, usize_of, parse_usize};
use crate::fork::{tokens, words_of};

verus! {

pub open spec fn comfort_word_of(value: u8) -> Seq<char> {
    if value == 5 {
        "cocoon"@
    } else if value == 4 {
        "careful"@
    } else if value == 3 {
        "balanced"@
    } else if value == 2 {
        "curious"@
    } else if value == 1 {
        "adventurous"@
    } else {
        "exploration"@
    }
}

/// What a comfort value means, so the number is never alone on screen.
pub fn comfort_word(value: u8) -> (r: &'static str)
    ensures
        r@ == comfort_word_of(value),
{
    match value {
        5 => "cocoon",
        4 => "careful",
        3 => "balanced",
        2 => "curious",
        1 => "adventurous",
        _ => "exploration",
    }
}

// ---------------------------------------------------------------------------
// The names a title credits.

/// The markers of a credit, in the order they are tried.
pub open spec fn credit_tag(i: int) -> Seq<char> {
    if i == 0 {
        " feat."@
    } else if i == 1 {
        " feat "@
    } else if i == 2 {
        " ft."@
    } else if i == 3 {
        " ft "@
    } else if i == 4 {
        " featuring "@
    } else {
        " with "@
    }
}

/// How many characters of `s`, from its start, are among `a` and `b`.
pub open spec fn lead_of(s: Seq<char>, a: char, b: char) -> nat
    decreases s.len(),
{
    if s.len() > 0 && (s[0] == a || s[0] == b) { 1 + lead_of(s.drop_first(), a, b) } else { 0 }
}

pub open spec fn trail_of(s: Seq<char>, a: char, b: char) -> nat
    decreases s.len(),
{
    if s.len() > 0 && (s.last() == a || s.last() == b) { 1 + trail_of(s.drop_last(), a, b) } else { 0 }
}

/// The credited names: trimmed, their opening and closing brackets gone,
/// trimmed again.
pub open spec fn credited(rest: Seq<char>) -> Seq<char> {
    let t = trim(rest);
    let u = t.skip(lead_of(t, '(', '[') as int);
    let v = u.take(u.len() - trail_of(u, ')', ']'));
    trim(v)
}

/// The names credited after the `i`-th marker and the ones after it, in
/// the title, its lower-cased spelling telling where the marker is.
pub open spec fn credit_from(title: Seq<char>, lower: Seq<char>, i: int) -> Option<Seq<char>>
    decreases 6 - i,
{
    if i < 0 || i >= 6 {
        None
    } else {
        match find(lower, credit_tag(i)) {
            Some(p) => match char_at_byte(title, byte_offset(lower, p + credit_tag(i).len()) as int) {
                Some(m) => if credited(title.skip(m)).len() > 0 {
                    Some(credited(title.skip(m)))
                } else {
                    credit_from(title, lower, i + 1)
                },
                None => None,
            },
            None => credit_from(title, lower, i + 1),
        }
    }
}

/// Every cut the search reaches falls where a character of the title
/// starts.
pub open spec fn credit_fits(title: Seq<char>, lower: Seq<char>, i: int) -> bool
    decreases 6 - i,
{
    if i < 0 || i >= 6 {
        true
    } else {
        match find(lower, credit_tag(i)) {
            Some(p) => match char_at_byte(title, byte_offset(lower, p + credit_tag(i).len()) as int) {
                Some(m) => credited(title.skip(m)).len() > 0 || credit_fits(title, lower, i + 1),
                None => false,
            },
            None => credit_fits(title, lower, i + 1),
        }
    }
}

proof fn lemma_lead_of(s: Seq<char>, a: char, b: char, i: int)
    requires
        0 <= i <= s.len(),
        forall|j: int| 0 <= j < i ==> s[j] == a || s[j] == b,
        i < s.len() ==> !(s[i] == a || s[i] == b),
    ensures
        lead_of(s, a, b) == i,
    decreases s.len(),
{
    if i > 0 {
        lemma_lead_of(s.drop_first(), a, b, i - 1);
    }
}

proof fn lemma_trail_of(s: Seq<char>, a: char, b: char, n: int)
    requires
        0 <= n <= s.len(),
        forall|j: int| n <= j < s.len() ==> s[j] == a || s[j] == b,
        n > 0 ==> !(s[n - 1] == a || s[n - 1] == b),
    ensures
        trail_of(s, a, b) == s.len() - n,
    decreases s.len(),
{
    if s.len() > n {
        lemma_trail_of(s.drop_last(), a, b, n);
    }
}

fn credited_exec(rest: &Vec<char>) -> (r: Vec<char>)
    ensures
        r@ == credited(rest@),
{
    let t = trim_exec(rest);
    let mut i: usize = 0;
    while i < t.len() && (t[i] == '(' || t[i] == '[')
        invariant
            i <= t@.len(),
            forall|j: int| 0 <= j < i ==> t@[j] == '(' || t@[j] == '[',
        decreases t@.len() - i,
    {
        i = i + 1;
    }
    proof { lemma_lead_of(t@, '(', '[', i as int); }
    let u = slice(&t, i, t.len());
    assert(u@ =~= t@.skip(i as int));
    let mut n: usize = u.len();
    while n > 0 && (u[n - 1] == ')' || u[n - 1] == ']')
        invariant
            n <= u@.len(),
            forall|j: int| n <= j < u@.len() ==> u@[j] == ')' || u@[j] == ']',
        decreases n,
    {
        n = n - 1;
    }
    proof { lemma_trail_of(u@, ')', ']', n as int); }
    let v = slice(&u, 0, n);
    trim_exec(&v)
}

/// The credited names of a title, its lower-cased spelling given: `None`
/// inside when there are none, `None` outside when a cut would not fall
/// where a character of the title starts.
pub fn credit_in(title: &str, lower: &str) -> (r: Option<Option<String>>)
    ensures
        r is Some == credit_fits(title@, lower@, 0),
        r matches Some(c) ==> opt_view(c) == credit_from(title@, lower@, 0),
{
    let t = chars_of(title);
    let l = chars_of(lower);
    let mut i: usize = 0;
    while i < 6
        invariant
            i <= 6,
            t@ == title@,
            l@ == lower@,
            credit_from(t@, l@, 0) == credit_from(t@, l@, i as int),
            credit_fits(t@, l@, 0) == credit_fits(t@, l@, i as int),
        decreases 6 - i,
    {
        let tag = chars_of(if i == 0 {
            " feat."
        } else if i == 1 {
            " feat "
        } else if i == 2 {
            " ft."
        } else if i == 3 {
            " ft "
        } else if i == 4 {
            " featuring "
        } else {
            " with "
        });
        assert(tag@ == credit_tag(i as int));
        let llen = l.len();
        match find_in(&l, &tag, 0) {
            Some(p) => {
                assert(p + tag@.len() <= l@.len()) by {
                    lemma_find_from(l@, tag@, 0);
                    assert(occurs_at(l@, tag@, p as int));
                }
                match same_boundary(&t, &l, p + tag.len()) {
                    Some(m) => {
                        proof {
                            let b = byte_offset(l@, p + tag@.len()) as int;
                            assert(exists|k: int| 0 <= k <= t@.len() && byte_offset(t@, k) == b);
                        }
                        let rest = slice(&t, m, t.len());
                        assert(rest@ =~= t@.skip(m as int));
                        let c = credited_exec(&rest);
                        if c.len() > 0 {
                            return Some(Some(string_of(&c)));
                        }
                    },
                    None => {
                        return None;
                    },
                }
            },
            None => {},
        }
        i = i + 1;
    }
    Some(None)
}

pub open spec fn opt_view(o: Option<String>) -> Option<Seq<char>> {
    match o { Some(s) => Some(s@), None => None }
}

/// The names credited in an ASCII title after the `i`-th marker and the
/// ones after it, the markers found in its ASCII lowering.
pub open spec fn ascii_credit_from(title: Seq<char>, i: int) -> Option<Seq<char>>
    decreases 6 - i,
{
    if i < 0 || i >= 6 {
        None
    } else {
        match find(ascii_lowered(title), credit_tag(i)) {
            Some(p) => if credited(title.skip(p + credit_tag(i).len())).len() > 0 {
                Some(credited(title.skip(p + credit_tag(i).len())))
            } else {
                ascii_credit_from(title, i + 1)
            },
            None => ascii_credit_from(title, i + 1),
        }
    }
}

proof fn lemma_ascii_credit(title: Seq<char>, i: int)
    requires
        is_ascii_text(title),
    ensures
        credit_fits(title, ascii_lowered(title), i),
        credit_from(title, ascii_lowered(title), i) == ascii_credit_from(title, i),
    decreases 6 - i,
{
    if 0 <= i < 6 {
        lemma_ascii_credit(title, i + 1);
        let lower = ascii_lowered(title);
        lemma_find_from(lower, credit_tag(i), 0);
        if let Some(p) = find(lower, credit_tag(i)) {
            assert(occurs_at(lower, credit_tag(i), p));
            lemma_ascii_cut(title, p + credit_tag(i).len());
        }
    }
}

/// Names credited in a track title — "(feat. X)", "ft. X", "with X" — so
/// they show without a network call.
pub fn featuring(title: &str) -> (r: Option<String>)
    requires
        credit_fits(title@, lowercase(title@), 0),
    ensures
        opt_view(r) == credit_from(title@, lowercase(title@), 0),
        is_ascii_text(title@) ==> opt_view(r) == ascii_credit_from(title@, 0),
{
    let lower = to_lowercase(title);
    proof {
        if is_ascii_text(title@) {
            lemma_ascii_credit(title@, 0);
        }
    }
    match credit_in(title, lower.as_str()) {
        Some(c) => c,
        None => None,
    }
}

/// `featuring` for any title: `None` when its lower-cased spelling puts a
/// cut where the title itself cannot be sliced.
pub fn try_featuring(title: &str) -> (r: Option<Option<String>>)
    ensures
        r is Some == credit_fits(title@, lowercase(title@), 0),
        r matches Some(c) ==> opt_view(c) == credit_from(title@, lowercase(title@), 0),
        is_ascii_text(title@) ==> (r matches Some(c) && opt_view(c) == ascii_credit_from(title@, 0)),
{
    let lower = to_lowercase(title);
    proof {
        if is_ascii_text(title@) {
            lemma_ascii_credit(title@, 0);
        }
    }
    if credit_in(title, lower.as_str()).is_some() {
        Some(featuring(title))
    } else {
        None
    }
}

// ---------------------------------------------------------------------------
// The proposal, cut short for its confirmation.

pub open spec fn more_line(hidden: nat) -> Seq<char> {
    "\u{2026} "@ + decimal(hidden) + " more, one line each"@
}

/// One line of the body read: what is shown so far, whether the section is
/// the new cards', how many of them are shown and how many hidden.
pub open spec fn abridge_step(
    st: (Seq<Seq<char>>, bool, nat, nat),
    line: Seq<char>,
) -> (Seq<Seq<char>>, bool, nat, nat) {
    let (out, in_new, shown, hidden) = st;
    if "## "@.is_prefix_of(line) {
        let flushed = if hidden > 0 { out.push(more_line(hidden)) } else { out };
        (flushed.push(line), "## New cards"@.is_prefix_of(line), 0, 0)
    } else if in_new && "- "@.is_prefix_of(line) {
        if shown < 2 { (out.push(line), in_new, shown + 1, hidden) } else { (out, in_new, shown, hidden + 1) }
    } else if in_new && line.len() == 0 && hidden > 0 {
        (out.push(more_line(hidden)).push(line), in_new, shown, 0)
    } else {
        (out.push(line), in_new, shown, hidden)
    }
}

pub open spec fn abridge_acc(ls: Seq<Seq<char>>) -> (Seq<Seq<char>>, bool, nat, nat)
    decreases ls.len(),
{
    if ls.len() == 0 { (seq![], false, 0, 0) } else { abridge_step(abridge_acc(ls.drop_last()), ls.last()) }
}

/// The body for the confirmation: the new cards cut to two lines and a
/// count, the edited ones whole, since those are the ones to read.
pub open spec fn abridged_of(body: Seq<char>) -> Seq<Seq<char>> {
    let st = abridge_acc(lines(body));
    if st.3 > 0 { st.0.push(more_line(st.3)) } else { st.0 }
}

fn push_row(rows: &mut Vec<String>, row: Vec<char>)
    ensures
        strings(final(rows)@) == strings(old(rows)@).push(row@),
{
    let ghost before = rows@;
    let s = string_of(&row);
    rows.push(s);
    assert(strings(rows@) =~= strings(before).push(row@));
}

fn more_exec(hidden: usize) -> (r: Vec<char>)
    ensures
        r@ == more_line(hidden as nat),
{
    let mut m: Vec<char> = Vec::new();
    push_str(&mut m, "\u{2026} ");
    let d = decimal_of(hidden as u64);
    push_all(&mut m, &d);
    push_str(&mut m, " more, one line each");
    m
}

fn prefix(s: &Vec<char>, p: &str) -> (r: bool)
    ensures
        r == p@.is_prefix_of(s@),
{
    crate::text::starts_with(s, &chars_of(p))
}

pub fn abridged_body(body: &str) -> (r: Vec<String>)
    ensures
        strings(r@) == abridged_of(body@),
{
    let ls = lines_of(&chars_of(body));
    let mut out: Vec<String> = Vec::new();
    let mut in_new = false;
    let mut shown: usize = 0;
    let mut hidden: usize = 0;
    let mut i: usize = 0;
    assert(views(ls@).take(0) =~= Seq::<Seq<char>>::empty());
    assert(strings(out@) =~= Seq::<Seq<char>>::empty());
    while i < ls.len()
        invariant
            i <= ls@.len(),
            views(ls@) == lines(body@),
            shown <= 2,
            hidden <= i,
            (strings(out@), in_new, shown as nat, hidden as nat) == abridge_acc(views(ls@).take(i as int)),
        decreases ls@.len() - i,
    {
        proof {
            assert(views(ls@).take(i + 1).drop_last() =~= views(ls@).take(i as int));
            assert(views(ls@).take(i + 1).last() == ls@[i as int]@);
        }
        let line = &ls[i];
        if prefix(line, "## ") {
            if hidden > 0 {
                push_row(&mut out, more_exec(hidden));
                hidden = 0;
            }
            in_new = prefix(line, "## New cards");
            shown = 0;
            push_row(&mut out, slice(line, 0, line.len()));
            assert(line@.subrange(0, line@.len() as int) =~= line@);
        } else if in_new && prefix(line, "- ") {
            if shown < 2 {
                shown = shown + 1;
                push_row(&mut out, slice(line, 0, line.len()));
                assert(line@.subrange(0, line@.len() as int) =~= line@);
            } else {
                hidden = hidden + 1;
            }
        } else {
            if in_new && line.len() == 0 && hidden > 0 {
                push_row(&mut out, more_exec(hidden));
                hidden = 0;
            }
            push_row(&mut out, slice(line, 0, line.len()));
            assert(line@.subrange(0, line@.len() as int) =~= line@);
        }
        i = i + 1;
    }
    assert(views(ls@).take(i as int) =~= views(ls@));
    if hidden > 0 {
        push_row(&mut out, more_exec(hidden));
    }
    out
}

// ---------------------------------------------------------------------------
// The block laid over the screen.

/// A key on a block longer than the screen: where it scrolls to, or
/// nothing when the key is not one that scrolls (`j`/`k`, the arrows, `gg`
/// and `G`).
pub open spec fn scroll_to(cmd: Cmd, scroll: usize, max: usize) -> Option<usize> {
    let to: Option<int> = match cmd {
        Cmd::Down => Some(scroll + 1),
        Cmd::Up => Some(if scroll > 0 { scroll - 1 } else { 0 }),
        Cmd::Top => Some(0),
        Cmd::Bottom => Some(max as int),
        Cmd::Unknown(seq) => if seq@ == "j"@ {
            Some(scroll + 1)
        } else if seq@ == "k"@ {
            Some(if scroll > 0 { scroll - 1 } else { 0 })
        } else {
            None
        },
        _ => None,
    };
    match to {
        Some(t) => Some((if t < max { t } else { max as int }) as usize),
        None => None,
    }
}

pub fn overlay_scroll(cmd: &Cmd, scroll: usize, max: usize) -> (r: Option<usize>)
    ensures
        r == scroll_to(*cmd, scroll, max),
{
    let to: Option<usize> = match cmd {
        Cmd::Down => Some(if scroll < usize::MAX { scroll + 1 } else { scroll }),
        Cmd::Up => Some(if scroll > 0 { scroll - 1 } else { 0 }),
        Cmd::Top => Some(0),
        Cmd::Bottom => Some(max),
        Cmd::Unknown(seq) => {
            if same_str(seq.as_str(), "j") {
                Some(if scroll < usize::MAX { scroll + 1 } else { scroll })
            } else if same_str(seq.as_str(), "k") {
                Some(if scroll > 0 { scroll - 1 } else { 0 })
            } else {
                None
            }
        },
        _ => None,
    };
    match to {
        Some(t) => Some(if t < max { t } else { max }),
        None => None,
    }
}

/// Whether a key leaves the block laid over the screen: the key helper
/// follows the sequence half-typed, a `:` line keeps it, and the moves keep
/// it unless it is the helper.
pub open spec fn keeps_overlay_of(cmd: Cmd, help_open: bool) -> bool {
    match cmd {
        Cmd::Pending(_) => true,
        Cmd::Help(_) => true,
        Cmd::Typing(Some(line)) => line@.len() > 0 && line@[0] == ':',
        Cmd::Up => !help_open,
        Cmd::Down => !help_open,
        Cmd::Auto => !help_open,
        _ => false,
    }
}

pub fn keeps_overlay(cmd: &Cmd, help_open: bool) -> (r: bool)
    ensures
        r == keeps_overlay_of(*cmd, help_open),
{
    match cmd {
        Cmd::Pending(_) => true,
        Cmd::Help(_) => true,
        Cmd::Typing(Some(line)) => {
            let c = chars_of(line.as_str());
            c.len() > 0 && c[0] == ':'
        },
        Cmd::Up | Cmd::Down | Cmd::Auto => !help_open,
        _ => false,
    }
}

// ---------------------------------------------------------------------------
// A connection being drawn.

/// A connection `ac` is asking about: to draw, or already drawn and
/// reopened to set its closeness or undraw it. `from` is the side that
/// holds it.
pub struct LinkPending {
    pub from_slug: String,
    pub from_name: String,
    pub to_slug: String,
    pub to_name: String,
    /// The closeness on offer, 1 (farthest) to 5 (closest).
    pub proximity: u8,
    /// Already drawn: enter sets it, `x` undraws it, esc leaves it.
    pub drawn: bool,
}

/// What a key does while a connection waits.
pub enum LinkStep {
    /// Draw it, or set it, at this closeness.
    Write(u8),
    /// Take the drawn connection back.
    Undraw,
    /// The question is dropped; what to say of it.
    Dropped(String),
    /// The closeness moved a notch.
    Moved,
    /// A key that means nothing here: the reminder of those that do.
    Hint(String),
}

pub open spec fn hint() -> Seq<char> {
    "(h l move, a digit jumps \u{b7} \u{23ce} \u{b7} x \u{b7} esc)"@
}

/// While a connection waits, a digit says how close, not which branch to
/// take; `h` and `l` move a notch, as the comfort dial does.
pub fn on_link_key(pending: &mut LinkPending, cmd: &Cmd) -> (r: LinkStep)
    requires
        1 <= old(pending).proximity <= 5,
    ensures
        1 <= final(pending).proximity <= 5,
        final(pending).drawn == old(pending).drawn,
        match *cmd {
            Cmd::Digit(n) => if 1 <= n <= 5 { r matches LinkStep::Write(p) && p == n } else {
                r matches LinkStep::Hint(h) && h@ == hint()
            },
            Cmd::Prev | Cmd::Down => r is Moved && final(pending).proximity
                == (if old(pending).proximity > 1 { old(pending).proximity - 1 } else { 1 }),
            Cmd::Next | Cmd::Up => r is Moved && final(pending).proximity
                == (if old(pending).proximity < 5 { old(pending).proximity + 1 } else { 5 }),
            Cmd::Auto => r matches LinkStep::Write(p) && p == old(pending).proximity,
            Cmd::Remove => if old(pending).drawn { r is Undraw } else {
                r matches LinkStep::Dropped(s) && s@ == "(connection dropped, nothing drawn)"@
            },
            Cmd::Escape => r matches LinkStep::Dropped(s) && s@ == if old(pending).drawn {
                "(connection left as it was)"@
            } else {
                "(connection dropped, nothing drawn)"@
            },
            _ => r matches LinkStep::Hint(h) && h@ == hint(),
        },
        !(*cmd is Prev || *cmd is Down || *cmd is Next || *cmd is Up) ==> final(pending).proximity == old(pending).proximity,
{
    let p = pending.proximity;
    let drawn = pending.drawn;
    let (np, step) = match cmd {
        Cmd::Digit(n) => {
            if 1 <= *n && *n <= 5 {
                (p, LinkStep::Write(*n as u8))
            } else {
                (p, LinkStep::Hint(String::from_str("(h l move, a digit jumps \u{b7} \u{23ce} \u{b7} x \u{b7} esc)")))
            }
        },
        Cmd::Prev | Cmd::Down => (if p > 1 { p - 1 } else { 1 }, LinkStep::Moved),
        Cmd::Next | Cmd::Up => (if p < 5 { p + 1 } else { 5 }, LinkStep::Moved),
        Cmd::Auto => (p, LinkStep::Write(p)),
        Cmd::Remove if drawn => (p, LinkStep::Undraw),
        Cmd::Escape | Cmd::Remove => {
            if drawn {
                (p, LinkStep::Dropped(String::from_str("(connection left as it was)")))
            } else {
                (p, LinkStep::Dropped(String::from_str("(connection dropped, nothing drawn)")))
            }
        },
        _ => (p, LinkStep::Hint(String::from_str("(h l move, a digit jumps \u{b7} \u{23ce} \u{b7} x \u{b7} esc)"))),
    };
    pending.proximity = np;
    step
}

impl LinkPending {
    /// What `ac` asks, as long as it waits. It says which end is which: 5
    /// is the closest.
    pub fn question(&self) -> (r: String)
        ensures
            r@ == "\u{2192} "@ + self.from_name@ + " \u{2192} "@ + self.to_name@ + (if self.drawn {
                " \u{2014} closeness "@
            } else {
                " \u{2014} how close? "@
            }) + decimal(self.proximity as nat) + " \u{b7} "@
                + "h l move \u{b7} 1 farthest, a distant echo \u{2026} 5 closest, almost the same universe"@
                + if self.drawn {
                " \u{b7} \u{23ce} sets it \u{b7} x undraws \u{b7} esc leaves it"@
            } else {
                " \u{b7} \u{23ce} draws it \u{b7} esc draws nothing"@
            },
    {
        let mut v: Vec<char> = Vec::new();
        push_str(&mut v, "\u{2192} ");
        push_str(&mut v, self.from_name.as_str());
        push_str(&mut v, " \u{2192} ");
        push_str(&mut v, self.to_name.as_str());
        push_str(&mut v, if self.drawn { " \u{2014} closeness " } else { " \u{2014} how close? " });
        let d = decimal_of(self.proximity as u64);
        push_all(&mut v, &d);
        push_str(&mut v, " \u{b7} ");
        push_str(&mut v, "h l move \u{b7} 1 farthest, a distant echo \u{2026} 5 closest, almost the same universe");
        push_str(&mut v, if self.drawn {
            " \u{b7} \u{23ce} sets it \u{b7} x undraws \u{b7} esc leaves it"
        } else {
            " \u{b7} \u{23ce} draws it \u{b7} esc draws nothing"
        });
        string_of(&v)
    }
}

/// The note of a drawn connection: which way it was drawn, and how close.
pub fn drawn_note(outgoing: bool, name: &str, proximity: u8) -> (r: String)
    ensures
        r@ == if outgoing {
            "yours \u{2192} "@ + name@ + " \u{2014} closeness "@ + decimal(proximity as nat)
        } else {
            "yours \u{2190} "@ + name@ + " \u{2014} closeness "@ + decimal(proximity as nat) + ", drawn from there"@
        },
{
    let mut v: Vec<char> = Vec::new();
    push_str(&mut v, if outgoing { "yours \u{2192} " } else { "yours \u{2190} " });
    push_str(&mut v, name);
    push_str(&mut v, " \u{2014} closeness ");
    let d = decimal_of(proximity as u64);
    push_all(&mut v, &d);
    if !outgoing {
        push_str(&mut v, ", drawn from there");
    }
    string_of(&v)
}

// ---------------------------------------------------------------------------
// The command line of the listening, `:` and a word.

/// What a `:` line asks for.
pub enum Colon {
    /// `:size <n>`, from 1 to 9.
    Size(usize),
    /// `:size` with something else than 1 to 9.
    SizeBad,
    /// `:size` alone: say it.
    SizeShow,
    /// `:comfort <n>`, from 0 to 5.
    Comfort(u8),
    ComfortBad,
    /// `:comfort` alone: say it.
    ComfortShow,
    Warm,
    /// `:wander`, and the artist it names, if any.
    Wander(String),
    Discography,
    /// `:search`, empty or prefilled.
    Search(String),
    /// `:generate <name> [mbid]`: what follows the word.
    Generate(String),
    GenerateUsage,
    Setup,
    Library,
    /// `:sync` or `:push`.
    Sync,
    /// `:catalog` alone: the state in one line.
    CatalogStatus,
    Connections,
    /// `:catalog diff`, `propose`, `update`: the gesture's key.
    CatalogGesture(char),
    CatalogShell,
    /// `:catalog fork <url>`, or its usage when the url is missing.
    CatalogFork(Option<String>),
    /// `:catalog` and a word it does not know.
    CatalogOther(String),
    /// A command that does not exist (yet).
    Unknown(String),
    /// Nothing typed.
    Nothing,
}

pub enum ColonView {
    Size(usize),
    SizeBad,
    SizeShow,
    Comfort(u8),
    ComfortBad,
    ComfortShow,
    Warm,
    Wander(Seq<char>),
    Discography,
    Search(Seq<char>),
    Generate(Seq<char>),
    GenerateUsage,
    Setup,
    Library,
    Sync,
    CatalogStatus,
    Connections,
    CatalogGesture(char),
    CatalogShell,
    CatalogFork(Option<Seq<char>>),
    CatalogOther(Seq<char>),
    Unknown(Seq<char>),
    Nothing,
}

impl View for Colon {
    type V = ColonView;

    open spec fn view(&self) -> ColonView {
        match self {
            Colon::Size(n) => ColonView::Size(*n),
            Colon::SizeBad => ColonView::SizeBad,
            Colon::SizeShow => ColonView::SizeShow,
            Colon::Comfort(n) => ColonView::Comfort(*n),
            Colon::ComfortBad => ColonView::ComfortBad,
            Colon::ComfortShow => ColonView::ComfortShow,
            Colon::Warm => ColonView::Warm,
            Colon::Wander(s) => ColonView::Wander(s@),
            Colon::Discography => ColonView::Discography,
            Colon::Search(s) => ColonView::Search(s@),
            Colon::Generate(s) => ColonView::Generate(s@),
            Colon::GenerateUsage => ColonView::GenerateUsage,
            Colon::Setup => ColonView::Setup,
            Colon::Library => ColonView::Library,
            Colon::Sync => ColonView::Sync,
            Colon::CatalogStatus => ColonView::CatalogStatus,
            Colon::Connections => ColonView::Connections,
            Colon::CatalogGesture(k) => ColonView::CatalogGesture(*k),
            Colon::CatalogShell => ColonView::CatalogShell,
            Colon::CatalogFork(u) => ColonView::CatalogFork(opt_view(*u)),
            Colon::CatalogOther(s) => ColonView::CatalogOther(s@),
            Colon::Unknown(s) => ColonView::Unknown(s@),
            Colon::Nothing => ColonView::Nothing,
        }
    }
}

/// What a `:` line asks for, by its first two words.
pub open spec fn colon_of(text: Seq<char>) -> ColonView {
    let w = tokens(text);
    if w.len() == 0 {
        ColonView::Nothing
    } else {
        let a = w[0];
        let two = w.len() >= 2;
        if a == "size"@ {
            if two {
                match usize_of(w[1]) {
                    Some(n) => if 1 <= n <= 9 { ColonView::Size(n as usize) } else { ColonView::SizeBad },
                    None => ColonView::SizeBad,
                }
            } else {
                ColonView::SizeShow
            }
        } else if a == "comfort"@ && two {
            match usize_of(w[1]) {
                Some(n) => if n <= 5 { ColonView::Comfort(n as u8) } else { ColonView::ComfortBad },
                None => ColonView::ComfortBad,
            }
        } else if a == "warm"@ {
            ColonView::Warm
        } else if a == "wander"@ {
            ColonView::Wander(join(w.skip(1), " "@))
        } else if a == "discography"@ {
            ColonView::Discography
        } else if a == "search"@ {
            ColonView::Search(trim(strip_all(trim(text), "search"@)))
        } else if a == "generate"@ {
            if two { ColonView::Generate(strip_all(trim(text), "generate"@)) } else { ColonView::GenerateUsage }
        } else if a == "setup"@ {
            ColonView::Setup
        } else if a == "library"@ {
            ColonView::Library
        } else if a == "sync"@ || a == "push"@ {
            ColonView::Sync
        } else if a == "catalog"@ && !two {
            ColonView::CatalogStatus
        } else if a == "connections"@ {
            ColonView::Connections
        } else if a == "catalog"@ {
            let b = w[1];
            if b == "diff"@ {
                ColonView::CatalogGesture('d')
            } else if b == "propose"@ {
                ColonView::CatalogGesture('p')
            } else if b == "update"@ {
                ColonView::CatalogGesture('u')
            } else if b == "shell"@ {
                ColonView::CatalogShell
            } else if b == "fork"@ {
                ColonView::CatalogFork(if w.len() >= 3 { Some(w[2]) } else { None })
            } else {
                ColonView::CatalogOther(b)
            }
        } else if a == "comfort"@ {
            ColonView::ComfortShow
        } else {
            ColonView::Unknown(a)
        }
    }
}

fn is_word(w: &Vec<char>, s: &str) -> (r: bool)
    ensures
        r == (w@ == s@),
{
    same(w, &chars_of(s))
}

/// What a `:` line asks for.
pub fn colon_command(text: &str) -> (r: Colon)
    ensures
        r@ == colon_of(text@),
{
    let w = words_of(&chars_of(text));
    let ghost wv = views(w@);
    assert(wv == tokens(text@));
    if w.len() == 0 {
        return Colon::Nothing;
    }
    assert(wv[0] == w@[0]@);
    let two = w.len() >= 2;
    if two {
        assert(wv[1] == w@[1]@);
    }
    if is_word(&w[0], "size") {
        if two {
            match parse_usize(&w[1]) {
                Some(n) => if 1 <= n && n <= 9 { Colon::Size(n) } else { Colon::SizeBad },
                None => Colon::SizeBad,
            }
        } else {
            Colon::SizeShow
        }
    } else if is_word(&w[0], "comfort") && two {
        match parse_usize(&w[1]) {
            Some(n) => if n <= 5 { Colon::Comfort(n as u8) } else { Colon::ComfortBad },
            None => Colon::ComfortBad,
        }
    } else if is_word(&w[0], "warm") {
        Colon::Warm
    } else if is_word(&w[0], "wander") {
        let mut rest: Vec<Vec<char>> = Vec::new();
        let mut i: usize = 1;
        assert(wv.skip(1).take(0) =~= seq![]);
        while i < w.len()
            invariant
                1 <= i <= w@.len(),
                wv == views(w@),
                views(rest@) == wv.skip(1).take(i - 1),
            decreases w@.len() - i,
        {
            let ghost before = views(rest@);
            rest.push(w[i].clone());
            assert(views(rest@) =~= before.push(wv[i as int]));
            assert(wv.skip(1).take(i as int) =~= wv.skip(1).take(i - 1).push(wv[i as int]));
            i = i + 1;
        }
        assert(wv.skip(1).take(i - 1) =~= wv.skip(1));
        Colon::Wander(string_of(&join_of(&rest, &chars_of(" "))))
    } else if is_word(&w[0], "discography") {
        Colon::Discography
    } else if is_word(&w[0], "search") {
        let t = trim_exec(&chars_of(text));
        let s = strip_all_exec(&t, &chars_of("search"));
        Colon::Search(string_of(&trim_exec(&s)))
    } else if is_word(&w[0], "generate") {
        if two {
            let t = trim_exec(&chars_of(text));
            Colon::Generate(string_of(&strip_all_exec(&t, &chars_of("generate"))))
        } else {
            Colon::GenerateUsage
        }
    } else if is_word(&w[0], "setup") {
        Colon::Setup
    } else if is_word(&w[0], "library") {
        Colon::Library
    } else if is_word(&w[0], "sync") || is_word(&w[0], "push") {
        Colon::Sync
    } else if is_word(&w[0], "catalog") && !two {
        Colon::CatalogStatus
    } else if is_word(&w[0], "connections") {
        Colon::Connections
    } else if is_word(&w[0], "catalog") {
        if is_word(&w[1], "diff") {
            Colon::CatalogGesture('d')
        } else if is_word(&w[1], "propose") {
            Colon::CatalogGesture('p')
        } else if is_word(&w[1], "update") {
            Colon::CatalogGesture('u')
        } else if is_word(&w[1], "shell") {
            Colon::CatalogShell
        } else if is_word(&w[1], "fork") {
            if w.len() >= 3 {
                assert(wv[2] == w@[2]@);
                Colon::CatalogFork(Some(string_of(&w[2])))
            } else {
                Colon::CatalogFork(None)
            }
        } else {
            Colon::CatalogOther(string_of(&w[1]))
        }
    } else if is_word(&w[0], "comfort") {
        Colon::ComfortShow
    } else {
        Colon::Unknown(string_of(&w[0]))
    }
}

} // verus!
