//! The raw-mode keyboard: one key at a time, no Enter.
//!
//! Keys accumulate in a pending buffer that is matched against the grammar
//! after every keystroke. The grammar is **prefix-free** — no complete
//! command is the start of a longer one — so a sequence fires the instant
//! it is unambiguous, with no timeout and no lookahead. That property is
//! stated and proved below (`grammar_is_prefix_free`), with its two
//! companions: a pending start can always be completed, and a sequence that
//! means nothing stays meaningless whatever follows.

use vstd::prelude::*;
use crate::text::{chars_of, string_of};

verus! {

/// When a chosen branch or an encore should start.
#[derive(Debug, Clone, Copy, PartialEq, Eq)]
pub enum When {
    /// Once the current branch has played out (the default).
    EndOfBranch,
    /// Right after the current track, keeping what was queued.
    Now,
    /// Right after the current track, dropping what was queued.
    NowForce,
}

#[derive(Debug, Clone, PartialEq)]
pub enum Cmd {
    /// A bare digit: a branch, or a search result when one is pending.
    Digit(usize),
    Fork { branch: usize, when: When },
    /// `fg<n>` — the card of gap n, and nothing queued.
    ForkGenerate(usize),
    Peek,
    Reroll,
    Wander,
    ForkUndo,
    Auto,
    Encore { count: usize, when: When },
    Track(char),
    Artist(char),
    Prev,
    Next,
    Up,
    Down,
    /// Esc — cancels the selection, closes a pane, leaves a mode.
    Escape,
    /// `cc` — opens the comfort setting.
    ComfortMode,
    /// `c<n>` — the comfort zone, in one go.
    Comfort(u8),
    Sort,
    /// `gg` and `G` — both ends of a list, as in vim.
    Top,
    Bottom,
    /// `J` / `K` — move the highlighted line one step in the queue.
    MoveDown,
    MoveUp,
    PlayPause,
    /// Space, the leader: the key helper, on the namespace half-typed.
    Help(Option<char>),
    Undo,
    /// `x` — take the thing under the cursor out of its list.
    Remove,
    /// `r` — resume the last journey.
    Resume,
    /// `b` — browse: dry run, no sound.
    Browse,
    Quit,
    Search(String),
    Colon(String),
    /// The half-typed sequence, or empty when it closes.
    Pending(String),
    /// A line being typed (`/` or `:`), prefix included.
    Typing(Option<String>),
    /// A sequence that means nothing.
    Unknown(String),
    /// `e` in a modal — queue the track under the cursor.
    Enqueue,
    /// `v` — cycle the provenance filter.
    Filter,
    /// `A` — promote the whole album.
    AlbumTop,
    /// `o` — open.
    Open,
    /// `C<k>` — the catalog namespace: `Cd` diff, `Cp` propose, `Cu` update.
    Catalog(char),
}

pub enum Parse {
    Done(Cmd),
    /// A valid start: wait for more.
    Pending,
    Unknown,
}

// ---------------------------------------------------------------------------
// The three tables, as mathematics.

/// `1` to `9`, and its value: a count or a branch is never zero.
pub open spec fn count_of(c: char) -> Option<usize> {
    if '1' <= c && c <= '9' { Some((c as u32 - '0' as u32) as usize) } else { None }
}

/// The second key of `t`: what a track can be told.
pub open spec fn is_track_key(k: char) -> bool {
    k == 'l' || k == 's' || k == 'b' || k == 'm' || k == 't' || k == 'T' || k == 'd'
        || k == 'i' || k == 'a' || k == 'g'
}

/// The second key of `a`: what an artist can be told.
pub open spec fn is_artist_key(k: char) -> bool {
    k == 'l' || k == 's' || k == 'b' || k == 'e' || k == 'c' || k == 'd' || k == 'g'
}

/// `Cd` diff, `Cp` propose, `Cu` update.
pub open spec fn is_catalog_key(k: char) -> bool {
    k == 'd' || k == 'p' || k == 'u'
}

/// In the discography modal, `t` only likes and bans.
pub open spec fn is_modal_track_key(k: char) -> bool {
    k == 'l' || k == 'b'
}

pub open spec fn is_enter(c: char) -> bool {
    c == '\r' || c == '\n'
}

/// The bare keys that complete on their own, in the listening grammar.
pub open spec fn bare_key(a: char) -> Option<Cmd> {
    if a == 'o' { Some(Cmd::Open) }
    else if a == 'h' { Some(Cmd::Prev) }
    else if a == 'l' { Some(Cmd::Next) }
    else if a == 'p' { Some(Cmd::PlayPause) }
    else if a == 'r' { Some(Cmd::Resume) }
    else if a == 'b' { Some(Cmd::Browse) }
    else if a == 's' { Some(Cmd::Sort) }
    else if a == 'v' { Some(Cmd::Filter) }
    else if a == 'G' { Some(Cmd::Bottom) }
    else if a == 'J' { Some(Cmd::MoveDown) }
    else if a == 'K' { Some(Cmd::MoveUp) }
    else if a == 'x' { Some(Cmd::Remove) }
    else if a == 'q' { Some(Cmd::Quit) }
    else if is_enter(a) { Some(Cmd::Auto) }
    else { None }
}

/// The namespaces: keys that wait for a second one.
pub open spec fn is_namespace(a: char) -> bool {
    a == 'f' || a == 'e' || a == 't' || a == 'a' || a == 'C' || a == 'c' || a == 'g'
}

/// The modifiers of `f` and `e`, which come before the count.
pub open spec fn when_of(m: char) -> Option<When> {
    if m == 'n' { Some(When::Now) } else if m == '!' { Some(When::NowForce) } else { None }
}

/// The listening grammar.
pub open spec fn grammar(c: Seq<char>) -> Parse {
    if c.len() == 0 {
        Parse::Pending
    } else if c.len() == 1 {
        let a = c[0];
        if count_of(a) is Some {
            Parse::Done(Cmd::Digit(count_of(a)->0))
        } else if is_namespace(a) {
            Parse::Pending
        } else if bare_key(a) is Some {
            Parse::Done(bare_key(a)->0)
        } else {
            Parse::Unknown
        }
    } else if c.len() == 2 {
        let (a, b) = (c[0], c[1]);
        if a == 'f' {
            if b == 'n' || b == '!' || b == 'g' { Parse::Pending }
            else if count_of(b) is Some {
                Parse::Done(Cmd::Fork { branch: count_of(b)->0, when: When::EndOfBranch })
            }
            else if b == 'p' { Parse::Done(Cmd::Peek) }
            else if b == 'r' { Parse::Done(Cmd::Reroll) }
            else if b == 'w' { Parse::Done(Cmd::Wander) }
            else if b == 'u' { Parse::Done(Cmd::ForkUndo) }
            else { Parse::Unknown }
        } else if a == 'e' {
            if b == 'n' || b == '!' { Parse::Pending }
            else if count_of(b) is Some {
                Parse::Done(Cmd::Encore { count: count_of(b)->0, when: When::EndOfBranch })
            }
            else { Parse::Unknown }
        } else if a == 't' && is_track_key(b) {
            Parse::Done(Cmd::Track(b))
        } else if a == 'a' && is_artist_key(b) {
            Parse::Done(Cmd::Artist(b))
        } else if a == 'C' && is_catalog_key(b) {
            Parse::Done(Cmd::Catalog(b))
        } else if a == 'c' && b == 'c' {
            Parse::Done(Cmd::ComfortMode)
        } else if a == 'c' && '0' <= b && b <= '5' {
            Parse::Done(Cmd::Comfort((b as u32 - '0' as u32) as u8))
        } else if a == 'g' && b == 'g' {
            Parse::Done(Cmd::Top)
        } else {
            Parse::Unknown
        }
    } else if c.len() == 3 {
        let (a, m, d) = (c[0], c[1], c[2]);
        if a == 'f' && m == 'g' && count_of(d) is Some {
            Parse::Done(Cmd::ForkGenerate(count_of(d)->0))
        } else if a == 'f' && when_of(m) is Some && count_of(d) is Some {
            Parse::Done(Cmd::Fork { branch: count_of(d)->0, when: when_of(m)->0 })
        } else if a == 'e' && when_of(m) is Some && count_of(d) is Some {
            Parse::Done(Cmd::Encore { count: count_of(d)->0, when: when_of(m)->0 })
        } else {
            Parse::Unknown
        }
    } else {
        Parse::Unknown
    }
}

/// The setup screens' table: digits pick (zero included), `j`/`k` move,
/// `o` opens.
pub open spec fn setup_grammar(c: Seq<char>) -> Parse {
    if c.len() == 0 {
        Parse::Pending
    } else if c.len() == 1 {
        let a = c[0];
        if '0' <= a && a <= '9' { Parse::Done(Cmd::Digit((a as u32 - '0' as u32) as usize)) }
        else if a == 'j' { Parse::Done(Cmd::Down) }
        else if a == 'k' { Parse::Done(Cmd::Up) }
        else if a == 'h' { Parse::Done(Cmd::Prev) }
        else if a == 'l' { Parse::Done(Cmd::Next) }
        else if a == 'g' { Parse::Pending }
        else if a == 'G' { Parse::Done(Cmd::Bottom) }
        else if a == 'o' { Parse::Done(Cmd::Open) }
        else if a == 'q' { Parse::Done(Cmd::Quit) }
        else if is_enter(a) { Parse::Done(Cmd::Auto) }
        else { Parse::Unknown }
    } else if c.len() == 2 && c[0] == 'g' && c[1] == 'g' {
        Parse::Done(Cmd::Top)
    } else {
        Parse::Unknown
    }
}

/// The discography modal's table: a vertical axis, `h`/`l` fold and unfold.
pub open spec fn modal_grammar(c: Seq<char>) -> Parse {
    if c.len() == 0 {
        Parse::Pending
    } else if c.len() == 1 {
        let a = c[0];
        if a == 'j' { Parse::Done(Cmd::Down) }
        else if a == 'k' { Parse::Done(Cmd::Up) }
        else if a == 'h' { Parse::Done(Cmd::Prev) }
        else if a == 'l' { Parse::Done(Cmd::Next) }
        else if a == 'g' || a == 't' { Parse::Pending }
        else if a == 'G' { Parse::Done(Cmd::Bottom) }
        else if a == 'e' { Parse::Done(Cmd::Enqueue) }
        else if a == 's' { Parse::Done(Cmd::Sort) }
        else if a == 'v' { Parse::Done(Cmd::Filter) }
        else if a == 'A' { Parse::Done(Cmd::AlbumTop) }
        else if a == 'u' { Parse::Done(Cmd::Undo) }
        else if is_enter(a) { Parse::Done(Cmd::Auto) }
        else { Parse::Unknown }
    } else if c.len() == 2 && c[0] == 'g' && c[1] == 'g' {
        Parse::Done(Cmd::Top)
    } else if c.len() == 2 && c[0] == 't' && is_modal_track_key(c[1]) {
        Parse::Done(Cmd::Track(c[1]))
    } else {
        Parse::Unknown
    }
}

// ---------------------------------------------------------------------------
// The three parsers.

fn count_exec(c: char) -> (r: Option<usize>)
    ensures
        r == count_of(c),
{
    if '1' <= c && c <= '9' { Some((c as u32 - '0' as u32) as usize) } else { None }
}

fn when_exec(m: char) -> (r: Option<When>)
    ensures
        r == when_of(m),
{
    if m == 'n' { Some(When::Now) } else if m == '!' { Some(When::NowForce) } else { None }
}

fn bare_exec(a: char) -> (r: Option<Cmd>)
    ensures
        r == bare_key(a),
{
    if a == 'o' { Some(Cmd::Open) }
    else if a == 'h' { Some(Cmd::Prev) }
    else if a == 'l' { Some(Cmd::Next) }
    else if a == 'p' { Some(Cmd::PlayPause) }
    else if a == 'r' { Some(Cmd::Resume) }
    else if a == 'b' { Some(Cmd::Browse) }
    else if a == 's' { Some(Cmd::Sort) }
    else if a == 'v' { Some(Cmd::Filter) }
    else if a == 'G' { Some(Cmd::Bottom) }
    else if a == 'J' { Some(Cmd::MoveDown) }
    else if a == 'K' { Some(Cmd::MoveUp) }
    else if a == 'x' { Some(Cmd::Remove) }
    else if a == 'q' { Some(Cmd::Quit) }
    else if a == '\r' || a == '\n' { Some(Cmd::Auto) }
    else { None }
}

fn parse_two(a: char, b: char) -> (p: Parse)
    ensures
        p == grammar(seq![a, b]),
{
    let ghost c = seq![a, b];
    assert(c[0] == a && c[1] == b);
    if a == 'f' {
        if b == 'n' || b == '!' || b == 'g' {
            Parse::Pending
        } else if let Some(n) = count_exec(b) {
            Parse::Done(Cmd::Fork { branch: n, when: When::EndOfBranch })
        } else if b == 'p' {
            Parse::Done(Cmd::Peek)
        } else if b == 'r' {
            Parse::Done(Cmd::Reroll)
        } else if b == 'w' {
            Parse::Done(Cmd::Wander)
        } else if b == 'u' {
            Parse::Done(Cmd::ForkUndo)
        } else {
            Parse::Unknown
        }
    } else if a == 'e' {
        if b == 'n' || b == '!' {
            Parse::Pending
        } else if let Some(n) = count_exec(b) {
            Parse::Done(Cmd::Encore { count: n, when: When::EndOfBranch })
        } else {
            Parse::Unknown
        }
    } else if a == 't' && (b == 'l' || b == 's' || b == 'b' || b == 'm' || b == 't' || b == 'T'
        || b == 'd' || b == 'i' || b == 'a' || b == 'g') {
        Parse::Done(Cmd::Track(b))
    } else if a == 'a' && (b == 'l' || b == 's' || b == 'b' || b == 'e' || b == 'c' || b == 'd'
        || b == 'g') {
        Parse::Done(Cmd::Artist(b))
    } else if a == 'C' && (b == 'd' || b == 'p' || b == 'u') {
        Parse::Done(Cmd::Catalog(b))
    } else if a == 'c' && b == 'c' {
        Parse::Done(Cmd::ComfortMode)
    } else if a == 'c' && '0' <= b && b <= '5' {
        Parse::Done(Cmd::Comfort((b as u32 - '0' as u32) as u8))
    } else if a == 'g' && b == 'g' {
        Parse::Done(Cmd::Top)
    } else {
        Parse::Unknown
    }
}

fn parse_three(a: char, m: char, d: char) -> (p: Parse)
    ensures
        p == grammar(seq![a, m, d]),
{
    let ghost c = seq![a, m, d];
    assert(c[0] == a && c[1] == m && c[2] == d);
    match count_exec(d) {
        None => Parse::Unknown,
        Some(n) => {
            if a == 'f' && m == 'g' {
                Parse::Done(Cmd::ForkGenerate(n))
            } else if a == 'f' {
                match when_exec(m) {
                    Some(w) => Parse::Done(Cmd::Fork { branch: n, when: w }),
                    None => Parse::Unknown,
                }
            } else if a == 'e' {
                match when_exec(m) {
                    Some(w) => Parse::Done(Cmd::Encore { count: n, when: w }),
                    None => Parse::Unknown,
                }
            } else {
                Parse::Unknown
            }
        }
    }
}

/// Match the pending buffer against the listening grammar.
pub fn parse(buf: &str) -> (p: Parse)
    ensures
        p == grammar(buf@),
{
    parse_chars(&chars_of(buf))
}

fn parse_chars(c: &Vec<char>) -> (p: Parse)
    ensures
        p == grammar(c@),
{
    let n = c.len();
    if n == 0 {
        Parse::Pending
    } else if n == 1 {
        let a = c[0];
        if let Some(d) = count_exec(a) {
            Parse::Done(Cmd::Digit(d))
        } else if a == 'f' || a == 'e' || a == 't' || a == 'a' || a == 'C' || a == 'c' || a == 'g' {
            Parse::Pending
        } else {
            match bare_exec(a) {
                Some(cmd) => Parse::Done(cmd),
                None => Parse::Unknown,
            }
        }
    } else if n == 2 {
        assert(c@ == seq![c@[0], c@[1]]);
        parse_two(c[0], c[1])
    } else if n == 3 {
        assert(c@ == seq![c@[0], c@[1], c@[2]]);
        parse_three(c[0], c[1], c[2])
    } else {
        Parse::Unknown
    }
}

/// Match the pending buffer against the setup screens' table.
pub fn parse_setup(buf: &str) -> (p: Parse)
    ensures
        p == setup_grammar(buf@),
{
    parse_setup_chars(&chars_of(buf))
}

fn parse_setup_chars(c: &Vec<char>) -> (p: Parse)
    ensures
        p == setup_grammar(c@),
{
    let n = c.len();
    if n == 0 {
        Parse::Pending
    } else if n == 1 {
        let a = c[0];
        if '0' <= a && a <= '9' {
            Parse::Done(Cmd::Digit((a as u32 - '0' as u32) as usize))
        } else if a == 'j' {
            Parse::Done(Cmd::Down)
        } else if a == 'k' {
            Parse::Done(Cmd::Up)
        } else if a == 'h' {
            Parse::Done(Cmd::Prev)
        } else if a == 'l' {
            Parse::Done(Cmd::Next)
        } else if a == 'g' {
            Parse::Pending
        } else if a == 'G' {
            Parse::Done(Cmd::Bottom)
        } else if a == 'o' {
            Parse::Done(Cmd::Open)
        } else if a == 'q' {
            Parse::Done(Cmd::Quit)
        } else if a == '\r' || a == '\n' {
            Parse::Done(Cmd::Auto)
        } else {
            Parse::Unknown
        }
    } else if n == 2 && c[0] == 'g' && c[1] == 'g' {
        Parse::Done(Cmd::Top)
    } else {
        Parse::Unknown
    }
}

/// Match the pending buffer against the discography modal's table.
pub fn parse_modal(buf: &str) -> (p: Parse)
    ensures
        p == modal_grammar(buf@),
{
    parse_modal_chars(&chars_of(buf))
}

fn parse_modal_chars(c: &Vec<char>) -> (p: Parse)
    ensures
        p == modal_grammar(c@),
{
    let n = c.len();
    if n == 0 {
        Parse::Pending
    } else if n == 1 {
        let a = c[0];
        if a == 'j' {
            Parse::Done(Cmd::Down)
        } else if a == 'k' {
            Parse::Done(Cmd::Up)
        } else if a == 'h' {
            Parse::Done(Cmd::Prev)
        } else if a == 'l' {
            Parse::Done(Cmd::Next)
        } else if a == 'g' || a == 't' {
            Parse::Pending
        } else if a == 'G' {
            Parse::Done(Cmd::Bottom)
        } else if a == 'e' {
            Parse::Done(Cmd::Enqueue)
        } else if a == 's' {
            Parse::Done(Cmd::Sort)
        } else if a == 'v' {
            Parse::Done(Cmd::Filter)
        } else if a == 'A' {
            Parse::Done(Cmd::AlbumTop)
        } else if a == 'u' {
            Parse::Done(Cmd::Undo)
        } else if a == '\r' || a == '\n' {
            Parse::Done(Cmd::Auto)
        } else {
            Parse::Unknown
        }
    } else if n == 2 && c[0] == 'g' && c[1] == 'g' {
        Parse::Done(Cmd::Top)
    } else if n == 2 && c[0] == 't' && (c[1] == 'l' || c[1] == 'b') {
        Parse::Done(Cmd::Track(c[1]))
    } else {
        Parse::Unknown
    }
}

// ---------------------------------------------------------------------------
// What the whole design rests on.

/// The listening grammar is prefix-free: once a sequence is a complete
/// command, no key typed after it can make a longer command of it — so a
/// command fires the instant it is typed, with no timeout.
pub proof fn grammar_is_prefix_free(s: Seq<char>, t: Seq<char>)
    requires
        grammar(s) is Done,
        t.len() > 0,
    ensures
        grammar(s + t) is Unknown,
{
    let u = s + t;
    assert(u.len() > s.len());
    assert forall|i: int| 0 <= i < s.len() implies u[i] == s[i] by {}
}

/// A sequence that means nothing in the listening grammar means nothing
/// whatever follows it: the reader may forget it at once.
pub proof fn grammar_unknown_is_final(s: Seq<char>, t: Seq<char>)
    requires
        grammar(s) is Unknown,
    ensures
        grammar(s + t) is Unknown,
{
    let u = s + t;
    assert forall|i: int| 0 <= i < s.len() implies u[i] == s[i] by {}
    if t.len() > 0 {
        assert(u.len() > s.len());
    } else {
        assert(u =~= s);
    }
}

/// A pending sequence of the listening grammar is the start of some
/// command: waiting for more keys is never waiting for nothing.
pub proof fn grammar_pending_completes(s: Seq<char>)
    requires
        grammar(s) is Pending,
    ensures
        exists|t: Seq<char>| #[trigger] grammar(s + t) is Done,
{
    let t = if s.len() == 0 {
        seq!['1']
    } else if s.len() == 1 {
        if s[0] == 'f' { seq!['p'] }
        else if s[0] == 't' || s[0] == 'a' { seq!['l'] }
        else if s[0] == 'C' { seq!['d'] }
        else if s[0] == 'c' { seq!['c'] }
        else if s[0] == 'g' { seq!['g'] }
        else { seq!['1'] }
    } else {
        seq!['1']
    };
    let u = s + t;
    assert forall|i: int| 0 <= i < s.len() implies u[i] == s[i] by {}
    assert(u[s.len() as int] == t[0]);
    assert(grammar(u) is Done);
}

/// A sequence of one typed key.
pub open spec fn typed1(a: char) -> Seq<char> {
    seq![a]
}

/// A sequence of two typed keys.
pub open spec fn typed2(a: char, b: char) -> Seq<char> {
    seq![a, b]
}

/// A sequence of three typed keys.
pub open spec fn typed3(a: char, b: char, c: char) -> Seq<char> {
    seq![a, b, c]
}

/// The listening grammar binds each key sequence to its command: a digit
/// picks a branch; `f<n>`, `fn<n>`, `f!<n>` take branch n at the end of the
/// branch, now, or now dropping the queue; `fg<n>` generates gap n; `fp`
/// peeks, `fr` redraws, `fw` wanders, `fu` backs up; `e<n>`, `en<n>`,
/// `e!<n>` play n more of the artist; `cc` opens the dial and `c<n>` sets
/// it; `gg` and `G` go to the ends; the bare keys do what they name.
pub proof fn the_keys_name_their_commands()
    ensures
        forall|d: char| '1' <= d <= '9' ==> #[trigger] grammar(typed1(d)) == Parse::Done(Cmd::Digit((d as u32 - 48) as usize)),
        forall|d: char| '1' <= d <= '9' ==> #[trigger] grammar(typed2('f', d)) == Parse::Done(Cmd::Fork { branch: (d as u32 - 48) as usize, when: When::EndOfBranch }),
        forall|d: char| '1' <= d <= '9' ==> #[trigger] grammar(typed3('f', 'n', d)) == Parse::Done(Cmd::Fork { branch: (d as u32 - 48) as usize, when: When::Now }),
        forall|d: char| '1' <= d <= '9' ==> #[trigger] grammar(typed3('f', '!', d)) == Parse::Done(Cmd::Fork { branch: (d as u32 - 48) as usize, when: When::NowForce }),
        forall|d: char| '1' <= d <= '9' ==> #[trigger] grammar(typed3('f', 'g', d)) == Parse::Done(Cmd::ForkGenerate((d as u32 - 48) as usize)),
        forall|d: char| '1' <= d <= '9' ==> #[trigger] grammar(typed2('e', d)) == Parse::Done(Cmd::Encore { count: (d as u32 - 48) as usize, when: When::EndOfBranch }),
        forall|d: char| '1' <= d <= '9' ==> #[trigger] grammar(typed3('e', 'n', d)) == Parse::Done(Cmd::Encore { count: (d as u32 - 48) as usize, when: When::Now }),
        forall|d: char| '1' <= d <= '9' ==> #[trigger] grammar(typed3('e', '!', d)) == Parse::Done(Cmd::Encore { count: (d as u32 - 48) as usize, when: When::NowForce }),
        forall|d: char| '0' <= d <= '5' ==> #[trigger] grammar(typed2('c', d)) == Parse::Done(Cmd::Comfort((d as u32 - 48) as u8)),
        grammar(typed2('f', 'p')) == Parse::Done(Cmd::Peek),
        grammar(typed2('f', 'r')) == Parse::Done(Cmd::Reroll),
        grammar(typed2('f', 'w')) == Parse::Done(Cmd::Wander),
        grammar(typed2('f', 'u')) == Parse::Done(Cmd::ForkUndo),
        grammar(typed2('c', 'c')) == Parse::Done(Cmd::ComfortMode),
        grammar(typed2('g', 'g')) == Parse::Done(Cmd::Top),
        grammar(typed1('G')) == Parse::Done(Cmd::Bottom),
        grammar(typed1('o')) == Parse::Done(Cmd::Open),
        grammar(typed1('h')) == Parse::Done(Cmd::Prev),
        grammar(typed1('l')) == Parse::Done(Cmd::Next),
        grammar(typed1('p')) == Parse::Done(Cmd::PlayPause),
        grammar(typed1('r')) == Parse::Done(Cmd::Resume),
        grammar(typed1('b')) == Parse::Done(Cmd::Browse),
        grammar(typed1('s')) == Parse::Done(Cmd::Sort),
        grammar(typed1('v')) == Parse::Done(Cmd::Filter),
        grammar(typed1('J')) == Parse::Done(Cmd::MoveDown),
        grammar(typed1('K')) == Parse::Done(Cmd::MoveUp),
        grammar(typed1('x')) == Parse::Done(Cmd::Remove),
        grammar(typed1('q')) == Parse::Done(Cmd::Quit),
        grammar(typed1('\r')) == Parse::Done(Cmd::Auto),
        grammar(typed1('\n')) == Parse::Done(Cmd::Auto),
        forall|k: char| is_track_key(k) ==> #[trigger] grammar(typed2('t', k)) == Parse::Done(Cmd::Track(k)),
        forall|k: char| is_artist_key(k) ==> #[trigger] grammar(typed2('a', k)) == Parse::Done(Cmd::Artist(k)),
        forall|k: char| is_catalog_key(k) ==> #[trigger] grammar(typed2('C', k)) == Parse::Done(Cmd::Catalog(k)),
{
}

/// The setup table is prefix-free too.
pub proof fn setup_grammar_is_prefix_free(s: Seq<char>, t: Seq<char>)
    requires
        setup_grammar(s) is Done,
        t.len() > 0,
    ensures
        setup_grammar(s + t) is Unknown,
{
    let u = s + t;
    assert(u.len() > s.len());
    assert forall|i: int| 0 <= i < s.len() implies u[i] == s[i] by {}
}

/// A sequence that means nothing on the setup screens stays so.
pub proof fn setup_grammar_unknown_is_final(s: Seq<char>, t: Seq<char>)
    requires
        setup_grammar(s) is Unknown,
    ensures
        setup_grammar(s + t) is Unknown,
{
    let u = s + t;
    assert forall|i: int| 0 <= i < s.len() implies u[i] == s[i] by {}
    if t.len() == 0 {
        assert(u =~= s);
    }
}

/// The discography modal's table is prefix-free too.
pub proof fn modal_grammar_is_prefix_free(s: Seq<char>, t: Seq<char>)
    requires
        modal_grammar(s) is Done,
        t.len() > 0,
    ensures
        modal_grammar(s + t) is Unknown,
{
    let u = s + t;
    assert(u.len() > s.len());
    assert forall|i: int| 0 <= i < s.len() implies u[i] == s[i] by {}
}

/// A sequence that means nothing in the modal stays so.
pub proof fn modal_grammar_unknown_is_final(s: Seq<char>, t: Seq<char>)
    requires
        modal_grammar(s) is Unknown,
    ensures
        modal_grammar(s + t) is Unknown,
{
    let u = s + t;
    assert forall|i: int| 0 <= i < s.len() implies u[i] == s[i] by {}
    if t.len() == 0 {
        assert(u =~= s);
    }
}


// ---------------------------------------------------------------------------
// The key reader, as a state machine. The thread that owns the terminal
// reads a byte (and, after an escape byte, the tail of an escape sequence
// when one follows at once), hands it here with what the screen said at
// that moment, sends the commands that come back in order, and reads a
// line when asked to.

/// What a command says, with its text taken as characters.
pub enum Said {
    /// A command that carries no text.
    Plain(Cmd),
    Pending(Seq<char>),
    Typing(Option<Seq<char>>),
    Search(Seq<char>),
    Colon(Seq<char>),
    Unknown(Seq<char>),
}

pub open spec fn said(c: Cmd) -> Said {
    match c {
        Cmd::Pending(s) => Said::Pending(s@),
        Cmd::Typing(None) => Said::Typing(None),
        Cmd::Typing(Some(s)) => Said::Typing(Some(s@)),
        Cmd::Search(s) => Said::Search(s@),
        Cmd::Colon(s) => Said::Colon(s@),
        Cmd::Unknown(s) => Said::Unknown(s@),
        _ => Said::Plain(c),
    }
}

pub open spec fn said_all(cmds: Seq<Cmd>) -> Seq<Said> {
    cmds.map_values(|c: Cmd| said(c))
}

/// What the reader keeps between two keys.
pub struct Reader {
    /// The half-typed sequence.
    pub pending: Vec<char>,
    pub was_modal: bool,
    pub was_setup: bool,
    /// The text-mode line: it lives here, the screen only sees its state.
    pub line: Vec<char>,
    pub was_text: bool,
    pub was_generation: usize,
}

/// One byte from the terminal, and the screen's state when it came.
pub struct Key {
    pub byte: u8,
    /// After an escape byte, the two bytes of an escape sequence when they
    /// were already there; `None` for the escape key alone.
    pub tail: Option<(u8, u8)>,
    /// Text mode: the search modal owns the keyboard.
    pub text: bool,
    /// Bumped on every opening of a text field.
    pub generation: usize,
    /// What the text-mode line contains on opening.
    pub text_start: String,
    /// A modal has its own table.
    pub modal: bool,
    /// The setup screens have their own table.
    pub setup: bool,
}

/// What the reader does once the commands are sent.
pub enum Then {
    /// Wait for the next byte.
    Next,
    /// Read a line, shown with this prefix and starting with this text.
    ReadLine { prefix: char, start: String },
}

pub struct ReaderState {
    pub pending: Seq<char>,
    pub was_modal: bool,
    pub was_setup: bool,
    pub line: Seq<char>,
    pub was_text: bool,
    pub was_generation: usize,
}

pub enum Go {
    Next,
    ReadLine(char, Seq<char>),
}

impl Reader {
    pub open spec fn state(&self) -> ReaderState {
        ReaderState {
            pending: self.pending@,
            was_modal: self.was_modal,
            was_setup: self.was_setup,
            line: self.line@,
            was_text: self.was_text,
            was_generation: self.was_generation,
        }
    }
}

pub open spec fn go(t: Then) -> Go {
    match t {
        Then::Next => Go::Next,
        Then::ReadLine { prefix, start } => Go::ReadLine(prefix, start@),
    }
}

/// The byte as the grammar sees it.
pub open spec fn key_char(b: u8) -> char {
    b as char
}

/// A byte that types itself in a line: printable ASCII or space.
pub open spec fn types_ascii(b: u8) -> bool {
    0x20 <= b && b <= 0x7e
}

/// A byte that types itself in the text mode: printable ASCII, space, or
/// any byte of a wider character.
pub open spec fn types_text(b: u8) -> bool {
    types_ascii(b) || b >= 0x80
}

pub open spec fn is_backspace(b: u8) -> bool {
    b == 0x7f || b == 0x08
}

pub open spec fn is_enter_byte(b: u8) -> bool {
    b == 13 || b == 10
}

/// The line, once a key of the text mode or of a line has been typed.
pub open spec fn line_after(line: Seq<char>, b: u8, wide: bool) -> Seq<char> {
    if is_backspace(b) {
        if line.len() > 0 { line.drop_last() } else { line }
    } else if types_ascii(b) || (wide && b >= 0x80) {
        line.push(key_char(b))
    } else {
        line
    }
}

/// What an escape says in the text mode: the vertical arrows move, the
/// horizontal ones do nothing, anything else is the escape key.
pub open spec fn text_escape(tail: Option<(u8, u8)>) -> Option<Said> {
    match tail {
        Some((_, b)) => {
            if b == 0x41 { Some(Said::Plain(Cmd::Up)) }
            else if b == 0x42 { Some(Said::Plain(Cmd::Down)) }
            else if b == 0x43 || b == 0x44 { None }
            else { Some(Said::Plain(Cmd::Escape)) }
        }
        None => Some(Said::Plain(Cmd::Escape)),
    }
}

/// What a key says in the text mode, the line being already updated.
pub open spec fn text_said(line: Seq<char>, b: u8, tail: Option<(u8, u8)>) -> Option<Said> {
    if b == 0x1b { text_escape(tail) }
    else if is_enter_byte(b) { Some(Said::Plain(Cmd::Auto)) }
    else if b == 0x09 { Some(Said::Plain(Cmd::Filter)) }
    else if is_backspace(b) || types_text(b) { Some(Said::Typing(Some(line))) }
    else { None }
}

/// An arrow, after an escape in the grammar mode.
pub open spec fn arrow(tail: Option<(u8, u8)>) -> Option<Cmd> {
    match tail {
        Some((_, b)) => {
            if b == 0x43 { Some(Cmd::Next) }
            else if b == 0x44 { Some(Cmd::Prev) }
            else if b == 0x41 { Some(Cmd::Up) }
            else if b == 0x42 { Some(Cmd::Down) }
            else { None }
        }
        None => None,
    }
}

pub open spec fn opt_seq<A>(o: Option<A>) -> Seq<A> {
    match o {
        Some(a) => seq![a],
        None => seq![],
    }
}

/// Forgetting the pending sequence tells the screen when there was one.
pub open spec fn cleared(pending: Seq<char>) -> Seq<Said> {
    if pending.len() > 0 { seq![Said::Pending(seq![])] } else { seq![] }
}

/// The table in force.
pub open spec fn table(setup: bool, modal: bool, c: Seq<char>) -> Parse {
    if setup { setup_grammar(c) } else if modal { modal_grammar(c) } else { grammar(c) }
}

pub open spec fn wander_start() -> Seq<char> {
    seq!['w', 'a', 'n', 'd', 'e', 'r', ' ']
}

/// A key in the grammar mode, the tables already settled.
pub open spec fn grammar_step(r: ReaderState, b: u8, tail: Option<(u8, u8)>) -> (ReaderState, Seq<Said>, Go) {
    let key = key_char(b);
    let cleared_r = ReaderState { pending: seq![], ..r };
    if b == 0x1b {
        match arrow(tail) {
            Some(cmd) => (cleared_r, cleared(r.pending).push(Said::Plain(cmd)), Go::Next),
            None => (cleared_r, cleared(r.pending).push(Said::Plain(Cmd::Escape)), Go::Next),
        }
    } else if key == ' ' {
        let namespace = if r.pending.len() > 0 { Some(r.pending[0]) } else { None };
        (r, seq![Said::Plain(Cmd::Help(namespace))], Go::Next)
    } else if is_backspace(b) {
        let p = if r.pending.len() > 0 { r.pending.drop_last() } else { r.pending };
        (ReaderState { pending: p, ..r }, seq![Said::Pending(p)], Go::Next)
    } else if r.pending.len() == 0 && (key == '/' || key == ':') {
        (r, seq![], Go::ReadLine(key, seq![]))
    } else if b < 0x20 && !is_enter_byte(b) {
        (r, seq![], Go::Next)
    } else {
        let p = r.pending.push(key);
        match table(r.was_setup, r.was_modal, p) {
            Parse::Done(Cmd::Wander) => (cleared_r, seq![Said::Pending(seq![])], Go::ReadLine(':', wander_start())),
            Parse::Done(cmd) => {
                let closing = if p.len() > 1 { seq![Said::Pending(seq![])] } else { seq![] };
                (cleared_r, closing.push(Said::Plain(cmd)), Go::Next)
            }
            Parse::Pending => (ReaderState { pending: p, ..r }, seq![Said::Pending(p)], Go::Next),
            Parse::Unknown => (cleared_r, seq![Said::Unknown(p)], Go::Next),
        }
    }
}

/// One key through the reader: the text mode and the tables are settled
/// first — a switch forgets the sequence typed for the other side — then
/// the key is read in the mode in force.
pub open spec fn reader_step(r: ReaderState, k: Key) -> (ReaderState, Seq<Said>, Go) {
    let flip = k.text != r.was_text || k.generation != r.was_generation;
    let out0 = if flip { cleared(r.pending) } else { seq![] };
    let r1 = if flip {
        ReaderState {
            pending: seq![],
            line: if k.text { k.text_start@ } else { seq![] },
            was_text: k.text,
            was_generation: k.generation,
            ..r
        }
    } else {
        r
    };
    if r1.was_text {
        let line = line_after(r1.line, k.byte, true);
        let line = if k.byte == 0x1b || is_enter_byte(k.byte) || k.byte == 0x09 { r1.line } else { line };
        (ReaderState { line: line, ..r1 }, out0 + opt_seq(text_said(line, k.byte, k.tail)), Go::Next)
    } else {
        let switched = k.modal != r1.was_modal || k.setup != r1.was_setup;
        let out1 = if switched { cleared(r1.pending) } else { seq![] };
        let r2 = ReaderState {
            pending: if switched { seq![] } else { r1.pending },
            was_modal: k.modal,
            was_setup: k.setup,
            ..r1
        };
        let (r3, out2, then) = grammar_step(r2, k.byte, k.tail);
        (r3, out0 + out1 + out2, then)
    }
}

fn pending_cmd(p: &Vec<char>) -> (c: Cmd)
    ensures
        said(c) == Said::Pending(p@),
{
    Cmd::Pending(string_of(p))
}

fn closing_cmd() -> (c: Cmd)
    ensures
        said(c) == Said::Pending(seq![]),
{
    let empty: Vec<char> = Vec::new();
    pending_cmd(&empty)
}

/// Forget the pending sequence, and tell the screen when there was one.
fn clear_pending(pending: &mut Vec<char>, out: &mut Vec<Cmd>)
    ensures
        final(pending)@ == Seq::<char>::empty(),
        said_all(final(out)@) == said_all(old(out)@) + cleared(old(pending)@),
{
    if pending.len() > 0 {
        let c = closing_cmd();
        out.push(c);
        assert(said_all(out@) =~= said_all(old(out)@) + cleared(old(pending)@));
    } else {
        assert(said_all(out@) =~= said_all(old(out)@) + cleared(old(pending)@));
    }
    pending.clear();
}

fn arrow_exec(tail: Option<(u8, u8)>) -> (r: Option<Cmd>)
    ensures
        r == arrow(tail),
{
    match tail {
        Some((_, b)) => {
            if b == 0x43 { Some(Cmd::Next) }
            else if b == 0x44 { Some(Cmd::Prev) }
            else if b == 0x41 { Some(Cmd::Up) }
            else if b == 0x42 { Some(Cmd::Down) }
            else { None }
        }
        None => None,
    }
}

impl Reader {
    /// The reader as the thread starts it.
    pub fn new(modal: bool, setup: bool, text: bool, generation: usize) -> (r: Reader)
        ensures
            r.state() == (ReaderState {
                pending: seq![],
                was_modal: modal,
                was_setup: setup,
                line: seq![],
                was_text: text,
                was_generation: generation,
            }),
    {
        Reader {
            pending: Vec::new(),
            was_modal: modal,
            was_setup: setup,
            line: Vec::new(),
            was_text: text,
            was_generation: generation,
        }
    }

    /// A key in the text mode: printable keys are typed, arrows move,
    /// enter takes, escape closes, tab toggles the scope.
    fn text_key(&mut self, b: u8, tail: Option<(u8, u8)>) -> (c: Option<Cmd>)
        ensures
            final(self).state() == (ReaderState {
                line: if b == 0x1b || is_enter_byte(b) || b == 0x09 { old(self).line@ }
                    else { line_after(old(self).line@, b, true) },
                ..old(self).state()
            }),
            opt_seq(c).map_values(|c: Cmd| said(c)) == opt_seq(
                text_said(final(self).line@, b, tail),
            ),
    {
        if b == 0x1b {
            let c = match tail {
                Some((_, t)) => {
                    if t == 0x41 { Some(Cmd::Up) }
                    else if t == 0x42 { Some(Cmd::Down) }
                    else if t == 0x43 || t == 0x44 { None }
                    else { Some(Cmd::Escape) }
                }
                None => Some(Cmd::Escape),
            };
            assert(opt_seq(c).map_values(|c: Cmd| said(c)) =~= opt_seq(text_said(self.line@, b, tail)));
            c
        } else if b == 13 || b == 10 {
            assert(opt_seq(Some(Cmd::Auto)).map_values(|c: Cmd| said(c)) =~= opt_seq(text_said(self.line@, b, tail)));
            Some(Cmd::Auto)
        } else if b == 0x09 {
            assert(opt_seq(Some(Cmd::Filter)).map_values(|c: Cmd| said(c)) =~= opt_seq(text_said(self.line@, b, tail)));
            Some(Cmd::Filter)
        } else if b == 0x7f || b == 0x08 {
            self.line.pop();
            let c = Cmd::Typing(Some(string_of(&self.line)));
            assert(opt_seq(Some(c)).map_values(|c: Cmd| said(c)) =~= opt_seq(text_said(self.line@, b, tail)));
            Some(c)
        } else if (0x20 <= b && b <= 0x7e) || b >= 0x80 {
            self.line.push(b as char);
            let c = Cmd::Typing(Some(string_of(&self.line)));
            assert(opt_seq(Some(c)).map_values(|c: Cmd| said(c)) =~= opt_seq(text_said(self.line@, b, tail)));
            Some(c)
        } else {
            assert(opt_seq(None::<Cmd>).map_values(|c: Cmd| said(c)) =~= opt_seq(text_said(self.line@, b, tail)));
            None
        }
    }

    /// A key in the grammar mode, the tables already settled.
    fn grammar_key(&mut self, b: u8, tail: Option<(u8, u8)>, out: &mut Vec<Cmd>) -> (then: Then)
        ensures
            ({
                let (r, says, g) = grammar_step(old(self).state(), b, tail);
                &&& final(self).state() == r
                &&& said_all(final(out)@) == said_all(old(out)@) + says
                &&& go(then) == g
            }),
    {
        let ghost r0 = self.state();
        let ghost out0 = said_all(out@);
        let key = b as char;
        if b == 0x1b {
            let cmd = match arrow_exec(tail) {
                Some(cmd) => cmd,
                None => Cmd::Escape,
            };
            clear_pending(&mut self.pending, out);
            let ghost mid = out@;
            out.push(cmd);
            assert(said_all(out@) =~= said_all(mid).push(said(cmd)));
            assert(said_all(out@) =~= out0 + cleared(r0.pending).push(said(cmd)));
            assert(self.state() == ReaderState { pending: seq![], ..r0 });
            return Then::Next;
        }
        if key == ' ' {
            let namespace = if self.pending.len() > 0 { Some(self.pending[0]) } else { None };
            out.push(Cmd::Help(namespace));
            assert(said_all(out@) =~= out0 + seq![Said::Plain(Cmd::Help(namespace))]);
            return Then::Next;
        }
        if b == 0x7f || b == 0x08 {
            self.pending.pop();
            let c = pending_cmd(&self.pending);
            out.push(c);
            assert(said_all(out@) =~= out0 + seq![Said::Pending(self.pending@)]);
            return Then::Next;
        }
        if self.pending.len() == 0 && (key == '/' || key == ':') {
            assert(said_all(out@) =~= out0 + seq![]);
            let empty: Vec<char> = Vec::new();
            return Then::ReadLine { prefix: key, start: string_of(&empty) };
        }
        if b < 0x20 && b != 13 && b != 10 {
            assert(said_all(out@) =~= out0 + seq![]);
            return Then::Next;
        }
        self.pending.push(key);
        let outcome = if self.was_setup {
            parse_setup_chars(&self.pending)
        } else if self.was_modal {
            parse_modal_chars(&self.pending)
        } else {
            parse_chars(&self.pending)
        };
        match outcome {
            Parse::Done(Cmd::Wander) => {
                self.pending.clear();
                out.push(closing_cmd());
                assert(said_all(out@) =~= out0 + seq![Said::Pending(seq![])]);
                let start = vec!['w', 'a', 'n', 'd', 'e', 'r', ' '];
                assert(start@ =~= wander_start());
                Then::ReadLine { prefix: ':', start: string_of(&start) }
            }
            Parse::Done(cmd) => {
                let ghost p = self.pending@;
                let was_pending = self.pending.len() > 1;
                self.pending.clear();
                if was_pending {
                    out.push(closing_cmd());
                }
                out.push(cmd);
                assert(said_all(out@) =~= out0 + (if p.len() > 1 { seq![Said::Pending(seq![])] } else { seq![] }).push(Said::Plain(cmd)));
                Then::Next
            }
            Parse::Pending => {
                let c = pending_cmd(&self.pending);
                out.push(c);
                assert(said_all(out@) =~= out0 + seq![Said::Pending(self.pending@)]);
                Then::Next
            }
            Parse::Unknown => {
                let c = Cmd::Unknown(string_of(&self.pending));
                assert(said(c) == Said::Unknown(self.pending@));
                self.pending.clear();
                out.push(c);
                assert(said_all(out@) =~= out0 + seq![said(c)]);
                Then::Next
            }
        }
    }

    /// One key through the reader: the commands to send, in order, and
    /// what to do next.
    pub fn step(&mut self, k: &Key) -> (res: (Vec<Cmd>, Then))
        ensures
            ({
                let (r, says, g) = reader_step(old(self).state(), *k);
                &&& final(self).state() == r
                &&& said_all(res.0@) == says
                &&& go(res.1) == g
            }),
    {
        let mut out: Vec<Cmd> = Vec::new();
        let ghost r0 = self.state();
        if k.text != self.was_text || k.generation != self.was_generation {
            self.was_text = k.text;
            self.was_generation = k.generation;
            self.line = if k.text { chars_of(k.text_start.as_str()) } else { Vec::new() };
            clear_pending(&mut self.pending, &mut out);
        }
        assert(said_all(out@) =~= if k.text != r0.was_text || k.generation != r0.was_generation { cleared(r0.pending) } else { seq![] });
        if self.was_text {
            let ghost out1 = out@;
            let c = self.text_key(k.byte, k.tail);
            match c {
                Some(c) => { out.push(c); }
                None => {}
            }
            assert(said_all(out@) =~= said_all(out1) + opt_seq(c).map_values(|c: Cmd| said(c)));
            return (out, Then::Next);
        }
        if k.modal != self.was_modal || k.setup != self.was_setup {
            clear_pending(&mut self.pending, &mut out);
        }
        self.was_modal = k.modal;
        self.was_setup = k.setup;
        let then = self.grammar_key(k.byte, k.tail, &mut out);
        (out, then)
    }
}

/// A line being read, for `/`, `:` and `fw`: keystrokes go up to the
/// screen instead of being written on it.
pub struct LineReader {
    pub prefix: char,
    pub text: Vec<char>,
}

/// One key of a line.
pub enum LineStep {
    /// Show the line as it now stands.
    Show(Cmd),
    /// The bytes of an arrow: nothing to do, nothing to show.
    Quiet,
    /// Enter sends the line, escape cancels it.
    Finish(Option<String>),
}

pub open spec fn shown_line(prefix: char, text: Seq<char>) -> Said {
    Said::Typing(Some(seq![prefix] + text))
}

impl LineReader {
    /// A line opens: it shows at once, with its prefix.
    pub fn open(prefix: char, start: &str) -> (res: (LineReader, Cmd))
        ensures
            res.0.prefix == prefix,
            res.0.text@ == start@,
            said(res.1) == shown_line(prefix, start@),
    {
        let reader = LineReader { prefix, text: chars_of(start) };
        let shown = reader.shown();
        (reader, shown)
    }

    fn shown(&self) -> (c: Cmd)
        ensures
            said(c) == shown_line(self.prefix, self.text@),
    {
        let mut all: Vec<char> = Vec::new();
        all.push(self.prefix);
        let mut i: usize = 0;
        while i < self.text.len()
            invariant
                i <= self.text@.len(),
                all@ == seq![self.prefix] + self.text@.take(i as int),
            decreases self.text@.len() - i,
        {
            all.push(self.text[i]);
            i = i + 1;
            assert(all@ =~= seq![self.prefix] + self.text@.take(i as int));
        }
        assert(self.text@.take(i as int) =~= self.text@);
        Cmd::Typing(Some(string_of(&all)))
    }

    /// One key of the line.
    pub fn key(&mut self, b: u8, tail: Option<(u8, u8)>) -> (step: LineStep)
        ensures
            final(self).prefix == old(self).prefix,
            is_enter_byte(b) ==> final(self).text@ == old(self).text@ && (step matches LineStep::Finish(Some(t)) && t@ == old(self).text@),
            b == 0x1b ==> final(self).text@ == old(self).text@ && (if tail is None { step matches LineStep::Finish(None) } else { step is Quiet }),
            !is_enter_byte(b) && b != 0x1b ==> final(self).text@ == line_after(old(self).text@, b, false)
                && (step matches LineStep::Show(c) && said(c) == shown_line(final(self).prefix, final(self).text@)),
    {
        if b == 13 || b == 10 {
            return LineStep::Finish(Some(string_of(&self.text)));
        }
        if b == 0x1b {
            return match tail {
                None => LineStep::Finish(None),
                Some(_) => LineStep::Quiet,
            };
        }
        if b == 0x7f || b == 0x08 {
            self.text.pop();
        } else if 0x20 <= b && b <= 0x7e {
            self.text.push(b as char);
        }
        LineStep::Show(self.shown())
    }
}

/// Once a line is over: the screen stops showing it, and the line, when
/// there is one, becomes a search (`/`) or a command (`:`).
pub fn after_line(prefix: char, line: Option<String>) -> (out: Vec<Cmd>)
    ensures
        said_all(out@) == seq![Said::Typing(None)] + match line {
            Some(t) => if prefix == '/' { seq![Said::Search(t@)] } else { seq![Said::Colon(t@)] },
            None => seq![],
        },
{
    let mut out: Vec<Cmd> = Vec::new();
    out.push(Cmd::Typing(None));
    match line {
        Some(t) => {
            let ghost v = t@;
            if prefix == '/' {
                out.push(Cmd::Search(t));
            } else {
                out.push(Cmd::Colon(t));
            }
            assert(said_all(out@) =~= seq![Said::Typing(None)] + if prefix == '/' { seq![Said::Search(v)] } else { seq![Said::Colon(v)] });
        }
        None => {
            assert(said_all(out@) =~= seq![Said::Typing(None)]);
        }
    }
    out
}

} // verus!
