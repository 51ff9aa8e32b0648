//! The discography screen: an artist's albums and tracks, where the tops
//! are corrected. What it shows is drawn by the caller; its filter, its
//! cursor and its search are here.

use vstd::prelude::*;
use crate::text::{same_str, chars_of, contains_in, lowercase, to_lowercase, same, string_of, push_str, push_all, decimal,
    decimal_of, trim, trim_exec};
use crate::discography::{TailTrack, year_of, normal_form, normalize};
use crate::edit::strings;
use crate::fork::{lex_lt, lex_less, lemma_lex_transitive, lemma_lex_irreflexive};

verus! {

/// The provenance filter — one key, not a menu.
#[derive(Clone, Copy, PartialEq, Eq, Structural)]
pub enum Filter {
    All,
    Tops,
    Liked,
    Banned,
}

impl Filter {
    /// The filter the key moves to: all, tops, liked, banned, and around.
    pub open spec fn next_spec(self) -> Filter {
        match self {
            Filter::All => Filter::Tops,
            Filter::Tops => Filter::Liked,
            Filter::Liked => Filter::Banned,
            Filter::Banned => Filter::All,
        }
    }

    pub fn next(self) -> (r: Filter)
        ensures
            r == self.next_spec(),
    {
        match self {
            Filter::All => Filter::Tops,
            Filter::Tops => Filter::Liked,
            Filter::Liked => Filter::Banned,
            Filter::Banned => Filter::All,
        }
    }

    pub open spec fn word_spec(self) -> Seq<char> {
        match self {
            Filter::All => "all"@,
            Filter::Tops => "\u{266a} tops"@,
            Filter::Liked => "\u{2665} liked"@,
            Filter::Banned => "\u{2298} banned"@,
        }
    }

    /// What the screen says of the filter.
    pub fn word(self) -> (r: &'static str)
        ensures
            r@ == self.word_spec(),
    {
        match self {
            Filter::All => "all",
            Filter::Tops => "\u{266a} tops",
            Filter::Liked => "\u{2665} liked",
            Filter::Banned => "\u{2298} banned",
        }
    }
}

/// Four presses of the key come back to the filter one started from.
pub proof fn filter_cycles(f: Filter)
    ensures
        f.next_spec().next_spec().next_spec().next_spec() == f,
        f.next_spec() != f,
{
}

/// A correction waiting to be written: a top added or removed.
pub struct Pending {
    pub add: bool,
    /// The string to write in the card, or to remove from it.
    pub title: String,
    /// What justifies it, in three words — shown next to it.
    pub why: String,
}

/// Where we are. An identity, not a line number: folding an album changes
/// the number of lines above, and an index would not survive it.
#[derive(Clone, Copy, PartialEq, Eq, Structural)]
pub struct Cursor {
    pub album: usize,
    pub track: Option<usize>,
}

#[derive(Clone, Copy, PartialEq, Eq, Structural)]
pub enum Row {
    Album(usize),
    Track(usize, usize),
}

/// The search of the screen: a title holds the words typed, case aside.
pub fn contains(haystack: &str, needle: &str) -> (r: bool)
    ensures
        r == crate::text::contains(lowercase(haystack@), lowercase(needle@)),
{
    let h = chars_of(to_lowercase(haystack).as_str());
    let n = chars_of(to_lowercase(needle).as_str());
    contains_in(&h, &n)
}

/// The album order: chronological, or by plays.
#[derive(Clone, Copy, PartialEq, Eq, Structural)]
pub enum Sort {
    Chrono,
    Plays,
}

impl Sort {
    /// The other order.
    pub fn toggled(self) -> (r: Sort)
        ensures
            r != self,
    {
        match self {
            Sort::Chrono => Sort::Plays,
            Sort::Plays => Sort::Chrono,
        }
    }

    /// What the screen says of the order.
    pub fn word(self) -> (r: &'static str)
        ensures
            r@ == match self { Sort::Chrono => "chronological"@, Sort::Plays => "my plays first"@ },
    {
        match self {
            Sort::Chrono => "chronological",
            Sort::Plays => "my plays first",
        }
    }

    /// What the screen says when the order changes to this one.
    pub fn notice(self) -> (r: &'static str)
        ensures
            r@ == match self { Sort::Chrono => "order: chronological"@, Sort::Plays => "order: my plays first"@ },
    {
        match self {
            Sort::Chrono => "order: chronological",
            Sort::Plays => "order: my plays first",
        }
    }
}

/// Which version of a song is kept: an album's rather than a single's, then
/// the oldest release — the version one remembers.
pub open spec fn kept_before(a: TailTrack, b: TailTrack) -> bool {
    let ya: int = match year_of(a.released@) { Some(y) => y as int, None => 65535 };
    let yb: int = match year_of(b.released@) { Some(y) => y as int, None => 65535 };
    (!a.single && b.single) || (a.single == b.single && ya < yb)
}

/// Where, among the kept, a track of the same song is.
pub open spec fn same_song_at(raw: Seq<TailTrack>, kept: Seq<int>, key: Seq<char>, k: int) -> Option<int>
    decreases kept.len() - k,
{
    if k < 0 || k >= kept.len() {
        None
    } else if normal_form(raw[kept[k]].title@) == key {
        Some(k)
    } else {
        same_song_at(raw, kept, key, k + 1)
    }
}

/// One track per song, by index: Spotify delivers the same song five times
/// (album, single, reissue); the first found holds its place, and the
/// version kept is the album's, the oldest.
pub open spec fn one_per_title_of(raw: Seq<TailTrack>, n: int) -> Seq<int>
    decreases n,
{
    if n <= 0 || n > raw.len() {
        seq![]
    } else {
        let kept = one_per_title_of(raw, n - 1);
        let j = n - 1;
        match same_song_at(raw, kept, normal_form(raw[j].title@), 0) {
            None => kept.push(j),
            Some(k) => if kept_before(raw[j], raw[kept[k]]) { kept.update(k, j) } else { kept },
        }
    }
}

proof fn lemma_same_song_at(raw: Seq<TailTrack>, kept: Seq<int>, key: Seq<char>, k: int)
    requires
        0 <= k <= kept.len(),
    ensures
        same_song_at(raw, kept, key, k) matches Some(i) ==> k <= i < kept.len(),
    decreases kept.len() - k,
{
    if k < kept.len() && normal_form(raw[kept[k]].title@) != key {
        lemma_same_song_at(raw, kept, key, k + 1);
    }
}

fn kept_before_exec(a: &TailTrack, b: &TailTrack) -> (r: bool)
    ensures
        r == kept_before(*a, *b),
{
    let ya: u32 = match a.year() { Some(y) => y as u32, None => 65535 };
    let yb: u32 = match b.year() { Some(y) => y as u32, None => 65535 };
    (!a.single && b.single) || (a.single == b.single && ya < yb)
}

/// One track per song, by index into `raw`.
pub fn one_per_title(raw: &Vec<TailTrack>) -> (r: Vec<usize>)
    ensures
        r@.map_values(|i: usize| i as int) == one_per_title_of(raw@, raw@.len() as int),
        forall|k: int| 0 <= k < r@.len() ==> (#[trigger] r@[k]) < raw@.len(),
{
    let mut kept: Vec<usize> = Vec::new();
    let mut keys: Vec<Vec<char>> = Vec::new();
    let mut j: usize = 0;
    while j < raw.len()
        invariant
            j <= raw@.len(),
            kept@.len() == keys@.len(),
            kept@.map_values(|i: usize| i as int) == one_per_title_of(raw@, j as int),
            forall|k: int| 0 <= k < kept@.len() ==> (#[trigger] kept@[k]) < j,
            forall|k: int| 0 <= k < keys@.len() ==> (#[trigger] keys@[k])@ == normal_form(raw@[kept@[k] as int].title@),
        decreases raw@.len() - j,
    {
        let key = chars_of(normalize(raw[j].title.as_str()).as_str());
        let ghost kv = kept@.map_values(|i: usize| i as int);
        proof { lemma_same_song_at(raw@, kv, key@, 0); }
        let mut k: usize = 0;
        while k < kept.len() && !same(&keys[k], &key)
            invariant
                k <= kept@.len(),
                kept@.len() == keys@.len(),
                kv == kept@.map_values(|i: usize| i as int),
                forall|m: int| 0 <= m < keys@.len() ==> (#[trigger] keys@[m])@ == normal_form(raw@[kept@[m] as int].title@),
                forall|m: int| 0 <= m < kept@.len() ==> (#[trigger] kept@[m]) < j,
                j < raw@.len(),
                same_song_at(raw@, kv, key@, 0) == same_song_at(raw@, kv, key@, k as int),
            decreases kept@.len() - k,
        {
            assert(kv[k as int] == kept@[k as int] as int);
            k = k + 1;
        }
        if k == kept.len() {
            kept.push(j);
            keys.push(key);
            assert(kept@.map_values(|i: usize| i as int) =~= kv.push(j as int));
        } else {
            assert(kv[k as int] == kept@[k as int] as int);
            let at = kept[k];
            if kept_before_exec(&raw[j], &raw[at]) {
                kept.set(k, j);
                keys.set(k, key);
                assert(kept@.map_values(|i: usize| i as int) =~= kv.update(k as int, j as int));
            }
        }
        j = j + 1;
    }
    kept
}

/// The top of the card a track stands for: the first whose title is the
/// same song.
pub open spec fn card_top_of(tops: Seq<Seq<char>>, key: Seq<char>) -> Option<Seq<char>>
    decreases tops.len(),
{
    if tops.len() == 0 {
        None
    } else if normal_form(tops[0]) == key {
        Some(tops[0])
    } else {
        card_top_of(tops.drop_first(), key)
    }
}

pub fn card_top(tops: &Vec<String>, title: &str) -> (r: Option<String>)
    ensures
        match r {
            Some(t) => card_top_of(strings(tops@), normal_form(title@)) == Some(t@),
            None => card_top_of(strings(tops@), normal_form(title@)) is None,
        },
{
    let key = chars_of(normalize(title).as_str());
    let ghost tv = strings(tops@);
    assert(tv.skip(0) =~= tv);
    let mut i: usize = 0;
    while i < tops.len()
        invariant
            i <= tops@.len(),
            tv == strings(tops@),
            key@ == normal_form(title@),
            card_top_of(tv, key@) == card_top_of(tv.skip(i as int), key@),
        decreases tops@.len() - i,
    {
        proof {
            assert(tv.skip(i as int).drop_first() =~= tv.skip(i + 1));
            assert(tv.skip(i as int)[0] == tops@[i as int]@);
        }
        if same(&chars_of(normalize(tops[i].as_str()).as_str()), &key) {
            return Some(tops[i].clone());
        }
        i = i + 1;
    }
    None
}

/// The tops the discography does not return: they fall at the end of the
/// list rather than vanish — that is where typos show.
pub open spec fn orphans_of(tops: Seq<Seq<char>>, claimed: Seq<Seq<char>>) -> Seq<Seq<char>>
    decreases tops.len(),
{
    if tops.len() == 0 {
        seq![]
    } else {
        let before = orphans_of(tops.drop_last(), claimed);
        if claimed.contains(tops.last()) { before } else { before.push(tops.last()) }
    }
}

pub fn orphan_tops(tops: &Vec<String>, claimed: &Vec<String>) -> (r: Vec<String>)
    ensures
        strings(r@) == orphans_of(strings(tops@), strings(claimed@)),
{
    let mut out: Vec<String> = Vec::new();
    assert(strings(out@) =~= seq![]);
    let mut i: usize = 0;
    while i < tops.len()
        invariant
            i <= tops@.len(),
            strings(out@) == orphans_of(strings(tops@).take(i as int), strings(claimed@)),
        decreases tops@.len() - i,
    {
        proof {
            assert(strings(tops@).take(i + 1).drop_last() =~= strings(tops@).take(i as int));
            assert(strings(tops@).take(i + 1).last() == tops@[i as int]@);
        }
        let t = chars_of(tops[i].as_str());
        let mut found = false;
        let mut k: usize = 0;
        while k < claimed.len()
            invariant
                k <= claimed@.len(),
                found == exists|m: int| 0 <= m < k && strings(claimed@)[m] == t@,
            decreases claimed@.len() - k,
        {
            if same(&chars_of(claimed[k].as_str()), &t) {
                assert(strings(claimed@)[k as int] == t@);
                found = true;
            }
            k = k + 1;
        }
        assert(found == strings(claimed@).contains(t@));
        if !found {
            let ghost before = out@;
            out.push(tops[i].clone());
            assert(strings(out@) =~= strings(before).push(t@));
        }
        i = i + 1;
    }
    assert(strings(tops@).take(i as int) =~= strings(tops@));
    out
}

// ---------------------------------------------------------------------------
// The screen's lines, and the cursor among them.

/// The lines of one album: the album, and its shown tracks when it is the
/// open one.
pub open spec fn album_rows(index: usize, open_tracks: Seq<usize>, folded: bool, cursor: Cursor) -> Seq<Row> {
    seq![Row::Album(index)] + if !folded && cursor.album == index {
        open_tracks.map_values(|t: usize| Row::Track(index, t))
    } else {
        seq![]
    }
}

/// The screen lines, in order: the albums, and the tracks of the open one.
pub open spec fn rows_of(order: Seq<usize>, open_tracks: Seq<usize>, folded: bool, cursor: Cursor) -> Seq<Row>
    decreases order.len(),
{
    if order.len() == 0 {
        seq![]
    } else {
        rows_of(order.drop_last(), open_tracks, folded, cursor) + album_rows(order.last(), open_tracks, folded, cursor)
    }
}

/// `order` is the albums shown, in order; `open_tracks` the shown tracks of
/// the album under the cursor.
pub fn rows(order: &Vec<usize>, open_tracks: &Vec<usize>, folded: bool, cursor: Cursor) -> (r: Vec<Row>)
    ensures
        r@ == rows_of(order@, open_tracks@, folded, cursor),
{
    let mut out: Vec<Row> = Vec::new();
    let mut i: usize = 0;
    while i < order.len()
        invariant
            i <= order@.len(),
            out@ == rows_of(order@.take(i as int), open_tracks@, folded, cursor),
        decreases order@.len() - i,
    {
        let index = order[i];
        let ghost before = out@;
        out.push(Row::Album(index));
        if !folded && cursor.album == index {
            let mut k: usize = 0;
            while k < open_tracks.len()
                invariant
                    k <= open_tracks@.len(),
                    index == order@[i as int],
                    out@ == before + seq![Row::Album(index)] + open_tracks@.take(k as int).map_values(|t: usize| Row::Track(index, t)),
                decreases open_tracks@.len() - k,
            {
                out.push(Row::Track(index, open_tracks[k]));
                assert(out@ =~= before + seq![Row::Album(index)] + open_tracks@.take(k + 1).map_values(|t: usize| Row::Track(index, t)));
                k = k + 1;
            }
            assert(open_tracks@.take(k as int) =~= open_tracks@);
        }
        assert(order@.take(i + 1).drop_last() =~= order@.take(i as int));
        assert(out@ =~= rows_of(order@.take(i + 1), open_tracks@, folded, cursor));
        i = i + 1;
    }
    assert(order@.take(i as int) =~= order@);
    out
}

/// The cursor is on that line.
pub open spec fn at_spec(cursor: Cursor, row: Row) -> bool {
    match row {
        Row::Album(a) => cursor.album == a && cursor.track is None,
        Row::Track(a, t) => cursor.album == a && cursor.track == Some(t),
    }
}

pub fn at(cursor: Cursor, row: Row) -> (r: bool)
    ensures
        r == at_spec(cursor, row),
{
    match row {
        Row::Album(a) => cursor.album == a && cursor.track.is_none(),
        Row::Track(a, t) => cursor.album == a && cursor.track == Some(t),
    }
}

/// The cursor that stands on a line.
pub open spec fn adopt_spec(row: Row) -> Cursor {
    match row {
        Row::Album(a) => Cursor { album: a, track: None },
        Row::Track(a, t) => Cursor { album: a, track: Some(t) },
    }
}

pub fn adopt(row: Row) -> (c: Cursor)
    ensures
        c == adopt_spec(row),
{
    match row {
        Row::Album(a) => Cursor { album: a, track: None },
        Row::Track(a, t) => Cursor { album: a, track: Some(t) },
    }
}

/// Which line the cursor is on: the first it stands on, else the first.
pub open spec fn position_from(rows: Seq<Row>, cursor: Cursor, i: int) -> int
    decreases rows.len() - i,
{
    if i < 0 || i >= rows.len() { 0 } else if at_spec(cursor, rows[i]) { i } else { position_from(rows, cursor, i + 1) }
}

/// Where a step of `step` lines from the cursor lands, kept within the
/// screen; nothing moves on an empty screen.
pub open spec fn moved(rows: Seq<Row>, cursor: Cursor, step: int) -> Cursor {
    if rows.len() == 0 {
        cursor
    } else {
        let next = position_from(rows, cursor, 0) + step;
        let clamped = if next < 0 { 0 } else if next > rows.len() - 1 { rows.len() - 1 } else { next };
        adopt_spec(rows[clamped])
    }
}

pub fn move_by(rows: &Vec<Row>, cursor: Cursor, step: isize) -> (c: Cursor)
    requires
        rows@.len() <= isize::MAX,
    ensures
        c == moved(rows@, cursor, step as int),
{
    if rows.len() == 0 {
        return cursor;
    }
    let mut i: usize = 0;
    while i < rows.len() && !at(cursor, rows[i])
        invariant
            i <= rows@.len(),
            position_from(rows@, cursor, 0) == position_from(rows@, cursor, i as int),
        decreases rows@.len() - i,
    {
        i = i + 1;
    }
    let here: usize = if i < rows.len() { i } else { 0 };
    assert(here == position_from(rows@, cursor, 0));
    let last: usize = rows.len() - 1;
    let next: usize = if step < 0 {
        let back: usize = if step == isize::MIN { usize::MAX } else { (-step) as usize };
        if back > here { 0 } else { here - back }
    } else {
        let ahead = step as usize;
        if ahead > last - here { last } else { here + ahead }
    };
    proof {
        assert(here < rows@.len());
        let n = here + step as int;
        let want = if n < 0 { 0 } else if n > rows@.len() - 1 { rows@.len() - 1 } else { n };
        if step < 0 {
            if step == isize::MIN {
                assert(n < 0);
            } else {
                assert((-step) as usize as int == -(step as int));
            }
        } else {
            assert(step as usize as int == step as int);
        }
        assert(next as int == want);
    }
    adopt(rows[next])
}

/// The cursor stays on something that exists: else on the first album shown
/// (or nothing, on an empty screen).
pub open spec fn clamped(rows: Seq<Row>, order: Seq<usize>, cursor: Cursor) -> Cursor {
    if rows.len() == 0 {
        Cursor { album: 0, track: None }
    } else if exists|i: int| 0 <= i < rows.len() && at_spec(cursor, #[trigger] rows[i]) {
        cursor
    } else {
        Cursor { album: if order.len() > 0 { order[0] } else { 0 }, track: None }
    }
}

pub fn clamp(rows: &Vec<Row>, order: &Vec<usize>, cursor: Cursor) -> (c: Cursor)
    ensures
        c == clamped(rows@, order@, cursor),
{
    if rows.len() == 0 {
        return Cursor { album: 0, track: None };
    }
    let mut i: usize = 0;
    while i < rows.len()
        invariant
            i <= rows@.len(),
            forall|k: int| 0 <= k < i ==> !at_spec(cursor, #[trigger] rows@[k]),
        decreases rows@.len() - i,
    {
        if at(cursor, rows[i]) {
            return cursor;
        }
        i = i + 1;
    }
    Cursor { album: if order.len() > 0 { order[0] } else { 0 }, track: None }
}

/// The first line, or the cursor as it is on an empty screen.
pub fn go_top(rows: &Vec<Row>, cursor: Cursor) -> (c: Cursor)
    ensures
        c == if rows@.len() > 0 { adopt_spec(rows@[0]) } else { cursor },
{
    if rows.len() > 0 { adopt(rows[0]) } else { cursor }
}

/// The last line, or the cursor as it is on an empty screen.
pub fn go_bottom(rows: &Vec<Row>, cursor: Cursor) -> (c: Cursor)
    ensures
        c == if rows@.len() > 0 { adopt_spec(rows@.last()) } else { cursor },
{
    if rows.len() > 0 { adopt(rows[rows.len() - 1]) } else { cursor }
}

/// A line adopted is a line the cursor stands on: a move, the top and the
/// bottom always leave the cursor on a line of a screen that has some.
pub proof fn moves_stay_on_screen(rows: Seq<Row>, cursor: Cursor, step: int)
    ensures
        rows.len() > 0 ==> exists|k: int| 0 <= k < rows.len() && at_spec(moved(rows, cursor, step), #[trigger] rows[k]),
        forall|k: int| 0 <= k < rows.len() ==> at_spec(adopt_spec(#[trigger] rows[k]), rows[k]),
{
    if rows.len() > 0 {
        let next = position_from(rows, cursor, 0) + step;
        let clamped = if next < 0 { 0 } else if next > rows.len() - 1 { rows.len() - 1 } else { next };
        assert(at_spec(moved(rows, cursor, step), rows[clamped]));
    }
}

// ---------------------------------------------------------------------------
// What is prepared: the corrections waiting for one commit.

/// The prepared corrections, as (added, title).
pub open spec fn pending_view(p: Seq<Pending>) -> Seq<(bool, Seq<char>)> {
    p.map_values(|e: Pending| (e.add, e.title@))
}

/// The titles the batch adds, in order.
pub open spec fn adds_of(p: Seq<(bool, Seq<char>)>) -> Seq<Seq<char>>
    decreases p.len(),
{
    if p.len() == 0 {
        seq![]
    } else {
        let r = adds_of(p.drop_last());
        if p.last().0 { r.push(p.last().1) } else { r }
    }
}

/// The titles the batch removes, in order.
pub open spec fn removes_of(p: Seq<(bool, Seq<char>)>) -> Seq<Seq<char>>
    decreases p.len(),
{
    if p.len() == 0 {
        seq![]
    } else {
        let r = removes_of(p.drop_last());
        if !p.last().0 { r.push(p.last().1) } else { r }
    }
}

fn titles_where(pending: &Vec<Pending>, add: bool) -> (r: Vec<String>)
    ensures
        strings(r@) == if add { adds_of(pending_view(pending@)) } else { removes_of(pending_view(pending@)) },
{
    let ghost pv = pending_view(pending@);
    let mut r: Vec<String> = Vec::new();
    let mut i: usize = 0;
    assert(pv.take(0) =~= seq![]);
    while i < pending.len()
        invariant
            i <= pending@.len(),
            pv == pending_view(pending@),
            strings(r@) == if add { adds_of(pv.take(i as int)) } else { removes_of(pv.take(i as int)) },
        decreases pending@.len() - i,
    {
        assert(pv.take(i + 1).drop_last() =~= pv.take(i as int));
        if pending[i].add == add {
            let ghost before = r@;
            r.push(pending[i].title.clone());
            assert(strings(r@) =~= strings(before).push(pending@[i as int].title@));
        }
        i = i + 1;
    }
    assert(pv.take(i as int) =~= pv);
    r
}

/// The titles the batch adds.
pub fn adds(pending: &Vec<Pending>) -> (r: Vec<String>)
    ensures
        strings(r@) == adds_of(pending_view(pending@)),
{
    titles_where(pending, true)
}

/// The titles the batch removes.
pub fn removes(pending: &Vec<Pending>) -> (r: Vec<String>)
    ensures
        strings(r@) == removes_of(pending_view(pending@)),
{
    titles_where(pending, false)
}

/// What the batch becomes in the card: shown before pressing, and the
/// commit's subject.
pub fn commit_line(name: &str, pending: &Vec<Pending>) -> (r: String)
    ensures
        r@ == name@ + " \u{2014} tops: +"@ + decimal(adds_of(pending_view(pending@)).len())
            + " \u{2212}"@ + decimal(removes_of(pending_view(pending@)).len()),
{
    let a = adds(pending);
    let d = removes(pending);
    let mut v: Vec<char> = Vec::new();
    push_str(&mut v, name);
    push_str(&mut v, " \u{2014} tops: +");
    let n = decimal_of(a.len() as u64);
    push_all(&mut v, &n);
    push_str(&mut v, " \u{2212}");
    let m = decimal_of(d.len() as u64);
    push_all(&mut v, &m);
    string_of(&v)
}

/// `u`: the last prepared correction taken back, for free — nothing is
/// written until validated. What the screen says of it.
pub fn undo(pending: &mut Vec<Pending>) -> (notice: String)
    ensures
        old(pending)@.len() == 0 ==> final(pending)@ == old(pending)@ && notice@ == "(nothing to undo)"@,
        old(pending)@.len() > 0 ==> final(pending)@ == old(pending)@.drop_last()
            && notice@ == "\u{21ba} "@ + (if old(pending)@.last().add { "\u{266a}+"@ } else { "\u{266a}\u{2212}"@ })
                + " "@ + old(pending)@.last().title@ + " \u{2014} undone"@,
{
    match pending.pop() {
        Some(edit) => {
            let mut v: Vec<char> = Vec::new();
            push_str(&mut v, "\u{21ba} ");
            push_str(&mut v, if edit.add { "\u{266a}+" } else { "\u{266a}\u{2212}" });
            push_str(&mut v, " ");
            push_str(&mut v, edit.title.as_str());
            push_str(&mut v, " \u{2014} undone");
            string_of(&v)
        },
        None => String::from_str("(nothing to undo)"),
    }
}

/// The first prepared correction on the same track as `title`, so as not to
/// stack two.
pub open spec fn pending_on_of(p: Seq<(bool, Seq<char>)>, key: Seq<char>, i: int) -> Option<int>
    decreases p.len() - i,
{
    if i < 0 || i >= p.len() {
        None
    } else if normal_form(p[i].1) == key {
        Some(i)
    } else {
        pending_on_of(p, key, i + 1)
    }
}

pub fn pending_on(pending: &Vec<Pending>, title: &str) -> (r: Option<usize>)
    ensures
        match r {
            Some(i) => pending_on_of(pending_view(pending@), normal_form(title@), 0) == Some(i as int),
            None => pending_on_of(pending_view(pending@), normal_form(title@), 0) is None,
        },
{
    let key = chars_of(normalize(title).as_str());
    let ghost pv = pending_view(pending@);
    let mut i: usize = 0;
    while i < pending.len()
        invariant
            i <= pending@.len(),
            pv == pending_view(pending@),
            key@ == normal_form(title@),
            pending_on_of(pv, key@, 0) == pending_on_of(pv, key@, i as int),
        decreases pending@.len() - i,
    {
        assert(pv[i as int].1 == pending@[i as int].title@);
        if same(&chars_of(normalize(pending[i].title.as_str()).as_str()), &key) {
            return Some(i);
        }
        i = i + 1;
    }
    None
}

/// The tops without any that is the same track as `key`.
pub open spec fn without_track(tops: Seq<Seq<char>>, key: Seq<char>) -> Seq<Seq<char>>
    decreases tops.len(),
{
    if tops.len() == 0 {
        seq![]
    } else {
        let r = without_track(tops.drop_last(), key);
        if normal_form(tops.last()) != key { r.push(tops.last()) } else { r }
    }
}

pub open spec fn has_track(tops: Seq<Seq<char>>, key: Seq<char>) -> bool {
    exists|i: int| 0 <= i < tops.len() && normal_form(tops[i]) == key
}

/// The tops once the batch is written: an addition the card already has
/// as the same track changes nothing, a removal takes every spelling of
/// it.
pub open spec fn tops_after(tops: Seq<Seq<char>>, p: Seq<(bool, Seq<char>)>) -> Seq<Seq<char>>
    decreases p.len(),
{
    if p.len() == 0 {
        tops
    } else {
        let t = tops_after(tops, p.drop_last());
        let e = p.last();
        let key = normal_form(e.1);
        if e.0 {
            if has_track(t, key) { t } else { t.push(e.1) }
        } else {
            without_track(t, key)
        }
    }
}

fn has_track_exec(tops: &Vec<String>, key: &Vec<char>) -> (r: bool)
    ensures
        r == has_track(strings(tops@), key@),
{
    let mut i: usize = 0;
    while i < tops.len()
        invariant
            i <= tops@.len(),
            forall|k: int| 0 <= k < i ==> normal_form(#[trigger] strings(tops@)[k]) != key@,
        decreases tops@.len() - i,
    {
        if same(&chars_of(normalize(tops[i].as_str()).as_str()), key) {
            assert(normal_form(strings(tops@)[i as int]) == key@);
            return true;
        }
        i = i + 1;
    }
    false
}

fn without_track_exec(tops: &Vec<String>, key: &Vec<char>) -> (r: Vec<String>)
    ensures
        strings(r@) == without_track(strings(tops@), key@),
{
    let ghost tv = strings(tops@);
    let mut r: Vec<String> = Vec::new();
    let mut i: usize = 0;
    assert(tv.take(0) =~= seq![]);
    while i < tops.len()
        invariant
            i <= tops@.len(),
            tv == strings(tops@),
            strings(r@) == without_track(tv.take(i as int), key@),
        decreases tops@.len() - i,
    {
        assert(tv.take(i + 1).drop_last() =~= tv.take(i as int));
        if !same(&chars_of(normalize(tops[i].as_str()).as_str()), key) {
            let ghost before = r@;
            r.push(tops[i].clone());
            assert(strings(r@) =~= strings(before).push(tv[i as int]));
        }
        i = i + 1;
    }
    assert(tv.take(i as int) =~= tv);
    r
}

/// The edits have been written: the tops the screen adopts, without
/// rereading the catalog, so that it tells the truth right away.
pub fn written(tops: &Vec<String>, pending: &Vec<Pending>) -> (r: Vec<String>)
    ensures
        strings(r@) == tops_after(strings(tops@), pending_view(pending@)),
{
    let ghost pv = pending_view(pending@);
    let mut t: Vec<String> = tops.clone();
    assert(strings(t@) =~= strings(tops@));
    let mut i: usize = 0;
    assert(pv.take(0) =~= seq![]);
    while i < pending.len()
        invariant
            i <= pending@.len(),
            pv == pending_view(pending@),
            strings(t@) == tops_after(strings(tops@), pv.take(i as int)),
        decreases pending@.len() - i,
    {
        assert(pv.take(i + 1).drop_last() =~= pv.take(i as int));
        assert(pv.take(i + 1).last() == (pending@[i as int].add, pending@[i as int].title@));
        let key = chars_of(normalize(pending[i].title.as_str()).as_str());
        if pending[i].add {
            if !has_track_exec(&t, &key) {
                let ghost before = t@;
                t.push(pending[i].title.clone());
                assert(strings(t@) =~= strings(before).push(pending@[i as int].title@));
            }
        } else {
            t = without_track_exec(&t, &key);
        }
        i = i + 1;
    }
    assert(pv.take(i as int) =~= pv);
    t
}

proof fn lemma_without_track(tops: Seq<Seq<char>>, key: Seq<char>, k: Seq<char>)
    ensures
        k == key ==> !has_track(without_track(tops, key), k),
        k != key ==> (has_track(without_track(tops, key), k) <==> has_track(tops, k)),
    decreases tops.len(),
{
    if tops.len() > 0 {
        let init = tops.drop_last();
        let last = tops.last();
        lemma_without_track(init, key, k);
        let r = without_track(init, key);
        let w = without_track(tops, key);
        if normal_form(last) != key {
            assert(w == r.push(last));
        } else {
            assert(w == r);
        }
        if has_track(w, k) {
            let i = choose|i: int| 0 <= i < w.len() && normal_form(w[i]) == k;
            if i < r.len() {
                assert(w[i] == r[i]);
                assert(has_track(r, k));
                if k != key {
                    let j = choose|j: int| 0 <= j < init.len() && normal_form(init[j]) == k;
                    assert(tops[j] == init[j]);
                }
            } else {
                assert(w[i] == last);
                assert(tops[tops.len() - 1] == last);
            }
        }
        if k != key && has_track(tops, k) {
            let j = choose|j: int| 0 <= j < tops.len() && normal_form(tops[j]) == k;
            if j == tops.len() - 1 {
                assert(normal_form(last) == k);
                assert(w[r.len() as int] == last);
            } else {
                assert(init[j] == tops[j]);
                assert(has_track(init, k));
                let i = choose|i: int| 0 <= i < r.len() && normal_form(r[i]) == k;
                assert(w[i] == r[i]);
            }
        }
    }
}

/// What is written becomes true on the screen: a track added is among the
/// tops afterwards, and adding it again changes nothing; a track removed
/// is gone under every spelling, and the other tracks stay as they were.
pub proof fn what_is_written_becomes_true(tops: Seq<Seq<char>>, title: Seq<char>, other: Seq<char>)
    ensures
        has_track(tops_after(tops, seq![(true, title)]), normal_form(title)),
        tops_after(tops, seq![(true, title), (true, title)]) == tops_after(tops, seq![(true, title)]),
        !has_track(tops_after(tops, seq![(false, title)]), normal_form(title)),
        other != normal_form(title) ==>
            (has_track(tops_after(tops, seq![(false, title)]), other) <==> has_track(tops, other)),
{
    let key = normal_form(title);
    let none: Seq<(bool, Seq<char>)> = seq![];
    let one = seq![(true, title)];
    let two = seq![(true, title), (true, title)];
    let del = seq![(false, title)];
    assert(tops_after(tops, none) == tops);
    assert(one.drop_last() =~= none);
    assert(two.drop_last() =~= one);
    assert(del.drop_last() =~= none);
    let t = tops_after(tops, one);
    if has_track(tops, key) {
        assert(t == tops);
    } else {
        assert(t == tops.push(title));
        assert(t[tops.len() as int] == title);
    }
    assert(has_track(t, key));
    assert(tops_after(tops, two) == t);
    assert(tops_after(tops, del) == without_track(tops, key));
    lemma_without_track(tops, key, key);
    lemma_without_track(tops, key, other);
}

/// `/` on the screen: the query kept, trimmed, and what the screen says of
/// it.
pub fn search(query: &str) -> (r: (String, String))
    ensures
        r.0@ == trim(query@),
        r.1@ == if trim(query@).len() == 0 { "filter cleared"@ } else { "filter: \""@ + trim(query@) + "\""@ },
{
    let q = trim_exec(&chars_of(query));
    let notice = if q.len() == 0 {
        String::from_str("filter cleared")
    } else {
        let mut v: Vec<char> = Vec::new();
        push_str(&mut v, "filter: \"");
        push_all(&mut v, &q);
        push_str(&mut v, "\"");
        string_of(&v)
    };
    (string_of(&q), notice)
}

/// What the screen says when the filter turns.
pub fn filter_notice(f: Filter) -> (r: String)
    ensures
        r@ == "filter: "@ + f.word_spec(),
{
    let mut v: Vec<char> = Vec::new();
    push_str(&mut v, "filter: ");
    push_str(&mut v, f.word());
    string_of(&v)
}

// ---------------------------------------------------------------------------
// The albums, built from the discography and the card.

/// A line of the screen under an album: a track, or a top of the card the
/// discography does not return. Its plays, a float, are the caller's.
pub struct Track {
    pub title: String,
    /// The exact string of the card when this track is a top there: the one
    /// a removal must target.
    pub card_top: Option<String>,
    pub number: u32,
    pub duration_ms: u32,
    pub liked: bool,
    pub banned: bool,
    pub days: Option<i64>,
}

pub struct TrackView {
    pub title: Seq<char>,
    pub card_top: Option<Seq<char>>,
    pub number: u32,
    pub duration_ms: u32,
    pub liked: bool,
    pub banned: bool,
    pub days: Option<i64>,
}

impl View for Track {
    type V = TrackView;

    open spec fn view(&self) -> TrackView {
        TrackView {
            title: self.title@,
            card_top: crate::fork::opt_view(self.card_top),
            number: self.number,
            duration_ms: self.duration_ms,
            liked: self.liked,
            banned: self.banned,
            days: self.days,
        }
    }
}

impl Track {
    pub fn is_top(&self) -> (r: bool)
        ensures
            r == self.card_top is Some,
    {
        self.card_top.is_some()
    }
}

pub struct Album {
    pub title: String,
    pub year: Option<u16>,
    pub single: bool,
    /// The tops of the card the discography does not contain: typos, live
    /// versions, compilation titles.
    pub orphan: bool,
    pub tracks: Vec<Track>,
}

pub struct AlbumView {
    pub title: Seq<char>,
    pub year: Option<u16>,
    pub single: bool,
    pub orphan: bool,
    pub tracks: Seq<TrackView>,
}

pub open spec fn tracks_view(v: Seq<Track>) -> Seq<TrackView> {
    v.map_values(|t: Track| t@)
}

impl View for Album {
    type V = AlbumView;

    open spec fn view(&self) -> AlbumView {
        AlbumView {
            title: self.title@,
            year: self.year,
            single: self.single,
            orphan: self.orphan,
            tracks: tracks_view(self.tracks@),
        }
    }
}

pub open spec fn albums_view(v: Seq<Album>) -> Seq<AlbumView> {
    v.map_values(|a: Album| a@)
}

/// What the listening knows of a track, by title: days since it last
/// sounded, liked, banned.
pub open spec fn stats_view(v: Seq<(String, Option<i64>, bool, bool)>) -> Seq<(Seq<char>, Option<i64>, bool, bool)> {
    v.map_values(|s: (String, Option<i64>, bool, bool)| (s.0@, s.1, s.2, s.3))
}

/// The first thing the listening knows of the same song, or nothing.
pub open spec fn stat_of(stats: Seq<(Seq<char>, Option<i64>, bool, bool)>, key: Seq<char>) -> (Option<i64>, bool, bool)
    decreases stats.len(),
{
    if stats.len() == 0 {
        (None, false, false)
    } else if normal_form(stats[0].0) == key {
        (stats[0].1, stats[0].2, stats[0].3)
    } else {
        stat_of(stats.drop_first(), key)
    }
}

fn stat_exec(stats: &Vec<(String, Option<i64>, bool, bool)>, title: &str) -> (r: (Option<i64>, bool, bool))
    ensures
        r == stat_of(stats_view(stats@), normal_form(title@)),
{
    let key = chars_of(normalize(title).as_str());
    let ghost sv = stats_view(stats@);
    assert(sv.skip(0) =~= sv);
    let mut i: usize = 0;
    while i < stats.len()
        invariant
            i <= stats@.len(),
            sv == stats_view(stats@),
            key@ == normal_form(title@),
            stat_of(sv, key@) == stat_of(sv.skip(i as int), key@),
        decreases stats@.len() - i,
    {
        proof {
            assert(sv.skip(i as int).drop_first() =~= sv.skip(i + 1));
            assert(sv.skip(i as int)[0] == sv[i as int]);
        }
        if same(&chars_of(normalize(stats[i].0.as_str()).as_str()), &key) {
            return (stats[i].1, stats[i].2, stats[i].3);
        }
        i = i + 1;
    }
    assert(sv.skip(i as int) =~= seq![]);
    (None, false, false)
}

/// The line of a kept track.
pub open spec fn track_of(
    raw: Seq<TailTrack>,
    tops: Seq<Seq<char>>,
    stats: Seq<(Seq<char>, Option<i64>, bool, bool)>,
    j: int,
) -> TrackView {
    let t = raw[j];
    let s = stat_of(stats, normal_form(t.title@));
    TrackView {
        title: t.title@,
        card_top: card_top_of(tops, normal_form(t.title@)),
        number: t.number,
        duration_ms: t.duration_ms,
        liked: s.1,
        banned: s.2,
        days: s.0,
    }
}

/// The first album of that title.
pub open spec fn album_slot(g: Seq<AlbumView>, title: Seq<char>, i: int) -> Option<int>
    decreases g.len() - i,
{
    if i < 0 || i >= g.len() {
        None
    } else if g[i].title == title {
        Some(i)
    } else {
        album_slot(g, title, i + 1)
    }
}

/// The kept tracks, grouped by album in the order albums first appear.
pub open spec fn grouped(
    raw: Seq<TailTrack>,
    tops: Seq<Seq<char>>,
    stats: Seq<(Seq<char>, Option<i64>, bool, bool)>,
    ks: Seq<int>,
) -> Seq<AlbumView>
    decreases ks.len(),
{
    if ks.len() == 0 {
        seq![]
    } else {
        let g = grouped(raw, tops, stats, ks.drop_last());
        let j = ks.last();
        let tv = track_of(raw, tops, stats, j);
        match album_slot(g, raw[j].album@, 0) {
            Some(i) => g.update(i, AlbumView { tracks: g[i].tracks.push(tv), ..g[i] }),
            None => g.push(AlbumView {
                title: raw[j].album@,
                year: year_of(raw[j].released@),
                single: raw[j].single,
                orphan: false,
                tracks: seq![tv],
            }),
        }
    }
}

/// The tops the kept tracks stand for, in order.
pub open spec fn claimed_of(raw: Seq<TailTrack>, tops: Seq<Seq<char>>, ks: Seq<int>) -> Seq<Seq<char>>
    decreases ks.len(),
{
    if ks.len() == 0 {
        seq![]
    } else {
        let c = claimed_of(raw, tops, ks.drop_last());
        match card_top_of(tops, normal_form(raw[ks.last()].title@)) {
            Some(top) => c.push(top),
            None => c,
        }
    }
}

/// The line of a top the discography does not return.
pub open spec fn orphan_track(stats: Seq<(Seq<char>, Option<i64>, bool, bool)>, top: Seq<char>) -> TrackView {
    let s = stat_of(stats, normal_form(top));
    TrackView { title: top, card_top: Some(top), number: 0, duration_ms: 0, liked: s.1, banned: s.2, days: s.0 }
}

/// The screen's albums: one track per song, grouped by album, each marked
/// with the top of the card it stands for; the tops the discography does
/// not return close the list, under an album of their own.
pub open spec fn build_of(
    raw: Seq<TailTrack>,
    tops: Seq<Seq<char>>,
    stats: Seq<(Seq<char>, Option<i64>, bool, bool)>,
) -> Seq<AlbumView> {
    let ks = one_per_title_of(raw, raw.len() as int);
    let g = grouped(raw, tops, stats, ks);
    let orphans = orphans_of(tops, claimed_of(raw, tops, ks));
    if orphans.len() > 0 {
        g.push(AlbumView {
            title: "tops outside the discography"@,
            year: None,
            single: false,
            orphan: true,
            tracks: orphans.map_values(|top: Seq<char>| orphan_track(stats, top)),
        })
    } else {
        g
    }
}

proof fn lemma_album_slot(g: Seq<AlbumView>, title: Seq<char>, i: int)
    requires
        0 <= i <= g.len(),
    ensures
        album_slot(g, title, i) matches Some(k) ==> i <= k < g.len() && g[k].title == title,
    decreases g.len() - i,
{
    if i < g.len() && g[i].title != title {
        lemma_album_slot(g, title, i + 1);
    }
}

fn find_album(albums: &Vec<Album>, title: &str) -> (r: Option<usize>)
    ensures
        match r {
            Some(i) => album_slot(albums_view(albums@), title@, 0) == Some(i as int),
            None => album_slot(albums_view(albums@), title@, 0) is None,
        },
{
    let ghost g = albums_view(albums@);
    let mut i: usize = 0;
    while i < albums.len()
        invariant
            i <= albums@.len(),
            g == albums_view(albums@),
            album_slot(g, title@, 0) == album_slot(g, title@, i as int),
        decreases albums@.len() - i,
    {
        assert(g[i as int].title == albums@[i as int].title@);
        if same_str(albums[i].title.as_str(), title) {
            return Some(i);
        }
        i = i + 1;
    }
    None
}

/// Rebuild the albums from the raw material: the discography, the card's
/// tops, and what the listening knows of each track.
pub fn build(raw: &Vec<TailTrack>, tops: &Vec<String>, stats: &Vec<(String, Option<i64>, bool, bool)>) -> (r: Vec<Album>)
    ensures
        albums_view(r@) == build_of(raw@, strings(tops@), stats_view(stats@)),
{
    let ks = one_per_title(raw);
    let ghost kv = ks@.map_values(|i: usize| i as int);
    let ghost tv = strings(tops@);
    let ghost sv = stats_view(stats@);
    let mut albums: Vec<Album> = Vec::new();
    let mut claimed: Vec<String> = Vec::new();
    let mut m: usize = 0;
    assert(kv.take(0) =~= seq![]);
    assert(albums_view(albums@) =~= seq![]);
    assert(strings(claimed@) =~= seq![]);
    while m < ks.len()
        invariant
            m <= ks@.len(),
            kv == ks@.map_values(|i: usize| i as int),
            kv == one_per_title_of(raw@, raw@.len() as int),
            forall|k: int| 0 <= k < ks@.len() ==> (#[trigger] ks@[k]) < raw@.len(),
            tv == strings(tops@),
            sv == stats_view(stats@),
            albums_view(albums@) == grouped(raw@, tv, sv, kv.take(m as int)),
            strings(claimed@) == claimed_of(raw@, tv, kv.take(m as int)),
        decreases ks@.len() - m,
    {
        let j = ks[m];
        proof {
            assert(kv.take(m + 1).drop_last() =~= kv.take(m as int));
            assert(kv.take(m + 1).last() == j as int);
        }
        let t = &raw[j];
        let top = card_top(tops, t.title.as_str());
        match &top {
            Some(s) => {
                let ghost before = claimed@;
                claimed.push(s.clone());
                assert(strings(claimed@) =~= strings(before).push(s@));
            },
            None => {},
        }
        let (days, liked, banned) = stat_exec(stats, t.title.as_str());
        let row = Track { title: t.title.clone(), card_top: top, number: t.number, duration_ms: t.duration_ms, liked, banned, days };
        assert(row@ == track_of(raw@, tv, sv, j as int));
        let ghost g = albums_view(albums@);
        proof { lemma_album_slot(g, t.album@, 0); }
        match find_album(&albums, t.album.as_str()) {
            Some(i) => {
                let mut a = albums.remove(i);
                assert(a@ == g[i as int]);
                let ghost old_tracks = a.tracks@;
                a.tracks.push(row);
                assert(tracks_view(a.tracks@) =~= tracks_view(old_tracks).push(row@));
                albums.insert(i, a);
                assert(albums_view(albums@) =~= g.update(i as int, AlbumView { tracks: g[i as int].tracks.push(row@), ..g[i as int] }));
            },
            None => {
                let mut tracks: Vec<Track> = Vec::new();
                tracks.push(row);
                assert(tracks_view(tracks@) =~= seq![row@]);
                let album = Album { title: t.album.clone(), year: t.year(), single: t.single, orphan: false, tracks };
                albums.push(album);
                assert(albums_view(albums@) =~= g.push(album@));
            },
        }
        m = m + 1;
    }
    assert(kv.take(m as int) =~= kv);
    let orphans = orphan_tops(tops, &claimed);
    if orphans.len() > 0 {
        let ghost ov = strings(orphans@);
        let mut tracks: Vec<Track> = Vec::new();
        let mut k: usize = 0;
        while k < orphans.len()
            invariant
                k <= orphans@.len(),
                ov == strings(orphans@),
                sv == stats_view(stats@),
                tracks_view(tracks@) == ov.take(k as int).map_values(|top: Seq<char>| orphan_track(sv, top)),
            decreases orphans@.len() - k,
        {
            let (days, liked, banned) = stat_exec(stats, orphans[k].as_str());
            let row = Track {
                title: orphans[k].clone(),
                card_top: Some(orphans[k].clone()),
                number: 0,
                duration_ms: 0,
                liked,
                banned,
                days,
            };
            let ghost before = tracks@;
            tracks.push(row);
            assert(ov[k as int] == orphans@[k as int]@);
            assert(tracks_view(tracks@) =~= tracks_view(before).push(orphan_track(sv, ov[k as int])));
            assert(ov.take(k + 1) =~= ov.take(k as int).push(ov[k as int]));
            assert(tracks_view(tracks@) =~= ov.take(k + 1).map_values(|top: Seq<char>| orphan_track(sv, top)));
            k = k + 1;
        }
        assert(ov.take(k as int) =~= ov);
        let album = Album {
            title: String::from_str("tops outside the discography"),
            year: None,
            single: false,
            orphan: true,
            tracks,
        };
        let ghost g = albums_view(albums@);
        albums.push(album);
        assert(albums_view(albums@) =~= g.push(album@));
    }
    albums
}

/// Whether a track passes the provenance filter.
pub open spec fn passes(f: Filter, t: TrackView) -> bool {
    match f {
        Filter::All => true,
        Filter::Tops => t.card_top is Some,
        Filter::Liked => t.liked,
        Filter::Banned => t.banned,
    }
}

/// Whether a track shows: it passes the filter, and its title holds the
/// search, case aside, when there is one.
pub open spec fn shows_track(f: Filter, query: Seq<char>, t: TrackView) -> bool {
    passes(f, t) && (query.len() == 0 || crate::text::contains(lowercase(t.title), lowercase(query)))
}

/// Whether an album shows: one whose name holds the search opens in full
/// (its tracks that pass the filter); otherwise, when one of its tracks
/// shows.
pub open spec fn shows_album(f: Filter, query: Seq<char>, a: AlbumView) -> bool {
    if query.len() > 0 && crate::text::contains(lowercase(a.title), lowercase(query)) {
        exists|i: int| 0 <= i < a.tracks.len() && passes(f, #[trigger] a.tracks[i])
    } else {
        exists|i: int| 0 <= i < a.tracks.len() && shows_track(f, query, #[trigger] a.tracks[i])
    }
}

fn passes_exec(f: Filter, t: &Track) -> (r: bool)
    ensures
        r == passes(f, t@),
{
    match f {
        Filter::All => true,
        Filter::Tops => t.card_top.is_some(),
        Filter::Liked => t.liked,
        Filter::Banned => t.banned,
    }
}

pub fn visible_track(filter: Filter, query: &str, track: &Track) -> (r: bool)
    ensures
        r == shows_track(filter, query@, track@),
{
    passes_exec(filter, track) && (chars_of(query).len() == 0 || contains(track.title.as_str(), query))
}

pub fn visible_album(filter: Filter, query: &str, album: &Album) -> (r: bool)
    ensures
        r == shows_album(filter, query@, album@),
{
    let named = chars_of(query).len() > 0 && contains(album.title.as_str(), query);
    let ghost tv = tracks_view(album.tracks@);
    let mut i: usize = 0;
    while i < album.tracks.len()
        invariant
            i <= album.tracks@.len(),
            tv == tracks_view(album.tracks@),
            named == (query@.len() > 0 && crate::text::contains(lowercase(album.title@), lowercase(query@))),
            forall|k: int| 0 <= k < i ==> !(if named { passes(filter, #[trigger] tv[k]) } else { shows_track(filter, query@, tv[k]) }),
        decreases album.tracks@.len() - i,
    {
        let hit = if named { passes_exec(filter, &album.tracks[i]) } else { visible_track(filter, query, &album.tracks[i]) };
        assert(tv[i as int] == album.tracks@[i as int]@);
        if hit {
            assert(album@.tracks[i as int] == tv[i as int]);
            return true;
        }
        i = i + 1;
    }
    false
}

impl Album {
    /// How many of its tracks are tops of the card.
    pub fn tops(&self) -> (r: usize)
        ensures
            r == count_where(tracks_view(self.tracks@), 0),
    {
        self.count(0)
    }

    pub fn liked(&self) -> (r: usize)
        ensures
            r == count_where(tracks_view(self.tracks@), 1),
    {
        self.count(1)
    }

    pub fn banned(&self) -> (r: usize)
        ensures
            r == count_where(tracks_view(self.tracks@), 2),
    {
        self.count(2)
    }

    fn count(&self, what: u8) -> (r: usize)
        ensures
            r == count_where(tracks_view(self.tracks@), what),
    {
        let ghost tv = tracks_view(self.tracks@);
        let mut n: usize = 0;
        let mut i: usize = 0;
        assert(tv.take(0) =~= seq![]);
        while i < self.tracks.len()
            invariant
                i <= self.tracks@.len(),
                tv == tracks_view(self.tracks@),
                n == count_where(tv.take(i as int), what),
                n <= i,
            decreases self.tracks@.len() - i,
        {
            assert(tv.take(i + 1).drop_last() =~= tv.take(i as int));
            assert(tv[i as int] == self.tracks@[i as int]@);
            let t = &self.tracks[i];
            let hit = if what == 0 {
                t.card_top.is_some()
            } else if what == 1 {
                t.liked
            } else if what == 2 {
                t.banned
            } else {
                t.liked && t.card_top.is_none()
            };
            if hit {
                n = n + 1;
            }
            i = i + 1;
        }
        assert(tv.take(i as int) =~= tv);
        n
    }
}

/// How many tracks are tops (0), liked (1), banned (2), or liked without
/// being tops (otherwise).
pub open spec fn count_where(ts: Seq<TrackView>, what: u8) -> nat
    decreases ts.len(),
{
    if ts.len() == 0 {
        0
    } else {
        let t = ts.last();
        let hit = if what == 0 {
            t.card_top is Some
        } else if what == 1 {
            t.liked
        } else if what == 2 {
            t.banned
        } else {
            t.liked && t.card_top is None
        };
        count_where(ts.drop_last(), what) + if hit { 1nat } else { 0nat }
    }
}

// ---------------------------------------------------------------------------
// The chronological order of the albums.

/// A year for the order: none sorts last.
pub open spec fn year_key(y: Option<u16>) -> int {
    match y {
        Some(v) => v as int,
        None => 65535,
    }
}

/// `a` comes before `b` in time: albums before the singles and the tops
/// outside the discography, then the older first, then by title.
pub open spec fn album_before(a: AlbumView, b: AlbumView) -> bool {
    ||| (!a.orphan && b.orphan)
    ||| (a.orphan == b.orphan && !a.single && b.single)
    ||| (a.orphan == b.orphan && a.single == b.single && year_key(a.year) < year_key(b.year))
    ||| (a.orphan == b.orphan && a.single == b.single && year_key(a.year) == year_key(b.year) && lex_lt(a.title, b.title))
}

/// Where an album goes among the ordered: after every one it does not come
/// before.
pub open spec fn chrono_slot(g: Seq<AlbumView>, r: Seq<int>, x: int, i: int) -> int
    decreases r.len() - i,
{
    if i < 0 || i >= r.len() || album_before(g[x], g[r[i]]) { i } else { chrono_slot(g, r, x, i + 1) }
}

/// The albums `s` in time order; the same place in time keeps their order.
pub open spec fn chrono(g: Seq<AlbumView>, s: Seq<int>) -> Seq<int>
    decreases s.len(),
{
    if s.len() == 0 {
        seq![]
    } else {
        let r = chrono(g, s.drop_last());
        r.insert(chrono_slot(g, r, s.last(), 0), s.last())
    }
}

/// The albums that show, by index.
pub open spec fn shown_albums(g: Seq<AlbumView>, f: Filter, query: Seq<char>, n: int) -> Seq<int>
    decreases n,
{
    if n <= 0 || n > g.len() {
        seq![]
    } else {
        let r = shown_albums(g, f, query, n - 1);
        if shows_album(f, query, g[n - 1]) { r.push(n - 1) } else { r }
    }
}

proof fn lemma_chrono_slot(g: Seq<AlbumView>, r: Seq<int>, x: int, i: int)
    requires
        0 <= i <= r.len(),
    ensures
        i <= chrono_slot(g, r, x, i) <= r.len(),
        forall|k: int| i <= k < chrono_slot(g, r, x, i) ==> !album_before(g[x], #[trigger] g[r[k]]),
        chrono_slot(g, r, x, i) < r.len() ==> album_before(g[x], g[r[chrono_slot(g, r, x, i)]]),
    decreases r.len() - i,
{
    if i < r.len() && !album_before(g[x], g[r[i]]) {
        lemma_chrono_slot(g, r, x, i + 1);
    }
}

fn album_before_exec(a: &Album, b: &Album) -> (r: bool)
    ensures
        r == album_before(a@, b@),
{
    let ya: u32 = match a.year { Some(v) => v as u32, None => 65535 };
    let yb: u32 = match b.year { Some(v) => v as u32, None => 65535 };
    (!a.orphan && b.orphan)
        || (a.orphan == b.orphan && !a.single && b.single)
        || (a.orphan == b.orphan && a.single == b.single && ya < yb)
        || (a.orphan == b.orphan && a.single == b.single && ya == yb
            && lex_less(&chars_of(a.title.as_str()), &chars_of(b.title.as_str())))
}

/// The album order when it is chronological: the albums that show, in
/// time order.
pub fn chrono_order(albums: &Vec<Album>, filter: Filter, query: &str) -> (r: Vec<usize>)
    ensures
        r@.map_values(|i: usize| i as int) == chrono(albums_view(albums@), shown_albums(albums_view(albums@), filter, query@, albums@.len() as int)),
{
    let ghost g = albums_view(albums@);
    let mut sorted: Vec<usize> = Vec::new();
    let mut n: usize = 0;
    assert(sorted@.map_values(|i: usize| i as int) =~= seq![]);
    while n < albums.len()
        invariant
            n <= albums@.len(),
            g == albums_view(albums@),
            sorted@.map_values(|i: usize| i as int) == chrono(g, shown_albums(g, filter, query@, n as int)),
            forall|k: int| 0 <= k < sorted@.len() ==> (#[trigger] sorted@[k]) < n,
        decreases albums@.len() - n,
    {
        assert(g[n as int] == albums@[n as int]@);
        if visible_album(filter, query, &albums[n]) {
            let ghost s0 = sorted@.map_values(|i: usize| i as int);
            let ghost shown = shown_albums(g, filter, query@, n as int);
            assert(shown_albums(g, filter, query@, n + 1) == shown.push(n as int));
            assert(shown.push(n as int).drop_last() =~= shown);
            proof { lemma_chrono_slot(g, s0, n as int, 0); }
            let mut j: usize = 0;
            while j < sorted.len() && !album_before_exec(&albums[n], &albums[sorted[j]])
                invariant
                    j <= sorted@.len(),
                    n < albums@.len(),
                    g == albums_view(albums@),
                    s0 == sorted@.map_values(|i: usize| i as int),
                    forall|k: int| 0 <= k < sorted@.len() ==> (#[trigger] sorted@[k]) < n,
                    chrono_slot(g, s0, n as int, 0) == chrono_slot(g, s0, n as int, j as int),
                decreases sorted@.len() - j,
            {
                assert(g[sorted@[j as int] as int] == albums@[sorted@[j as int] as int]@);
                assert(s0[j as int] == sorted@[j as int] as int);
                j = j + 1;
            }
            proof {
                if j < sorted@.len() {
                    assert(g[sorted@[j as int] as int] == albums@[sorted@[j as int] as int]@);
                    assert(s0[j as int] == sorted@[j as int] as int);
                }
            }
            sorted.insert(j, n);
            assert(sorted@.map_values(|i: usize| i as int) =~= s0.insert(j as int, n as int));
        } else {
            assert(shown_albums(g, filter, query@, n + 1) == shown_albums(g, filter, query@, n as int));
        }
        n = n + 1;
    }
    sorted
}

proof fn lemma_album_before_asymmetric(a: AlbumView, b: AlbumView)
    requires
        album_before(a, b),
    ensures
        !album_before(b, a),
{
    if lex_lt(a.title, b.title) && lex_lt(b.title, a.title) {
        lemma_lex_transitive(a.title, b.title, a.title);
        lemma_lex_irreflexive(a.title);
    }
}

proof fn lemma_album_before_transitive(a: AlbumView, b: AlbumView, c: AlbumView)
    requires
        album_before(a, b),
        album_before(b, c),
    ensures
        album_before(a, c),
{
    if a.orphan == b.orphan && b.orphan == c.orphan && a.single == b.single && b.single == c.single
        && year_key(a.year) == year_key(b.year) && year_key(b.year) == year_key(c.year) {
        lemma_lex_transitive(a.title, b.title, c.title);
    }
}

/// In time order: no album shown after another comes before it.
pub open spec fn in_time_order(g: Seq<AlbumView>, r: Seq<int>) -> bool {
    forall|i: int, j: int| 0 <= i < j < r.len() ==> !album_before(#[trigger] g[r[j]], #[trigger] g[r[i]])
}

/// The chronological order holds every album once, and in time order:
/// albums before singles before the tops outside the discography, the
/// older first.
pub proof fn the_albums_come_in_time_order(g: Seq<AlbumView>, s: Seq<int>)
    ensures
        in_time_order(g, chrono(g, s)),
        chrono(g, s).to_multiset() == s.to_multiset(),
    decreases s.len(),
{
    broadcast use vstd::seq_lib::to_multiset_insert, vstd::seq_lib::to_multiset_build;
    if s.len() == 0 {
        assert(chrono(g, s) =~= s);
    } else {
        let init = s.drop_last();
        the_albums_come_in_time_order(g, init);
        let r = chrono(g, init);
        let x = s.last();
        let k = chrono_slot(g, r, x, 0);
        lemma_chrono_slot(g, r, x, 0);
        let n = r.insert(k, x);
        assert(chrono(g, s) == n);
        assert(s =~= init.push(x));
        assert forall|i: int, j: int| 0 <= i < j < n.len() implies !album_before(#[trigger] g[n[j]], #[trigger] g[n[i]]) by {
            if j < k {
                assert(n[i] == r[i] && n[j] == r[j]);
            } else if j == k {
                assert(n[j] == x && n[i] == r[i]);
            } else if i == k {
                assert(n[i] == x && n[j] == r[j - 1]);
                assert(album_before(g[x], g[r[k]]));
                if j - 1 == k {
                    lemma_album_before_asymmetric(g[x], g[r[k]]);
                } else {
                    assert(!album_before(g[r[j - 1]], g[r[k]]));
                    if album_before(g[r[j - 1]], g[x]) {
                        lemma_album_before_transitive(g[r[j - 1]], g[x], g[r[k]]);
                    }
                }
            } else if i < k {
                assert(n[i] == r[i] && n[j] == r[j - 1]);
            } else {
                assert(n[i] == r[i - 1] && n[j] == r[j - 1]);
            }
        }
    }
}

/// Every track of the screen, album after album.
pub open spec fn all_tracks(g: Seq<AlbumView>) -> Seq<TrackView>
    decreases g.len(),
{
    if g.len() == 0 { seq![] } else { all_tracks(g.drop_last()) + g.last().tracks }
}

pub open spec fn real_albums(g: Seq<AlbumView>) -> nat
    decreases g.len(),
{
    if g.len() == 0 { 0 } else { real_albums(g.drop_last()) + if g.last().orphan { 0nat } else { 1nat } }
}

proof fn lemma_count_concat(a: Seq<TrackView>, b: Seq<TrackView>, what: u8)
    ensures
        count_where(a + b, what) == count_where(a, what) + count_where(b, what),
        count_where(a, what) <= a.len(),
    decreases b.len(), a.len(),
{
    if b.len() == 0 {
        assert(a + b =~= a);
        if a.len() > 0 {
            lemma_count_concat(a.drop_last(), seq![], what);
        }
    } else {
        lemma_count_concat(a, b.drop_last(), what);
        assert((a + b).drop_last() =~= a + b.drop_last());
        assert((a + b).last() == b.last());
    }
}

/// The header's counts: albums (the discography's), titles, tops, liked
/// titles that are not tops, banned, and the rest.
pub struct Counts {
    pub albums: usize,
    pub titles: usize,
    pub tops: usize,
    pub liked: usize,
    pub banned: usize,
    pub tail: usize,
}

pub fn counts(albums: &Vec<Album>) -> (r: Counts)
    requires
        all_tracks(albums_view(albums@)).len() <= usize::MAX,
    ensures
        r.albums == real_albums(albums_view(albums@)),
        r.titles == all_tracks(albums_view(albums@)).len(),
        r.tops == count_where(all_tracks(albums_view(albums@)), 0),
        r.liked == count_where(all_tracks(albums_view(albums@)), 3),
        r.banned == count_where(all_tracks(albums_view(albums@)), 2),
        r.tail == (if r.titles >= r.tops + r.liked + r.banned { r.titles - (r.tops + r.liked + r.banned) } else { 0 }),
{
    let ghost g = albums_view(albums@);
    let mut c = Counts { albums: 0, titles: 0, tops: 0, liked: 0, banned: 0, tail: 0 };
    let mut i: usize = 0;
    assert(g.take(0) =~= seq![]);
    while i < albums.len()
        invariant
            i <= albums@.len(),
            g == albums_view(albums@),
            all_tracks(g).len() <= usize::MAX,
            c.albums == real_albums(g.take(i as int)),
            c.albums <= i,
            c.titles == all_tracks(g.take(i as int)).len(),
            c.tops == count_where(all_tracks(g.take(i as int)), 0),
            c.liked == count_where(all_tracks(g.take(i as int)), 3),
            c.banned == count_where(all_tracks(g.take(i as int)), 2),
        decreases albums@.len() - i,
    {
        let ghost before = all_tracks(g.take(i as int));
        proof {
            assert(g.take(i + 1).drop_last() =~= g.take(i as int));
            assert(g.take(i + 1).last() == g[i as int]);
            assert(g[i as int] == albums@[i as int]@);
            lemma_count_concat(before, g[i as int].tracks, 0);
            lemma_count_concat(before, g[i as int].tracks, 2);
            lemma_count_concat(before, g[i as int].tracks, 3);
            lemma_prefix_tracks(g, i + 1);
            let after = all_tracks(g.take(i + 1));
            assert(after == before + g[i as int].tracks);
            lemma_count_concat(after, seq![], 0);
            lemma_count_concat(after, seq![], 2);
            lemma_count_concat(after, seq![], 3);
            assert(g[i as int].tracks.len() == albums@[i as int].tracks@.len());
        }
        let a = &albums[i];
        let n = a.tracks.len();
        let t = a.count(0);
        let l = a.count(3);
        let b = a.count(2);
        c.titles = c.titles + n;
        c.tops = c.tops + t;
        c.liked = c.liked + l;
        c.banned = c.banned + b;
        if !a.orphan {
            c.albums = c.albums + 1;
        }
        i = i + 1;
    }
    assert(g.take(i as int) =~= g);
    let sum: u128 = c.tops as u128 + c.liked as u128 + c.banned as u128;
    c.tail = if c.titles as u128 >= sum { (c.titles as u128 - sum) as usize } else { 0 };
    c
}

proof fn lemma_prefix_tracks(g: Seq<AlbumView>, n: int)
    requires
        0 <= n <= g.len(),
    ensures
        all_tracks(g.take(n)).len() <= all_tracks(g).len(),
    decreases g.len() - n,
{
    if n < g.len() {
        lemma_prefix_tracks(g, n + 1);
        assert(g.take(n + 1).drop_last() =~= g.take(n));
    } else {
        assert(g.take(n) =~= g);
    }
}

/// Whether a track of this album shows: all of those that pass the filter
/// when the album's name holds the search, else those that show.
pub open spec fn shows_in(f: Filter, query: Seq<char>, a: AlbumView, t: TrackView) -> bool {
    if query.len() > 0 && crate::text::contains(lowercase(a.title), lowercase(query)) {
        passes(f, t)
    } else {
        shows_track(f, query, t)
    }
}

/// The tracks of an album that show, by index.
pub open spec fn shown_tracks(f: Filter, query: Seq<char>, a: AlbumView, n: int) -> Seq<int>
    decreases n,
{
    if n <= 0 || n > a.tracks.len() {
        seq![]
    } else {
        let r = shown_tracks(f, query, a, n - 1);
        if shows_in(f, query, a, a.tracks[n - 1]) { r.push(n - 1) } else { r }
    }
}

/// Where a track goes among the ordered: after every one whose number is
/// not greater.
pub open spec fn number_slot(ts: Seq<TrackView>, r: Seq<int>, x: int, i: int) -> int
    decreases r.len() - i,
{
    if i < 0 || i >= r.len() || ts[x].number < ts[r[i]].number { i } else { number_slot(ts, r, x, i + 1) }
}

/// The tracks `s` by their number on the album; the same number keeps the
/// order.
pub open spec fn by_number(ts: Seq<TrackView>, s: Seq<int>) -> Seq<int>
    decreases s.len(),
{
    if s.len() == 0 {
        seq![]
    } else {
        let r = by_number(ts, s.drop_last());
        r.insert(number_slot(ts, r, s.last(), 0), s.last())
    }
}

proof fn lemma_number_slot(ts: Seq<TrackView>, r: Seq<int>, x: int, i: int)
    requires
        0 <= i <= r.len(),
    ensures
        i <= number_slot(ts, r, x, i) <= r.len(),
        forall|k: int| i <= k < number_slot(ts, r, x, i) ==> ts[r[k]].number <= ts[x].number,
        number_slot(ts, r, x, i) < r.len() ==> ts[x].number < ts[r[number_slot(ts, r, x, i)]].number,
    decreases r.len() - i,
{
    if i < r.len() && !(ts[x].number < ts[r[i]].number) {
        lemma_number_slot(ts, r, x, i + 1);
    }
}

/// The indices of an album's shown tracks, in album order — the order of
/// the chronological screen.
pub fn chrono_tracks(album: &Album, filter: Filter, query: &str) -> (r: Vec<usize>)
    ensures
        r@.map_values(|i: usize| i as int) == by_number(album@.tracks, shown_tracks(filter, query@, album@, album.tracks@.len() as int)),
{
    let ghost a = album@;
    let ghost ts = a.tracks;
    let named = chars_of(query).len() > 0 && contains(album.title.as_str(), query);
    let mut sorted: Vec<usize> = Vec::new();
    let mut n: usize = 0;
    assert(sorted@.map_values(|i: usize| i as int) =~= seq![]);
    while n < album.tracks.len()
        invariant
            n <= album.tracks@.len(),
            a == album@,
            ts == a.tracks,
            named == (query@.len() > 0 && crate::text::contains(lowercase(album.title@), lowercase(query@))),
            sorted@.map_values(|i: usize| i as int) == by_number(ts, shown_tracks(filter, query@, a, n as int)),
            forall|k: int| 0 <= k < sorted@.len() ==> (#[trigger] sorted@[k]) < n,
        decreases album.tracks@.len() - n,
    {
        assert(ts[n as int] == album.tracks@[n as int]@);
        let shows = if named { passes_exec(filter, &album.tracks[n]) } else { visible_track(filter, query, &album.tracks[n]) };
        if shows {
            let ghost s0 = sorted@.map_values(|i: usize| i as int);
            let ghost shown = shown_tracks(filter, query@, a, n as int);
            assert(shown_tracks(filter, query@, a, n + 1) == shown.push(n as int));
            assert(shown.push(n as int).drop_last() =~= shown);
            proof { lemma_number_slot(ts, s0, n as int, 0); }
            let number = album.tracks[n].number;
            let mut j: usize = 0;
            while j < sorted.len() && !(number < album.tracks[sorted[j]].number)
                invariant
                    j <= sorted@.len(),
                    n < album.tracks@.len(),
                    a == album@,
                    ts == a.tracks,
                    number == ts[n as int].number,
                    s0 == sorted@.map_values(|i: usize| i as int),
                    forall|k: int| 0 <= k < sorted@.len() ==> (#[trigger] sorted@[k]) < n,
                    number_slot(ts, s0, n as int, 0) == number_slot(ts, s0, n as int, j as int),
                decreases sorted@.len() - j,
            {
                assert(ts[sorted@[j as int] as int] == album.tracks@[sorted@[j as int] as int]@);
                assert(s0[j as int] == sorted@[j as int] as int);
                j = j + 1;
            }
            proof {
                if j < sorted@.len() {
                    assert(ts[sorted@[j as int] as int] == album.tracks@[sorted@[j as int] as int]@);
                    assert(s0[j as int] == sorted@[j as int] as int);
                }
            }
            sorted.insert(j, n);
            assert(sorted@.map_values(|i: usize| i as int) =~= s0.insert(j as int, n as int));
        } else {
            assert(shown_tracks(filter, query@, a, n + 1) == shown_tracks(filter, query@, a, n as int));
        }
        n = n + 1;
    }
    sorted
}

/// An album's tracks come by their number, each shown track once.
pub proof fn the_tracks_come_by_number(ts: Seq<TrackView>, s: Seq<int>)
    ensures
        forall|i: int, j: int| 0 <= i < j < by_number(ts, s).len() ==>
            ts[#[trigger] by_number(ts, s)[i]].number <= ts[#[trigger] by_number(ts, s)[j]].number,
        by_number(ts, s).to_multiset() == s.to_multiset(),
    decreases s.len(),
{
    broadcast use vstd::seq_lib::to_multiset_insert, vstd::seq_lib::to_multiset_build;
    if s.len() == 0 {
        assert(by_number(ts, s) =~= s);
    } else {
        let init = s.drop_last();
        the_tracks_come_by_number(ts, init);
        let r = by_number(ts, init);
        let x = s.last();
        let k = number_slot(ts, r, x, 0);
        lemma_number_slot(ts, r, x, 0);
        let n = r.insert(k, x);
        assert(by_number(ts, s) == n);
        assert(s =~= init.push(x));
        assert forall|i: int, j: int| 0 <= i < j < n.len() implies ts[#[trigger] n[i]].number <= ts[#[trigger] n[j]].number by {
            if j < k {
                assert(n[i] == r[i] && n[j] == r[j]);
            } else if j == k {
                assert(n[j] == x && n[i] == r[i]);
            } else if i == k {
                assert(n[i] == x && n[j] == r[j - 1]);
                assert(ts[x].number < ts[r[k]].number);
                if j - 1 > k {
                    assert(ts[r[k]].number <= ts[r[j - 1]].number);
                }
            } else if i < k {
                assert(n[i] == r[i] && n[j] == r[j - 1]);
            } else {
                assert(n[i] == r[i - 1] && n[j] == r[j - 1]);
            }
        }
    }
}

} // verus!
