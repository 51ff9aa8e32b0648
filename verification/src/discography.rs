//! The long tail: the rest of an artist's known discography, beyond the
//! tops and the doors of the card. It is not catalogue material: it lives
//! in the user's cache, is regenerable, never committed, and never syncs
//! between machines. The cache itself is the caller's business; here is
//! what is kept in memory, and how titles are compared.

use vstd::prelude::*;
use crate::text::{
    chars_of, string_of, find, find_in, slice, trim, trim_exec, same, to_lowercase, lowercase,
    is_alphanumeric, alphanumeric, is_ascii_digit, is_ascii_text, ascii_lowered, ascii_key, folded,
    lemma_key_of_lowered, lemma_folded_trim, lemma_find_lowered, lemma_ascii_lowered_text, lemma_ascii_lower_char,
    is_ascii_alnum,
};

verus! {

#[derive(Clone, Default)]
pub struct TailTrack {
    pub title: String,
    pub uri: String,
    pub album: String,
    /// The album's release date as Spotify gives it — « 1998 » or
    /// « 1998-09-22 ».
    pub released: String,
    /// Rank inside its album.
    pub number: u32,
    pub duration_ms: u32,
    /// A single or an EP rather than an album.
    pub single: bool,
}

pub open spec fn digit_value(c: char) -> nat {
    (c as u32 - '0' as u32) as nat
}

/// The year a date starts with, as an unsigned number reads it from its
/// first four characters: four digits, or a plus sign and three.
pub open spec fn year_of(date: Seq<char>) -> Option<u16> {
    if date.len() < 4 {
        None
    } else if is_ascii_digit(date[1]) && is_ascii_digit(date[2]) && is_ascii_digit(date[3]) {
        let rest = 100 * digit_value(date[1]) + 10 * digit_value(date[2]) + digit_value(date[3]);
        if is_ascii_digit(date[0]) {
            Some((1000 * digit_value(date[0]) + rest) as u16)
        } else if date[0] == '+' {
            Some(rest as u16)
        } else {
            None
        }
    } else {
        None
    }
}

impl TailTrack {
    /// The year, when the date says one.
    pub fn year(&self) -> (y: Option<u16>)
        ensures
            y == year_of(self.released@),
    {
        let d = chars_of(self.released.as_str());
        if d.len() < 4 {
            return None;
        }
        let (a, b, c, e) = (d[0], d[1], d[2], d[3]);
        if !('0' <= b && b <= '9' && '0' <= c && c <= '9' && '0' <= e && e <= '9') {
            return None;
        }
        let rest: u16 = 100 * ((b as u32 - 48) as u16) + 10 * ((c as u32 - 48) as u16) + ((e as u32 - 48) as u16);
        if '0' <= a && a <= '9' {
            Some(1000 * ((a as u32 - 48) as u16) + rest)
        } else if a == '+' {
            Some(rest)
        } else {
            None
        }
    }
}

/// Every discography harvested so far, keyed by slug. Loaded once at
/// startup: the engine reads it synchronously, the application fills it.
pub struct Tail {
    root: String,
    artists: Vec<(String, Vec<TailTrack>)>,
}

impl Tail {
    /// The slugs, in the order they came.
    pub closed spec fn slugs(&self) -> Seq<Seq<char>> {
        self.artists@.map_values(|e: (String, Vec<TailTrack>)| e.0@)
    }

    /// One entry per slug.
    pub closed spec fn wf(&self) -> bool {
        self.slugs().no_duplicates()
    }

    /// What is known: each slug's tracks.
    pub closed spec fn view(&self) -> Map<Seq<char>, Seq<TailTrack>> {
        Map::new(
            |k: Seq<char>| self.slugs().contains(k),
            |k: Seq<char>| self.artists@[self.slugs().index_of(k)].1@,
        )
    }

    /// Where the cache lives.
    pub closed spec fn root_spec(&self) -> Seq<char> {
        self.root@
    }

    /// The tracks of a slug: none when it was never harvested.
    pub open spec fn tracks(&self, slug: Seq<char>) -> Seq<TailTrack> {
        if self.view().contains_key(slug) { self.view()[slug] } else { seq![] }
    }

    /// An empty tail, whose cache would live at `root`.
    pub fn blank(root: &str) -> (t: Tail)
        ensures
            t.wf(),
            t.view() == Map::<Seq<char>, Seq<TailTrack>>::empty(),
            t.root_spec() == root@,
    {
        let t = Tail { root: string_of(&chars_of(root)), artists: Vec::new() };
        assert(t.view() =~= Map::<Seq<char>, Seq<TailTrack>>::empty());
        t
    }

    /// Where the cache lives.
    pub fn root(&self) -> (r: &String)
        ensures
            r@ == self.root_spec(),
    {
        &self.root
    }

    proof fn lemma_view_at(&self, i: int)
        requires
            self.slugs().no_duplicates(),
            0 <= i < self.artists@.len(),
        ensures
            self.view().contains_key(self.artists@[i].0@),
            self.view()[self.artists@[i].0@] == self.artists@[i].1@,
    {
        let k = self.artists@[i].0@;
        assert(self.slugs()[i] == k);
        assert(self.slugs().contains(k));
        let j = self.slugs().index_of(k);
        assert(self.slugs()[j] == k);
    }

    fn position(&self, slug: &Vec<char>) -> (r: Option<usize>)
        ensures
            r matches Some(i) ==> i < self.artists@.len() && self.artists@[i as int].0@ == slug@,
            r is None ==> !self.slugs().contains(slug@),
    {
        let mut i: usize = 0;
        while i < self.artists.len()
            invariant
                i <= self.artists@.len(),
                forall|j: int| 0 <= j < i ==> self.slugs()[j] != slug@,
            decreases self.artists@.len() - i,
        {
            if same(&chars_of(self.artists[i].0.as_str()), slug) {
                return Some(i);
            }
            i = i + 1;
        }
        None
    }

    /// How many artists have a harvest.
    pub fn known(&self) -> (n: usize)
        requires
            self.wf(),
        ensures
            n == self.view().dom().len(),
    {
        proof {
            assert(self.view().dom() =~= self.slugs().to_set());
            self.slugs().unique_seq_to_set();
        }
        self.artists.len()
    }

    /// Has this artist a harvest?
    pub fn has(&self, slug: &str) -> (r: bool)
        ensures
            r == self.view().contains_key(slug@),
    {
        match self.position(&chars_of(slug)) {
            Some(i) => {
                assert(self.slugs()[i as int] == slug@);
                true
            }
            None => false,
        }
    }

    /// An artist's harvest, empty when there is none.
    pub fn of(&self, slug: &str) -> (r: &[TailTrack])
        requires
            self.wf(),
        ensures
            r@ == self.tracks(slug@),
    {
        match self.position(&chars_of(slug)) {
            Some(i) => {
                proof { self.lemma_view_at(i as int); }
                self.artists[i].1.as_slice()
            }
            None => &[],
        }
    }

    /// A harvest made with the dates: at least one track says when it came
    /// out. An older one can still feed the reservoir, not the screen.
    pub fn dated(&self, slug: &str) -> (r: bool)
        requires
            self.wf(),
        ensures
            r == exists|i: int| 0 <= i < self.tracks(slug@).len() && self.tracks(slug@)[i].released@.len() > 0,
    {
        let tracks = self.of(slug);
        let mut i: usize = 0;
        while i < tracks.len()
            invariant
                tracks@ == self.tracks(slug@),
                i <= tracks@.len(),
                forall|j: int| 0 <= j < i ==> tracks@[j].released@.len() == 0,
            decreases tracks@.len() - i,
        {
            if chars_of(tracks[i].released.as_str()).len() > 0 {
                return true;
            }
            i = i + 1;
        }
        false
    }

    /// Forget one artist's harvest, so the next one goes back to Spotify.
    pub fn forget(&mut self, slug: &str)
        requires
            old(self).wf(),
        ensures
            final(self).wf(),
            final(self).view() == old(self).view().remove(slug@),
            final(self).root_spec() == old(self).root_spec(),
    {
        let key = chars_of(slug);
        match self.position(&key) {
            None => {
                assert(self.view() =~= old(self).view().remove(slug@));
            }
            Some(i) => {
                let ghost before = self.artists@;
                let ghost old_slugs = self.slugs();
                self.artists.remove(i);
                proof {
                    assert(self.slugs() =~= old_slugs.remove(i as int));
                    assert forall|a: int, b: int| 0 <= a < b < self.slugs().len() implies self.slugs()[a] != self.slugs()[b] by {
                        let a0 = if a < i { a } else { a + 1 };
                        let b0 = if b < i { b } else { b + 1 };
                        assert(self.slugs()[a] == old_slugs[a0]);
                        assert(self.slugs()[b] == old_slugs[b0]);
                    }
                    assert(self.slugs().no_duplicates());
                    assert(old_slugs[i as int] == slug@);
                    assert forall|k: Seq<char>| #[trigger] self.slugs().contains(k) implies old_slugs.contains(k) && k != slug@ by {
                        let j = choose|j: int| 0 <= j < self.slugs().len() && self.slugs()[j] == k;
                        let j0 = if j < i { j } else { j + 1 };
                        assert(old_slugs[j0] == k);
                        assert(j0 != i);
                    }
                    assert forall|k: Seq<char>| #[trigger] old_slugs.contains(k) && k != slug@ implies self.slugs().contains(k) by {
                        let j0 = choose|j: int| 0 <= j < old_slugs.len() && old_slugs[j] == k;
                        assert(j0 != i);
                        let j = if j0 < i { j0 } else { j0 - 1 };
                        assert(self.slugs()[j] == k);
                    }
                    assert forall|k: Seq<char>| #[trigger] self.view().contains_key(k) implies self.view()[k] == old(self).view()[k] by {
                        let j = self.slugs().index_of(k);
                        let j0 = if j < i { j } else { j + 1 };
                        assert(self.artists@[j] == before[j0]);
                        assert(old_slugs[j0] == k);
                        old(self).lemma_view_at(j0);
                    }
                    assert(self.view() =~= old(self).view().remove(slug@));
                }
            }
        }
    }

    /// Keep a harvest in memory; it replaces the one before.
    pub fn keep(&mut self, slug: &str, tracks: Vec<TailTrack>)
        requires
            old(self).wf(),
        ensures
            final(self).wf(),
            final(self).view() == old(self).view().insert(slug@, tracks@),
            final(self).root_spec() == old(self).root_spec(),
    {
        let ghost t = tracks@;
        self.forget(slug);
        let ghost mid = self.artists@;
        let ghost mid_slugs = self.slugs();
        let ghost mid_view = self.view();
        assert(!mid_view.contains_key(slug@));
        assert(!mid_slugs.contains(slug@));
        self.artists.push((string_of(&chars_of(slug)), tracks));
        proof {
            assert(self.slugs() =~= mid_slugs.push(slug@));
            assert forall|a: int, b: int| 0 <= a < b < self.slugs().len() implies self.slugs()[a] != self.slugs()[b] by {
                if b == mid_slugs.len() {
                    assert(mid_slugs[a] != slug@);
                }
            }
            let n = mid.len() as int;
            assert(self.artists@[n].0@ == slug@);
            self.lemma_view_at(n);
            assert forall|k: Seq<char>| #[trigger] mid_view.contains_key(k) implies self.view().contains_key(k) && self.view()[k] == mid_view[k] by {
                let j = mid_slugs.index_of(k);
                assert(mid_slugs[j] == k);
                assert(self.artists@[j] == mid[j]);
                self.lemma_view_at(j);
            }
            assert forall|k: Seq<char>| #[trigger] self.view().contains_key(k) implies mid_view.contains_key(k) || k == slug@ by {
                let j = choose|j: int| 0 <= j < self.slugs().len() && self.slugs()[j] == k;
                if j < n {
                    assert(mid_slugs[j] == k);
                }
            }
            assert(self.artists@[n].1@ == t);
            let goal = old(self).view().insert(slug@, t);
            assert(mid_view == old(self).view().remove(slug@));
            assert forall|k: Seq<char>| #[trigger] self.view().contains_key(k) <==> goal.contains_key(k) by {
                if k != slug@ && goal.contains_key(k) {
                    assert(mid_view.contains_key(k));
                }
            }
            assert forall|k: Seq<char>| #[trigger] self.view().contains_key(k) implies self.view()[k] == goal[k] by {
                if k != slug@ {
                    assert(mid_view.contains_key(k));
                }
            }
            assert(self.view() =~= goal);
        }
    }
}

// ---------------------------------------------------------------------------
// Titles.

/// A title cut before its version noise: from `" - "` on, or else from
/// `" ("` on — "(Remastered 2010)", "- 2004 Remaster", "(Live)".
pub open spec fn version_cut(s: Seq<char>) -> Seq<char> {
    match find(s, " - "@) {
        Some(i) => s.take(i),
        None => match find(s, " ("@) {
            Some(i) => s.take(i),
            None => s,
        },
    }
}

fn version_cut_exec(s: &Vec<char>) -> (r: Vec<char>)
    ensures
        r@ == version_cut(s@),
{
    let end = match find_in(s, &chars_of(" - "), 0) {
        Some(i) => i,
        None => match find_in(s, &chars_of(" ("), 0) {
            Some(i) => i,
            None => s.len(),
        },
    };
    proof {
        crate::text::lemma_find_from(s@, " - "@, 0);
        crate::text::lemma_find_from(s@, " ("@, 0);
    }
    let r = slice(s, 0, end);
    assert(r@ =~= version_cut(s@));
    r
}

/// The letters and numbers of a sequence, in order.
pub open spec fn alnum_only(s: Seq<char>) -> Seq<char>
    decreases s.len(),
{
    if s.len() == 0 {
        seq![]
    } else if alphanumeric(s.last()) {
        alnum_only(s.drop_last()).push(s.last())
    } else {
        alnum_only(s.drop_last())
    }
}

/// The key two titles of the same track share: lower case, the version
/// noise cut, only the letters and numbers left.
pub open spec fn normal_form(title: Seq<char>) -> Seq<char> {
    alnum_only(version_cut(lowercase(title)))
}

/// Two titles are the same track when they differ only by a remaster tag, a
/// live suffix or punctuation — Spotify ships the same song a dozen times.
pub fn normalize(title: &str) -> (r: String)
    ensures
        r@ == normal_form(title@),
        is_ascii_text(title@) ==> r@ == ascii_key(version_cut(ascii_lowered(title@))),
{
    let lower = chars_of(to_lowercase(title).as_str());
    let cut = version_cut_exec(&lower);
    proof {
        if is_ascii_text(title@) {
            lemma_ascii_lowered_text(title@);
            assert(lower@ == ascii_lowered(title@));
            lemma_cut_is_prefix(lower@);
            let v = version_cut(lower@);
            assert forall|k: int| 0 <= k < v.len() implies (#[trigger] v[k] as u32) < 0x80 by {
                assert(v[k] == lower@[k]);
            }
        }
    }
    let mut out: Vec<char> = Vec::new();
    let mut i: usize = 0;
    while i < cut.len()
        invariant
            i <= cut@.len(),
            out@ == alnum_only(cut@.take(i as int)),
            is_ascii_text(title@) ==> is_ascii_text(cut@) && out@ == ascii_key(cut@.take(i as int)),
        decreases cut@.len() - i,
    {
        assert(cut@.take(i + 1).drop_last() =~= cut@.take(i as int));
        assert(cut@.take(i + 1).last() == cut@[i as int]);
        if is_alphanumeric(cut[i]) {
            out.push(cut[i]);
        }
        i = i + 1;
    }
    assert(cut@.take(i as int) =~= cut@);
    string_of(&out)
}

proof fn lemma_cut_is_prefix(s: Seq<char>)
    ensures
        version_cut(s).len() <= s.len(),
        version_cut(s) == s.take(version_cut(s).len() as int),
{
    crate::text::lemma_find_from(s, " - "@, 0);
    crate::text::lemma_find_from(s, " ("@, 0);
}

/// `version_cut` and ASCII lowering can be taken in either order: the
/// patterns it looks for hold no letter.
proof fn lemma_cut_lowered(t: Seq<char>)
    ensures
        version_cut(ascii_lowered(t)) == ascii_lowered(version_cut(t)),
{
    let dash = " - "@;
    let paren = " ("@;
    reveal_strlit(" - ");
    reveal_strlit(" (");
    assert forall|i: int| 0 <= i < dash.len() implies !is_ascii_alnum(#[trigger] dash[i]) by {}
    assert forall|i: int| 0 <= i < paren.len() implies !is_ascii_alnum(#[trigger] paren[i]) by {}
    lemma_find_lowered(t, dash, 0);
    lemma_find_lowered(t, paren, 0);
    crate::text::lemma_find_from(t, dash, 0);
    crate::text::lemma_find_from(t, paren, 0);
    match find(t, dash) {
        Some(i) => assert(ascii_lowered(t).take(i) =~= ascii_lowered(t.take(i))),
        None => match find(t, paren) {
            Some(i) => assert(ascii_lowered(t).take(i) =~= ascii_lowered(t.take(i))),
            None => {},
        },
    }
}

/// On an ASCII title, the key `normalize` makes is the title `clean_title`
/// keeps, lowered and kept to its letters and digits: both cut the same
/// version noise, only the key folds it.
pub proof fn normalize_folds_clean_title(t: Seq<char>)
    requires
        is_ascii_text(t),
    ensures
        ascii_key(version_cut(ascii_lowered(t))) == ascii_key(ascii_lowered(trim(version_cut(t)))),
{
    lemma_cut_lowered(t);
    lemma_key_of_lowered(version_cut(t));
    lemma_key_of_lowered(trim(version_cut(t)));
    lemma_folded_trim(version_cut(t));
}

/// The title a card writes when it promotes a track: the same version
/// noise cut as `normalize`, but the case, the spaces and the punctuation
/// kept — a card is read by a human.
pub fn clean_title(title: &str) -> (r: String)
    ensures
        r@ == trim(version_cut(title@)),
{
    string_of(&trim_exec(&version_cut_exec(&chars_of(title))))
}

/// What `keep` writes for an artist, `of` reads back, and the other
/// artists' tracks do not move.
pub proof fn kept_tracks_read_back(before: Tail, after: Tail, slug: Seq<char>, tracks: Seq<TailTrack>, other: Seq<char>)
    requires
        after.view() == before.view().insert(slug, tracks),
    ensures
        after.tracks(slug) == tracks,
        other != slug ==> after.tracks(other) == before.tracks(other),
{
}

/// After `forget`, an artist reads as never harvested, and the others keep
/// their tracks.
pub proof fn forgotten_tracks_are_gone(before: Tail, after: Tail, slug: Seq<char>, other: Seq<char>)
    requires
        after.view() == before.view().remove(slug),
    ensures
        !after.view().contains_key(slug),
        after.tracks(slug).len() == 0,
        other != slug ==> after.tracks(other) == before.tracks(other),
{
}

} // verus!
