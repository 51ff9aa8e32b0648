//! The listener's Spotify library: liked tracks, liked albums, followed
//! artists, and the playlists one ticks, counted to the main artist of each
//! and ranked by the harvest's formula — liked tracks ×1, liked albums ×3,
//! followed +8, playlist tracks ×1. The harvest itself talks to Spotify and
//! belongs to the caller; what it counts comes here.

use vstd::prelude::*;
use crate::text::{chars_of, string_of, push_str, same, same_str, lowercase, to_lowercase};
use crate::edit::{join_path, join_path_exec, strings};
use crate::fork::{lex_lt, lex_less, lemma_lex_transitive, lemma_lex_irreflexive};
use crate::generate::{slug_of_name, slugify};

verus! {

pub const FORMAT: u32 = 1;
/// The score from which an artist without a card is worth generating, and
/// how many at most in one go.
pub const COVERAGE_FLOOR: u32 = 5;
pub const COVERAGE_CAP: usize = 30;

pub struct Library {
    pub format: u32,
    /// ISO date of the last harvest.
    pub harvested: String,
    /// The ticked playlists, remembered.
    pub playlists: Vec<Playlist>,
    pub artists: Vec<Artist>,
}

pub struct Playlist {
    pub id: String,
    pub name: String,
}

pub struct Artist {
    pub name: String,
    pub spotify: String,
    pub liked_tracks: u32,
    pub liked_albums: u32,
    pub followed: bool,
    pub playlist_tracks: u32,
    pub score: u32,
    pub sources: u32,
}

/// The harvest's formula: liked tracks ×1, liked albums ×3, followed +8,
/// playlist tracks ×1.
pub open spec fn score_of(a: Artist) -> int {
    a.liked_tracks + a.liked_albums * 3 + a.playlist_tracks + if a.followed { 8int } else { 0int }
}

/// How many of the four sources name the artist.
pub open spec fn sources_of(a: Artist) -> nat {
    (if a.liked_tracks > 0 { 1nat } else { 0nat }) + (if a.liked_albums > 0 { 1nat } else { 0nat })
        + (if a.followed { 1nat } else { 0nat }) + (if a.playlist_tracks > 0 { 1nat } else { 0nat })
}

/// The artist with its score and its sources counted again.
pub open spec fn rescored(a: Artist) -> Artist {
    Artist {
        name: a.name,
        spotify: a.spotify,
        liked_tracks: a.liked_tracks,
        liked_albums: a.liked_albums,
        followed: a.followed,
        playlist_tracks: a.playlist_tracks,
        score: score_of(a) as u32,
        sources: sources_of(a) as u32,
    }
}

impl Artist {
    /// A new artist of the library, counted nowhere yet.
    pub fn new(name: &str, spotify: &str) -> (a: Artist)
        ensures
            a.name@ == name@,
            a.spotify@ == spotify@,
            a.liked_tracks == 0 && a.liked_albums == 0 && !a.followed && a.playlist_tracks == 0,
            a.score == 0 && a.sources == 0,
    {
        Artist {
            name: String::from_str(name),
            spotify: String::from_str(spotify),
            liked_tracks: 0,
            liked_albums: 0,
            followed: false,
            playlist_tracks: 0,
            score: 0,
            sources: 0,
        }
    }

    pub fn rescore(&mut self)
        requires
            score_of(*old(self)) <= u32::MAX,
        ensures
            *final(self) == rescored(*old(self)),
    {
        self.score = self.liked_tracks + self.liked_albums * 3 + self.playlist_tracks
            + if self.followed { 8 } else { 0 };
        self.sources = (if self.liked_tracks > 0 { 1u32 } else { 0 }) + (if self.liked_albums > 0 { 1u32 } else { 0 })
            + (if self.followed { 1u32 } else { 0 }) + (if self.playlist_tracks > 0 { 1u32 } else { 0 });
    }

    /// Liked on Spotify, in the sense of the home's collection: a track,
    /// an album, or a follow.
    pub fn liked(&self) -> (r: bool)
        ensures
            r == (self.liked_tracks > 0 || self.liked_albums > 0 || self.followed),
    {
        self.liked_tracks > 0 || self.liked_albums > 0 || self.followed
    }
}

/// Where the library lives in a catalog: `learned/library.toml`.
pub fn path(catalog_dir: &str) -> (p: String)
    ensures
        p@ == join_path(join_path(catalog_dir@, "learned"@), "library.toml"@),
{
    let dir = join_path_exec(&chars_of(catalog_dir), &chars_of("learned"));
    string_of(&join_path_exec(&dir, &chars_of("library.toml")))
}

// ---------------------------------------------------------------------------
// The ranking.

/// `a` comes before `b` in the ranking: a higher score, or the same score
/// and a name first in order.
pub open spec fn ranks_before(a: Artist, b: Artist) -> bool {
    a.score > b.score || (a.score == b.score && lex_lt(a.name@, b.name@))
}

/// Where an artist goes in a ranking: after every artist it does not rank
/// before.
pub open spec fn rank_slot(sorted: Seq<Artist>, a: Artist, i: int) -> int
    decreases sorted.len() - i,
{
    if i < 0 || i >= sorted.len() || ranks_before(a, sorted[i]) { i } else { rank_slot(sorted, a, i + 1) }
}

/// The artists ranked: best score first, then by name; the same score and
/// name keep their order.
pub open spec fn ranked(s: Seq<Artist>) -> Seq<Artist>
    decreases s.len(),
{
    if s.len() == 0 {
        seq![]
    } else {
        let r = ranked(s.drop_last());
        r.insert(rank_slot(r, s.last(), 0), s.last())
    }
}

proof fn lemma_rank_slot(sorted: Seq<Artist>, a: Artist, i: int)
    requires
        0 <= i <= sorted.len(),
    ensures
        i <= rank_slot(sorted, a, i) <= sorted.len(),
    decreases sorted.len() - i,
{
    if i < sorted.len() && !ranks_before(a, sorted[i]) {
        lemma_rank_slot(sorted, a, i + 1);
    }
}

fn ranks_before_exec(a: &Artist, b: &Artist) -> (r: bool)
    ensures
        r == ranks_before(*a, *b),
{
    a.score > b.score || (a.score == b.score && lex_less(&chars_of(a.name.as_str()), &chars_of(b.name.as_str())))
}

impl Library {
    /// Recompute every score and sort, best first.
    pub fn rescore(&mut self)
        requires
            forall|i: int| 0 <= i < old(self).artists@.len() ==> score_of(#[trigger] old(self).artists@[i]) <= u32::MAX,
        ensures
            final(self).artists@ == ranked(old(self).artists@.map_values(|a: Artist| rescored(a))),
            final(self).format == old(self).format,
            final(self).harvested == old(self).harvested,
            final(self).playlists == old(self).playlists,
    {
        let mut rest: Vec<Artist> = Vec::new();
        std::mem::swap(&mut rest, &mut self.artists);
        let total = rest.len();
        let ghost all = rest@.map_values(|a: Artist| rescored(a));
        let ghost orig = rest@;
        let mut sorted: Vec<Artist> = Vec::new();
        let mut taken: usize = 0;
        while rest.len() > 0
            invariant
                taken + rest@.len() == orig.len(),
                orig.len() == total,
                all == orig.map_values(|a: Artist| rescored(a)),
                rest@ == orig.skip(taken as int),
                sorted@ == ranked(all.take(taken as int)),
                forall|i: int| 0 <= i < orig.len() ==> score_of(#[trigger] orig[i]) <= u32::MAX,
            decreases rest@.len(),
        {
            let mut a = rest.remove(0);
            assert(a == orig[taken as int]);
            a.rescore();
            let ghost s0 = sorted@;
            proof {
                assert(all.take(taken + 1).drop_last() =~= all.take(taken as int));
                assert(all.take(taken + 1).last() == a);
                lemma_rank_slot(s0, a, 0);
            }
            let mut j: usize = 0;
            while j < sorted.len() && !ranks_before_exec(&a, &sorted[j])
                invariant
                    j <= sorted@.len(),
                    s0 == sorted@,
                    rank_slot(s0, a, 0) == rank_slot(s0, a, j as int),
                decreases sorted@.len() - j,
            {
                j = j + 1;
            }
            sorted.insert(j, a);
            taken = taken + 1;
            assert(rest@ =~= orig.skip(taken as int));
        }
        assert(all.take(taken as int) =~= all);
        self.artists = sorted;
    }

    /// Where the artist of Spotify id `id` is, added at the end under
    /// `name` when the library does not have it yet.
    pub fn entry(&mut self, id: &str, name: &str) -> (i: usize)
        ensures
            i < final(self).artists@.len(),
            final(self).artists@[i as int].spotify@ == id@,
            final(self).format == old(self).format,
            final(self).harvested == old(self).harvested,
            final(self).playlists == old(self).playlists,
            (exists|k: int| 0 <= k < old(self).artists@.len() && (#[trigger] old(self).artists@[k]).spotify@ == id@) ==> {
                &&& final(self).artists@ == old(self).artists@
                &&& forall|k: int| 0 <= k < i ==> (#[trigger] old(self).artists@[k]).spotify@ != id@
            },
            !(exists|k: int| 0 <= k < old(self).artists@.len() && (#[trigger] old(self).artists@[k]).spotify@ == id@) ==> {
                &&& i == old(self).artists@.len()
                &&& final(self).artists@.drop_last() == old(self).artists@
                &&& final(self).artists@[i as int].name@ == name@
                &&& final(self).artists@[i as int].liked_tracks == 0
                &&& final(self).artists@[i as int].liked_albums == 0
                &&& !final(self).artists@[i as int].followed
                &&& final(self).artists@[i as int].playlist_tracks == 0
                &&& final(self).artists@[i as int].score == 0
                &&& final(self).artists@[i as int].sources == 0
            },
    {
        let idc = chars_of(id);
        let mut k: usize = 0;
        while k < self.artists.len()
            invariant
                k <= self.artists@.len(),
                self.artists@ == old(self).artists@,
                self.format == old(self).format,
                self.harvested == old(self).harvested,
                self.playlists == old(self).playlists,
                idc@ == id@,
                forall|j: int| 0 <= j < k ==> (#[trigger] self.artists@[j]).spotify@ != id@,
            decreases self.artists@.len() - k,
        {
            if same(&chars_of(self.artists[k].spotify.as_str()), &idc) {
                return k;
            }
            k = k + 1;
        }
        self.artists.push(Artist::new(name, id));
        assert(self.artists@.drop_last() =~= old(self).artists@);
        k
    }
}

// ---------------------------------------------------------------------------
// Totals.

pub open spec fn sum_liked_tracks(s: Seq<Artist>) -> nat
    decreases s.len(),
{
    if s.len() == 0 { 0 } else { sum_liked_tracks(s.drop_last()) + s.last().liked_tracks as nat }
}

pub open spec fn sum_liked_albums(s: Seq<Artist>) -> nat
    decreases s.len(),
{
    if s.len() == 0 { 0 } else { sum_liked_albums(s.drop_last()) + s.last().liked_albums as nat }
}

pub open spec fn sum_playlist_tracks(s: Seq<Artist>) -> nat
    decreases s.len(),
{
    if s.len() == 0 { 0 } else { sum_playlist_tracks(s.drop_last()) + s.last().playlist_tracks as nat }
}

pub open spec fn count_followed(s: Seq<Artist>) -> nat
    decreases s.len(),
{
    if s.len() == 0 { 0 } else { count_followed(s.drop_last()) + if s.last().followed { 1nat } else { 0nat } }
}

proof fn lemma_sums_grow(s: Seq<Artist>, i: int)
    requires
        0 <= i <= s.len(),
    ensures
        sum_liked_tracks(s.take(i)) <= sum_liked_tracks(s),
        sum_liked_albums(s.take(i)) <= sum_liked_albums(s),
        sum_playlist_tracks(s.take(i)) <= sum_playlist_tracks(s),
        count_followed(s.take(i)) <= i,
    decreases s.len() - i,
{
    if i < s.len() {
        lemma_sums_grow(s, i + 1);
        assert(s.take(i + 1).drop_last() =~= s.take(i));
    } else {
        assert(s.take(i) =~= s);
    }
    lemma_followed_bound(s.take(i));
}

proof fn lemma_followed_bound(s: Seq<Artist>)
    ensures
        count_followed(s) <= s.len(),
    decreases s.len(),
{
    if s.len() > 0 {
        lemma_followed_bound(s.drop_last());
    }
}

impl Library {
    pub fn liked_tracks(&self) -> (r: u32)
        requires
            sum_liked_tracks(self.artists@) <= u32::MAX,
        ensures
            r == sum_liked_tracks(self.artists@),
    {
        let mut total: u32 = 0;
        let mut i: usize = 0;
        while i < self.artists.len()
            invariant
                i <= self.artists@.len(),
                total == sum_liked_tracks(self.artists@.take(i as int)),
                sum_liked_tracks(self.artists@) <= u32::MAX,
            decreases self.artists@.len() - i,
        {
            proof {
                assert(self.artists@.take(i + 1).drop_last() =~= self.artists@.take(i as int));
                lemma_sums_grow(self.artists@, i + 1);
            }
            total = total + self.artists[i].liked_tracks;
            i = i + 1;
        }
        assert(self.artists@.take(i as int) =~= self.artists@);
        total
    }

    pub fn liked_albums(&self) -> (r: u32)
        requires
            sum_liked_albums(self.artists@) <= u32::MAX,
        ensures
            r == sum_liked_albums(self.artists@),
    {
        let mut total: u32 = 0;
        let mut i: usize = 0;
        while i < self.artists.len()
            invariant
                i <= self.artists@.len(),
                total == sum_liked_albums(self.artists@.take(i as int)),
                sum_liked_albums(self.artists@) <= u32::MAX,
            decreases self.artists@.len() - i,
        {
            proof {
                assert(self.artists@.take(i + 1).drop_last() =~= self.artists@.take(i as int));
                lemma_sums_grow(self.artists@, i + 1);
            }
            total = total + self.artists[i].liked_albums;
            i = i + 1;
        }
        assert(self.artists@.take(i as int) =~= self.artists@);
        total
    }

    pub fn followed(&self) -> (r: usize)
        ensures
            r == count_followed(self.artists@),
    {
        let mut total: usize = 0;
        let mut i: usize = 0;
        while i < self.artists.len()
            invariant
                i <= self.artists@.len(),
                total == count_followed(self.artists@.take(i as int)),
            decreases self.artists@.len() - i,
        {
            proof {
                assert(self.artists@.take(i + 1).drop_last() =~= self.artists@.take(i as int));
                lemma_sums_grow(self.artists@, i as int);
            }
            if self.artists[i].followed {
                total = total + 1;
            }
            i = i + 1;
        }
        assert(self.artists@.take(i as int) =~= self.artists@);
        total
    }

    pub fn playlist_tracks(&self) -> (r: u32)
        requires
            sum_playlist_tracks(self.artists@) <= u32::MAX,
        ensures
            r == sum_playlist_tracks(self.artists@),
    {
        let mut total: u32 = 0;
        let mut i: usize = 0;
        while i < self.artists.len()
            invariant
                i <= self.artists@.len(),
                total == sum_playlist_tracks(self.artists@.take(i as int)),
                sum_playlist_tracks(self.artists@) <= u32::MAX,
            decreases self.artists@.len() - i,
        {
            proof {
                assert(self.artists@.take(i + 1).drop_last() =~= self.artists@.take(i as int));
                lemma_sums_grow(self.artists@, i + 1);
            }
            total = total + self.artists[i].playlist_tracks;
            i = i + 1;
        }
        assert(self.artists@.take(i as int) =~= self.artists@);
        total
    }
}

// ---------------------------------------------------------------------------
// The ranking crossed with the catalog.

/// The ranking crossed with the catalog: how much of the top has a card,
/// and who is worth generating.
pub struct Coverage {
    /// (label, with a card, total) — score ≥ 20, 10–19, 5–9.
    pub tiers: Vec<(String, usize, usize)>,
    /// The fifty most present: how many have a card, out of how many.
    pub top: (usize, usize),
    /// Score ≥ `COVERAGE_FLOOR` without a card, in the ranking's order, capped.
    pub missing: Vec<(String, u32)>,
    /// How many were above the floor without a card, before the cap.
    pub missing_total: usize,
}

/// The tier of a score: ≥ 20, 10–19, 5–9, or none.
pub open spec fn tier_of(score: u32) -> int {
    if score >= 20 { 0 } else if score >= 10 { 1 } else if score >= COVERAGE_FLOOR { 2 } else { -1 }
}

/// The counts of the coverage over the first artists of the ranking: per
/// tier (with a card, total), the top fifty (with a card, total), and the
/// artists of a tier without a card.
pub open spec fn coverage_acc(arts: Seq<Artist>, known: Seq<bool>) -> (Seq<(nat, nat)>, (nat, nat), Seq<(Seq<char>, u32)>)
    decreases arts.len(),
{
    if arts.len() == 0 {
        (seq![(0nat, 0nat), (0nat, 0nat), (0nat, 0nat)], (0nat, 0nat), seq![])
    } else {
        let prev = coverage_acc(arts.drop_last(), known);
        let i = arts.len() - 1;
        let a = arts.last();
        let k = known[i];
        let one: nat = if k { 1 } else { 0 };
        let top = if i < 50 { (prev.1.0 + one, prev.1.1 + 1) } else { prev.1 };
        let t = tier_of(a.score);
        if t >= 0 {
            (
                prev.0.update(t, (prev.0[t].0 + one, prev.0[t].1 + 1)),
                top,
                if k { prev.2 } else { prev.2.push((a.name@, a.score)) },
            )
        } else {
            (prev.0, top, prev.2)
        }
    }
}

pub open spec fn tier_labels() -> Seq<Seq<char>> {
    seq!["score \u{2265} 20"@, "score 10\u{2013}19"@, "score 5\u{2013}9"@]
}

proof fn lemma_coverage_acc(arts: Seq<Artist>, known: Seq<bool>)
    ensures
        coverage_acc(arts, known).0.len() == 3,
        forall|t: int| 0 <= t < 3 ==> (#[trigger] coverage_acc(arts, known).0[t]).0 <= arts.len()
            && coverage_acc(arts, known).0[t].1 <= arts.len(),
        coverage_acc(arts, known).1.0 <= arts.len() && coverage_acc(arts, known).1.1 <= arts.len(),
        coverage_acc(arts, known).2.len() <= arts.len(),
    decreases arts.len(),
{
    if arts.len() > 0 {
        lemma_coverage_acc(arts.drop_last(), known);
    }
}

/// How many of `flags` are set.
pub open spec fn count_true(flags: Seq<bool>) -> nat
    decreases flags.len(),
{
    if flags.len() == 0 {
        0
    } else {
        count_true(flags.drop_last()) + if flags.last() { 1nat } else { 0nat }
    }
}

/// How many artists the top counts: fifty, or all of them when fewer.
pub open spec fn top_size(n: nat) -> nat {
    if n < 50 { n } else { 50 }
}

/// The top fifty of the coverage: the first fifty artists of the ranking
/// (all of them when fewer), and how many of those have a card.
pub proof fn the_top_is_the_first_fifty(arts: Seq<Artist>, known: Seq<bool>)
    requires
        arts.len() <= known.len(),
    ensures
        coverage_acc(arts, known).1 == (count_true(known.take(top_size(arts.len()) as int)), top_size(arts.len())),
    decreases arts.len(),
{
    if arts.len() > 0 {
        let p = arts.drop_last();
        the_top_is_the_first_fifty(p, known);
        let i = arts.len() - 1;
        if i < 50 {
            assert(known.take(top_size(arts.len()) as int).drop_last() =~= known.take(top_size(p.len()) as int));
        }
    } else {
        assert(known.take(0) =~= Seq::<bool>::empty());
    }
}

/// The tiers by score: 20 and above, 10 to 19, 5 to 9.
pub open spec fn in_tier(score: u32, t: int) -> bool {
    (t == 0 && score >= 20) || (t == 1 && 10 <= score < 20) || (t == 2 && 5 <= score < 10)
}

/// How many of the artists are in tier `t` (with a card only, when
/// `carded`).
pub open spec fn tier_count(arts: Seq<Artist>, known: Seq<bool>, t: int, carded: bool) -> nat
    decreases arts.len(),
{
    if arts.len() == 0 {
        0
    } else {
        let i = arts.len() - 1;
        tier_count(arts.drop_last(), known, t, carded)
            + if in_tier(arts[i].score, t) && (!carded || known[i]) { 1nat } else { 0nat }
    }
}

/// The artists scoring 5 or more without a card, in the ranking's order.
pub open spec fn uncarded(arts: Seq<Artist>, known: Seq<bool>) -> Seq<(Seq<char>, u32)>
    decreases arts.len(),
{
    if arts.len() == 0 {
        seq![]
    } else {
        let i = arts.len() - 1;
        let before = uncarded(arts.drop_last(), known);
        if arts[i].score >= 5 && !known[i] { before.push((arts[i].name@, arts[i].score)) } else { before }
    }
}

/// Each tier counts the artists whose score falls in it, and those of them
/// with a card; the missing are the artists scoring 5 or more without a
/// card, in the ranking's order.
pub proof fn the_tiers_count_the_ranking(arts: Seq<Artist>, known: Seq<bool>)
    requires
        arts.len() <= known.len(),
    ensures
        forall|t: int| 0 <= t < 3 ==> #[trigger] coverage_acc(arts, known).0[t]
            == (tier_count(arts, known, t, true), tier_count(arts, known, t, false)),
        coverage_acc(arts, known).2 == uncarded(arts, known),
    decreases arts.len(),
{
    lemma_coverage_acc(arts, known);
    if arts.len() > 0 {
        the_tiers_count_the_ranking(arts.drop_last(), known);
        lemma_coverage_acc(arts.drop_last(), known);
        assert forall|t: int| 0 <= t < 3 implies #[trigger] coverage_acc(arts, known).0[t]
            == (tier_count(arts, known, t, true), tier_count(arts, known, t, false)) by {
            let i = arts.len() - 1;
            assert(arts.drop_last() =~= arts.take(i));
            assert(tier_of(arts[i].score) == t <==> in_tier(arts[i].score, t));
        }
    } else {
        assert(coverage_acc(arts, known).0 =~= seq![(0nat, 0nat), (0nat, 0nat), (0nat, 0nat)]);
    }
}

/// The coverage of the ranking: `known[i]` says whether the `i`-th artist
/// of the ranking has a card.
pub fn coverage(library: &Library, known: &Vec<bool>) -> (c: Coverage)
    requires
        known@.len() == library.artists@.len(),
    ensures
        c.tiers@.len() == 3,
        forall|t: int| 0 <= t < 3 ==> {
            &&& (#[trigger] c.tiers@[t]).0@ == tier_labels()[t]
            &&& c.tiers@[t].1 == coverage_acc(library.artists@, known@).0[t].0
            &&& c.tiers@[t].2 == coverage_acc(library.artists@, known@).0[t].1
        },
        (c.top.0 as nat, c.top.1 as nat) == coverage_acc(library.artists@, known@).1,
        c.missing@.map_values(|m: (String, u32)| (m.0@, m.1)) == coverage_acc(library.artists@, known@).2.take(
            if coverage_acc(library.artists@, known@).2.len() < COVERAGE_CAP { coverage_acc(library.artists@, known@).2.len() as int } else { COVERAGE_CAP as int },
        ),
        c.missing_total == coverage_acc(library.artists@, known@).2.len(),
        forall|t: int| 0 <= t < 3 ==> (#[trigger] c.tiers@[t]).1 as nat == tier_count(library.artists@, known@, t, true)
            && c.tiers@[t].2 as nat == tier_count(library.artists@, known@, t, false),
        c.missing_total as nat == uncarded(library.artists@, known@).len(),
        c.missing@.map_values(|m: (String, u32)| (m.0@, m.1)) == uncarded(library.artists@, known@).take(
            if uncarded(library.artists@, known@).len() < COVERAGE_CAP { uncarded(library.artists@, known@).len() as int } else { COVERAGE_CAP as int },
        ),
        c.top.1 as nat == top_size(library.artists@.len()),
        c.top.0 as nat == count_true(known@.take(top_size(library.artists@.len()) as int)),
{
    proof {
        the_top_is_the_first_fifty(library.artists@, known@);
        the_tiers_count_the_ranking(library.artists@, known@);
    }
    let mut with: Vec<usize> = vec![0, 0, 0];
    let mut total: Vec<usize> = vec![0, 0, 0];
    let mut top: (usize, usize) = (0, 0);
    let mut missing: Vec<(String, u32)> = Vec::new();
    let mut i: usize = 0;
    assert(library.artists@.take(0) =~= Seq::<Artist>::empty());
    while i < library.artists.len()
        invariant
            i <= library.artists@.len(),
            known@.len() == library.artists@.len(),
            with@.len() == 3 && total@.len() == 3,
            forall|t: int| 0 <= t < 3 ==> with@[t] == (#[trigger] coverage_acc(library.artists@.take(i as int), known@).0[t]).0
                && total@[t] == coverage_acc(library.artists@.take(i as int), known@).0[t].1,
            (top.0 as nat, top.1 as nat) == coverage_acc(library.artists@.take(i as int), known@).1,
            missing@.map_values(|m: (String, u32)| (m.0@, m.1)) == coverage_acc(library.artists@.take(i as int), known@).2,
        decreases library.artists@.len() - i,
    {
        let ghost prefix = library.artists@.take(i + 1);
        proof {
            assert(prefix.drop_last() =~= library.artists@.take(i as int));
            lemma_coverage_acc(library.artists@.take(i as int), known@);
        }
        let a = &library.artists[i];
        let k = known[i];
        if i < 50 {
            assert(top.0 <= i && top.1 <= i);
            top = (top.0 + if k { 1 } else { 0 }, top.1 + 1);
        }
        let t: usize = if a.score >= 20 { 0 } else if a.score >= 10 { 1 } else if a.score >= COVERAGE_FLOOR { 2 } else { 3 };
        if t < 3 {
            assert(with@[t as int] <= i && total@[t as int] <= i) by {
                assert(coverage_acc(library.artists@.take(i as int), known@).0[t as int].0 <= i);
                assert(coverage_acc(library.artists@.take(i as int), known@).0[t as int].1 <= i);
            }
            let w = with[t] + if k { 1 } else { 0 };
            with.set(t, w);
            let n = total[t] + 1;
            total.set(t, n);
            if !k {
                let ghost before = missing@;
                missing.push((a.name.clone(), a.score));
                assert(missing@.map_values(|m: (String, u32)| (m.0@, m.1)) =~= before.map_values(
                    |m: (String, u32)| (m.0@, m.1),
                ).push((a.name@, a.score)));
            }
        }
        i = i + 1;
    }
    assert(library.artists@.take(i as int) =~= library.artists@);
    let missing_total = missing.len();
    let ghost all = missing@.map_values(|m: (String, u32)| (m.0@, m.1));
    missing.truncate(COVERAGE_CAP);
    assert(missing@.map_values(|m: (String, u32)| (m.0@, m.1)) =~= all.take(
        if all.len() < COVERAGE_CAP { all.len() as int } else { COVERAGE_CAP as int },
    ));
    let tiers: Vec<(String, usize, usize)> = vec![
        (String::from_str("score \u{2265} 20"), with[0], total[0]),
        (String::from_str("score 10\u{2013}19"), with[1], total[1]),
        (String::from_str("score 5\u{2013}9"), with[2], total[2]),
    ];
    proof {
        let acc = coverage_acc(library.artists@, known@);
        assert(acc.0[0] == (tier_count(library.artists@, known@, 0, true), tier_count(library.artists@, known@, 0, false)));
        assert(acc.0[1] == (tier_count(library.artists@, known@, 1, true), tier_count(library.artists@, known@, 1, false)));
        assert(acc.0[2] == (tier_count(library.artists@, known@, 2, true), tier_count(library.artists@, known@, 2, false)));
    }
    Coverage { tiers, top, missing, missing_total }
}

/// Whether a name has a card: its slug is a card's, or the slug of a name
/// a card carries — a card whose name moved on still counts under either.
pub struct CardFinder {
    slugs: Vec<String>,
    names: Vec<String>,
}

impl CardFinder {
    pub closed spec fn known_slugs(&self) -> Seq<Seq<char>> {
        strings(self.slugs@) + strings(self.names@)
    }

    /// The finder of a catalog: its cards' slugs, and their names.
    pub fn new(slugs: &Vec<String>, names: &Vec<String>) -> (f: CardFinder)
        ensures
            f.known_slugs() == strings(slugs@) + names@.map_values(|n: String| slug_of_name(n@)),
    {
        let mut own: Vec<String> = Vec::new();
        let mut i: usize = 0;
        while i < slugs.len()
            invariant
                i <= slugs@.len(),
                strings(own@) == strings(slugs@).take(i as int),
            decreases slugs@.len() - i,
        {
            let ghost before = own@;
            own.push(slugs[i].clone());
            assert(strings(own@) =~= strings(before).push(slugs@[i as int]@));
            assert(strings(slugs@).take(i + 1) =~= strings(slugs@).take(i as int).push(slugs@[i as int]@));
            assert(strings(own@) =~= strings(slugs@).take(i + 1));
            i = i + 1;
        }
        assert(strings(slugs@).take(i as int) =~= strings(slugs@));
        let mut named: Vec<String> = Vec::new();
        let mut j: usize = 0;
        while j < names.len()
            invariant
                j <= names@.len(),
                strings(named@) == names@.take(j as int).map_values(|n: String| slug_of_name(n@)),
            decreases names@.len() - j,
        {
            let ghost before = named@;
            let one = slugify(names[j].as_str());
            named.push(one);
            assert(strings(named@) =~= strings(before).push(one@));
            assert(names@.take(j + 1) =~= names@.take(j as int).push(names@[j as int]));
            assert(strings(named@) =~= names@.take(j + 1).map_values(|n: String| slug_of_name(n@)));
            j = j + 1;
        }
        assert(names@.take(j as int) =~= names@);
        CardFinder { slugs: own, names: named }
    }

    /// Does the artist of that name have a card?
    pub fn has_card(&self, name: &str) -> (r: bool)
        ensures
            r == self.known_slugs().contains(slug_of_name(name@)),
    {
        let slug = chars_of(slugify(name).as_str());
        let mut i: usize = 0;
        while i < self.slugs.len()
            invariant
                i <= self.slugs@.len(),
                slug@ == slug_of_name(name@),
                forall|k: int| 0 <= k < i ==> strings(self.slugs@)[k] != slug@,
            decreases self.slugs@.len() - i,
        {
            if same(&chars_of(self.slugs[i].as_str()), &slug) {
                assert(self.known_slugs()[i as int] == slug@);
                return true;
            }
            i = i + 1;
        }
        let mut j: usize = 0;
        while j < self.names.len()
            invariant
                j <= self.names@.len(),
                slug@ == slug_of_name(name@),
                forall|k: int| 0 <= k < self.slugs@.len() ==> strings(self.slugs@)[k] != slug@,
                forall|k: int| 0 <= k < j ==> strings(self.names@)[k] != slug@,
            decreases self.names@.len() - j,
        {
            if same(&chars_of(self.names[j].as_str()), &slug) {
                assert(self.known_slugs()[self.slugs@.len() + j] == slug@);
                return true;
            }
            j = j + 1;
        }
        assert forall|k: int| 0 <= k < self.known_slugs().len() implies self.known_slugs()[k] != slug@ by {
            if k < self.slugs@.len() {
                assert(self.known_slugs()[k] == strings(self.slugs@)[k]);
            } else {
                assert(self.known_slugs()[k] == strings(self.names@)[k - self.slugs@.len()]);
            }
        }
        false
    }
}

/// The name → slug rule the catalog and the seed share, plus the names the
/// cards carry.
pub fn card_finder(slugs: &Vec<String>, names: &Vec<String>) -> (f: CardFinder)
    ensures
        f.known_slugs() == strings(slugs@) + names@.map_values(|n: String| slug_of_name(n@)),
{
    CardFinder::new(slugs, names)
}

// ---------------------------------------------------------------------------
// The playlists, as the setup lists them.

/// One of the listener's playlists, as the step lists them.
pub struct PlaylistInfo {
    pub id: String,
    pub name: String,
    pub tracks: usize,
    /// "you", "spotify", or "someone else".
    pub owner: String,
}

/// Who a playlist belongs to, said as the step says it.
pub open spec fn owner_word_of(owner_id: Seq<char>, me: Seq<char>) -> Seq<char> {
    if owner_id == me { "you"@ } else if owner_id == "spotify"@ { "spotify"@ } else { "someone else"@ }
}

pub fn owner_word(owner_id: &str, me: &str) -> (r: String)
    ensures
        r@ == owner_word_of(owner_id@, me@),
{
    if same_str(owner_id, me) {
        String::from_str("you")
    } else if same_str(owner_id, "spotify") {
        String::from_str("spotify")
    } else {
        String::from_str("someone else")
    }
}

/// The listener's own first, then someone else's, then Spotify's.
pub open spec fn owner_rank(owner: Seq<char>) -> int {
    if owner == "you"@ { 0 } else if owner == "someone else"@ { 1 } else { 2 }
}

/// `a` comes before `b` among the playlists: its owner ranks first, or the
/// same rank and its name, in lower case, first in order.
pub open spec fn listed_before(a: PlaylistInfo, b: PlaylistInfo) -> bool {
    owner_rank(a.owner@) < owner_rank(b.owner@)
        || (owner_rank(a.owner@) == owner_rank(b.owner@) && lex_lt(lowercase(a.name@), lowercase(b.name@)))
}

pub open spec fn list_slot(sorted: Seq<PlaylistInfo>, p: PlaylistInfo, i: int) -> int
    decreases sorted.len() - i,
{
    if i < 0 || i >= sorted.len() || listed_before(p, sorted[i]) { i } else { list_slot(sorted, p, i + 1) }
}

/// The playlists in the step's order; equal ones keep theirs.
pub open spec fn listed(s: Seq<PlaylistInfo>) -> Seq<PlaylistInfo>
    decreases s.len(),
{
    if s.len() == 0 {
        seq![]
    } else {
        let r = listed(s.drop_last());
        r.insert(list_slot(r, s.last(), 0), s.last())
    }
}

proof fn lemma_list_slot(sorted: Seq<PlaylistInfo>, p: PlaylistInfo, i: int)
    requires
        0 <= i <= sorted.len(),
    ensures
        i <= list_slot(sorted, p, i) <= sorted.len(),
    decreases sorted.len() - i,
{
    if i < sorted.len() && !listed_before(p, sorted[i]) {
        lemma_list_slot(sorted, p, i + 1);
    }
}

fn owner_rank_exec(owner: &str) -> (r: u8)
    ensures
        r == owner_rank(owner@),
{
    if same_str(owner, "you") { 0 } else if same_str(owner, "someone else") { 1 } else { 2 }
}

fn listed_before_exec(a: &PlaylistInfo, b: &PlaylistInfo) -> (r: bool)
    ensures
        r == listed_before(*a, *b),
{
    let ra = owner_rank_exec(a.owner.as_str());
    let rb = owner_rank_exec(b.owner.as_str());
    if ra != rb {
        return ra < rb;
    }
    let la = chars_of(to_lowercase(a.name.as_str()).as_str());
    let lb = chars_of(to_lowercase(b.name.as_str()).as_str());
    lex_less(&la, &lb)
}

/// The listener's playlists, theirs first, then by name.
pub fn sort_playlists(v: Vec<PlaylistInfo>) -> (r: Vec<PlaylistInfo>)
    ensures
        r@ == listed(v@),
{
    let mut v = v;
    let total = v.len();
    let ghost all = v@;
    let mut sorted: Vec<PlaylistInfo> = Vec::new();
    let mut taken: usize = 0;
    while v.len() > 0
        invariant
            taken + v@.len() == all.len(),
            all.len() == total,
            v@ == all.skip(taken as int),
            sorted@ == listed(all.take(taken as int)),
        decreases v@.len(),
    {
        let p = v.remove(0);
        let ghost s0 = sorted@;
        proof {
            assert(all.take(taken + 1).drop_last() =~= all.take(taken as int));
            assert(all.take(taken + 1).last() == p);
            lemma_list_slot(s0, p, 0);
        }
        let mut j: usize = 0;
        while j < sorted.len() && !listed_before_exec(&p, &sorted[j])
            invariant
                j <= sorted@.len(),
                s0 == sorted@,
                list_slot(s0, p, 0) == list_slot(s0, p, j as int),
            decreases sorted@.len() - j,
        {
            j = j + 1;
        }
        sorted.insert(j, p);
        taken = taken + 1;
        assert(v@ =~= all.skip(taken as int));
    }
    assert(all.take(taken as int) =~= all);
    sorted
}

/// The main artist of a track or an album: the first one, when it has an
/// id and a name.
pub fn main_artist(artists: &Vec<(Option<String>, Option<String>)>) -> (r: Option<(String, String)>)
    ensures
        match r {
            Some((id, name)) => artists@.len() > 0 && artists@[0].0 == Some(id) && artists@[0].1 == Some(name),
            None => artists@.len() == 0 || artists@[0].0 is None || artists@[0].1 is None,
        },
{
    if artists.len() == 0 {
        return None;
    }
    match (&artists[0].0, &artists[0].1) {
        (Some(id), Some(name)) => Some((id.clone(), name.clone())),
        _ => None,
    }
}

// ---------------------------------------------------------------------------
// What the ranking is.

proof fn lemma_ranks_before_asymmetric(a: Artist, b: Artist)
    requires
        ranks_before(a, b),
    ensures
        !ranks_before(b, a),
{
    if a.score == b.score && lex_lt(a.name@, b.name@) && lex_lt(b.name@, a.name@) {
        lemma_lex_transitive(a.name@, b.name@, a.name@);
        lemma_lex_irreflexive(a.name@);
    }
}

proof fn lemma_ranks_before_transitive(a: Artist, b: Artist, c: Artist)
    requires
        ranks_before(a, b),
        ranks_before(b, c),
    ensures
        ranks_before(a, c),
{
    if a.score == b.score && b.score == c.score {
        lemma_lex_transitive(a.name@, b.name@, c.name@);
    }
}

proof fn lemma_rank_slot_props(r: Seq<Artist>, x: Artist, i: int)
    requires
        0 <= i <= r.len(),
    ensures
        forall|k: int| i <= k < rank_slot(r, x, i) ==> !ranks_before(x, #[trigger] r[k]),
        rank_slot(r, x, i) < r.len() ==> ranks_before(x, r[rank_slot(r, x, i)]),
    decreases r.len() - i,
{
    lemma_rank_slot(r, x, i);
    if i < r.len() && !ranks_before(x, r[i]) {
        lemma_rank_slot_props(r, x, i + 1);
    }
}

/// In ranking order: no artist ranks before one placed ahead of it.
pub open spec fn in_rank_order(r: Seq<Artist>) -> bool {
    forall|i: int, j: int| 0 <= i < j < r.len() ==> !ranks_before(#[trigger] r[j], #[trigger] r[i])
}

/// The ranking holds every artist once, and in order: best score first,
/// then by name.
pub proof fn the_ranking_is_ordered(s: Seq<Artist>)
    ensures
        in_rank_order(ranked(s)),
        ranked(s).to_multiset() == s.to_multiset(),
    decreases s.len(),
{
    broadcast use vstd::seq_lib::to_multiset_insert, vstd::seq_lib::to_multiset_build;
    if s.len() == 0 {
        assert(ranked(s) =~= s);
    } else {
        let init = s.drop_last();
        the_ranking_is_ordered(init);
        let r = ranked(init);
        let x = s.last();
        let k = rank_slot(r, x, 0);
        lemma_rank_slot_props(r, x, 0);
        lemma_rank_slot(r, x, 0);
        let n = r.insert(k, x);
        assert(ranked(s) == n);
        assert(s =~= init.push(x));
        assert forall|i: int, j: int| 0 <= i < j < n.len() implies !ranks_before(#[trigger] n[j], #[trigger] n[i]) by {
            if j < k {
                assert(n[i] == r[i] && n[j] == r[j]);
            } else if j == k {
                assert(n[j] == x && n[i] == r[i]);
            } else if i == k {
                assert(n[i] == x && n[j] == r[j - 1]);
                assert(ranks_before(x, r[k]));
                if j - 1 == k {
                    lemma_ranks_before_asymmetric(x, r[k]);
                } else {
                    assert(!ranks_before(r[j - 1], r[k]));
                    if ranks_before(r[j - 1], x) {
                        lemma_ranks_before_transitive(r[j - 1], x, r[k]);
                    }
                }
            } else if i < k {
                assert(n[i] == r[i] && n[j] == r[j - 1]);
            } else {
                assert(n[i] == r[i - 1] && n[j] == r[j - 1]);
            }
        }
    }
}

} // verus!
