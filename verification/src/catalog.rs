//! The active catalog as its cards say it: links, doors, and the grid of
//! proximities. Reading the files is the caller's; resolving a link's
//! proximity and searching the names is here.

use vstd::prelude::*;
use crate::text::{chars_of, contains, contains_in, lowercase, to_lowercase, same_str};
use crate::edit::{byte_offset, strings};
use crate::fork::{lex_lt, lex_less, lemma_lex_irreflexive, lemma_lex_transitive};

verus! {

pub struct Link {
    pub to: String,
    pub kind: String,
    pub note: Option<String>,
    pub proximity: Option<u8>,
}

/// A door: one track singled out as the way out of an artist towards a
/// direction. `to` points at tags, never at artists.
pub struct Door {
    pub track: String,
    pub to: Vec<String>,
    pub note: Option<String>,
}

pub struct Card {
    pub name: String,
    pub tags: Vec<String>,
    pub tops: Vec<String>,
    pub doors: Vec<Door>,
    pub links: Vec<Link>,
}

/// The built-in grid, the reference catalog's own.
pub open spec fn default_proximity(kind: Seq<char>) -> Option<u8> {
    if kind == "member"@ {
        Some(5u8)
    } else if kind == "collab"@ || kind == "similar"@ {
        Some(4u8)
    } else if kind == "family"@ || kind == "scene"@ {
        Some(3u8)
    } else if kind == "influence"@ {
        Some(2u8)
    } else {
        None
    }
}

/// The proximity the catalog's own grid gives a type of link.
pub open spec fn grid_proximity(grid: Seq<(Seq<char>, u8)>, kind: Seq<char>) -> Option<u8>
    decreases grid.len(),
{
    if grid.len() == 0 {
        None
    } else if grid[0].0 == kind {
        Some(grid[0].1)
    } else {
        grid_proximity(grid.drop_first(), kind)
    }
}

/// A link's proximity, in cascade: the link itself, the catalog's grid, the
/// built-in grid, and 3 for a type nobody knows.
pub open spec fn proximity_of(link: Link, grid: Seq<(Seq<char>, u8)>) -> u8 {
    match link.proximity {
        Some(p) => p,
        None => match grid_proximity(grid, link.kind@) {
            Some(p) => p,
            None => match default_proximity(link.kind@) { Some(p) => p, None => 3u8 },
        },
    }
}

pub open spec fn grid_view(grid: Seq<(String, u8)>) -> Seq<(Seq<char>, u8)> {
    grid.map_values(|e: (String, u8)| (e.0@, e.1))
}

fn default_proximity_exec(kind: &str) -> (r: Option<u8>)
    ensures
        r == default_proximity(kind@),
{
    if same_str(kind, "member") {
        Some(5)
    } else if same_str(kind, "collab") || same_str(kind, "similar") {
        Some(4)
    } else if same_str(kind, "family") || same_str(kind, "scene") {
        Some(3)
    } else if same_str(kind, "influence") {
        Some(2)
    } else {
        None
    }
}

/// A link's proximity, resolved in cascade: the link itself, the catalog's
/// grid, the built-in defaults.
pub fn proximity(link: &Link, grid: &Vec<(String, u8)>) -> (r: u8)
    ensures
        r == proximity_of(*link, grid_view(grid@)),
{
    if let Some(p) = link.proximity {
        return p;
    }
    let kind = link.kind.as_str();
    let ghost g = grid_view(grid@);
    assert(g.skip(0) =~= g);
    let mut i: usize = 0;
    while i < grid.len()
        invariant
            i <= grid@.len(),
            g == grid_view(grid@),
            link.proximity is None,
            kind@ == link.kind@,
            grid_proximity(g, kind@) == grid_proximity(g.skip(i as int), kind@),
        decreases grid@.len() - i,
    {
        proof {
            assert(g.skip(i as int).drop_first() =~= g.skip(i + 1));
            assert(g.skip(i as int)[0] == (grid@[i as int].0@, grid@[i as int].1));
        }
        if same_str(grid[i].0.as_str(), kind) {
            return grid[i].1;
        }
        i = i + 1;
    }
    match default_proximity_exec(kind) {
        Some(p) => p,
        None => 3,
    }
}

// ---------------------------------------------------------------------------
// The `/` search: the slugs whose card name holds the query.

/// `a` comes before `b` among the hits: a shorter name, in bytes, or the
/// same length and a slug first in order.
pub open spec fn hit_before(a: (Seq<char>, Seq<char>), b: (Seq<char>, Seq<char>)) -> bool {
    byte_offset(a.1, a.1.len() as int) < byte_offset(b.1, b.1.len() as int)
        || (byte_offset(a.1, a.1.len() as int) == byte_offset(b.1, b.1.len() as int) && lex_lt(a.0, b.0))
}

pub open spec fn hit_slot(sorted: Seq<(Seq<char>, Seq<char>)>, h: (Seq<char>, Seq<char>), i: int) -> int
    decreases sorted.len() - i,
{
    if i < 0 || i >= sorted.len() || hit_before(h, sorted[i]) { i } else { hit_slot(sorted, h, i + 1) }
}

/// The cards (slug, name) whose name holds the query, case aside, sorted:
/// the shorter names first, then by slug.
pub open spec fn hits_of(cards: Seq<(Seq<char>, Seq<char>)>, needle: Seq<char>) -> Seq<(Seq<char>, Seq<char>)>
    decreases cards.len(),
{
    if cards.len() == 0 {
        seq![]
    } else {
        let r = hits_of(cards.drop_last(), needle);
        let c = cards.last();
        if contains(lowercase(c.1), needle) { r.insert(hit_slot(r, c, 0), c) } else { r }
    }
}

/// `hits_of` for ASCII names and query, lowered in ASCII.
pub open spec fn ascii_hits_of(cards: Seq<(Seq<char>, Seq<char>)>, needle: Seq<char>) -> Seq<(Seq<char>, Seq<char>)>
    decreases cards.len(),
{
    if cards.len() == 0 {
        seq![]
    } else {
        let r = ascii_hits_of(cards.drop_last(), needle);
        let c = cards.last();
        if contains(crate::text::ascii_lowered(c.1), needle) { r.insert(hit_slot(r, c, 0), c) } else { r }
    }
}

/// One of the cards, whose name holds the needle once lowered.
pub open spec fn name_holds(cards: Seq<(Seq<char>, Seq<char>)>, needle: Seq<char>, h: (Seq<char>, Seq<char>)) -> bool {
    exists|i: int| 0 <= i < cards.len() && cards[i] == h && contains(lowercase(cards[i].1), needle)
}

/// `c` is among the hits.
pub open spec fn listed(hits: Seq<(Seq<char>, Seq<char>)>, c: (Seq<char>, Seq<char>)) -> bool {
    exists|k: int| 0 <= k < hits.len() && hits[k] == c
}

proof fn lemma_listed_insert(r: Seq<(Seq<char>, Seq<char>)>, s: int, x: (Seq<char>, Seq<char>), y: (Seq<char>, Seq<char>))
    requires
        0 <= s <= r.len(),
    ensures
        listed(r.insert(s, x), y) <==> (listed(r, y) || y == x),
{
    let n = r.insert(s, x);
    if listed(n, y) {
        let k = choose|k: int| 0 <= k < n.len() && n[k] == y;
        if k < s {
            assert(r[k] == y);
        } else if k > s {
            assert(r[k - 1] == y);
        }
    }
    if listed(r, y) {
        let k = choose|k: int| 0 <= k < r.len() && r[k] == y;
        if k < s {
            assert(n[k] == y);
        } else {
            assert(n[k + 1] == y);
        }
    }
    if y == x {
        assert(n[s] == x);
    }
}

/// The hits are exactly the cards whose name, lowered, holds the lowered
/// query: each hit is such a card, and each such card is a hit.
pub proof fn hits_are_the_names_holding_the_query(cards: Seq<(Seq<char>, Seq<char>)>, needle: Seq<char>)
    ensures
        forall|k: int| 0 <= k < hits_of(cards, needle).len() ==> name_holds(cards, needle, #[trigger] hits_of(cards, needle)[k]),
        forall|i: int| 0 <= i < cards.len() && contains(lowercase(cards[i].1), needle)
            ==> listed(hits_of(cards, needle), #[trigger] cards[i]),
    decreases cards.len(),
{
    if cards.len() > 0 {
        let p = cards.drop_last();
        hits_are_the_names_holding_the_query(p, needle);
        let r = hits_of(p, needle);
        let c = cards.last();
        let h = hits_of(cards, needle);
        if contains(lowercase(c.1), needle) {
            lemma_hit_slot(r, c, 0);
            let s = hit_slot(r, c, 0);
            assert(h == r.insert(s, c));
            assert forall|k: int| 0 <= k < h.len() implies name_holds(cards, needle, #[trigger] h[k]) by {
                assert(listed(h, h[k]));
                lemma_listed_insert(r, s, c, h[k]);
                if h[k] == c {
                    assert(cards[cards.len() - 1] == c);
                } else {
                    let j = choose|j: int| 0 <= j < r.len() && r[j] == h[k];
                    assert(name_holds(p, needle, r[j]));
                    let i = choose|i: int| 0 <= i < p.len() && p[i] == r[j] && contains(lowercase(p[i].1), needle);
                    assert(cards[i] == p[i]);
                }
            }
            assert forall|i: int| 0 <= i < cards.len() && contains(lowercase(cards[i].1), needle)
                implies listed(h, #[trigger] cards[i]) by {
                lemma_listed_insert(r, s, c, cards[i]);
                if i < p.len() {
                    assert(cards[i] == p[i]);
                }
            }
        } else {
            assert forall|k: int| 0 <= k < h.len() implies name_holds(cards, needle, #[trigger] h[k]) by {
                assert(name_holds(p, needle, r[k]));
                let i = choose|i: int| 0 <= i < p.len() && p[i] == r[k] && contains(lowercase(p[i].1), needle);
                assert(cards[i] == p[i]);
            }
            assert forall|i: int| 0 <= i < cards.len() && contains(lowercase(cards[i].1), needle)
                implies listed(h, #[trigger] cards[i]) by {
                assert(i < p.len());
                assert(cards[i] == p[i]);
            }
        }
    }
}

/// A name's length in UTF-8 bytes.
pub open spec fn name_bytes(name: Seq<char>) -> nat {
    byte_offset(name, name.len() as int)
}

/// The hits come shorter names first, in bytes, and among names as long,
/// by slug: no hit stands after one it should come before.
pub open spec fn shortest_first(h: Seq<(Seq<char>, Seq<char>)>) -> bool {
    forall|i: int, j: int| #![trigger h[i], h[j]] 0 <= i < j < h.len() ==>
        name_bytes(h[i].1) < name_bytes(h[j].1)
            || (name_bytes(h[i].1) == name_bytes(h[j].1) && !lex_lt(h[j].0, h[i].0))
}

proof fn lemma_hit_order(a: (Seq<char>, Seq<char>), b: (Seq<char>, Seq<char>), c: (Seq<char>, Seq<char>))
    ensures
        hit_before(a, b) && hit_before(b, c) ==> hit_before(a, c),
        !(hit_before(a, b) && hit_before(b, a)),
{
    if hit_before(a, b) && hit_before(b, c) && name_bytes(a.1) == name_bytes(b.1) && name_bytes(b.1) == name_bytes(c.1) {
        lemma_lex_transitive(a.0, b.0, c.0);
    }
    if hit_before(a, b) && hit_before(b, a) {
        lemma_lex_transitive(a.0, b.0, a.0);
        lemma_lex_irreflexive(a.0);
    }
}

proof fn lemma_slot_bounds(sorted: Seq<(Seq<char>, Seq<char>)>, h: (Seq<char>, Seq<char>), i: int)
    requires
        0 <= i <= sorted.len(),
    ensures
        forall|j: int| i <= j < hit_slot(sorted, h, i) ==> !hit_before(h, #[trigger] sorted[j]),
        hit_slot(sorted, h, i) < sorted.len() ==> hit_before(h, sorted[hit_slot(sorted, h, i)]),
    decreases sorted.len() - i,
{
    if i < sorted.len() && !hit_before(h, sorted[i]) {
        lemma_slot_bounds(sorted, h, i + 1);
    }
}

proof fn lemma_in_order(h: Seq<(Seq<char>, Seq<char>)>, i: int, j: int)
    requires
        shortest_first(h),
        0 <= i < j < h.len(),
    ensures
        !hit_before(h[j], h[i]),
{
    assert(name_bytes(h[i].1) < name_bytes(h[j].1)
        || (name_bytes(h[i].1) == name_bytes(h[j].1) && !lex_lt(h[j].0, h[i].0)));
}

/// The hits come shorter names first, in bytes, then by slug.
pub proof fn hits_come_shortest_first(cards: Seq<(Seq<char>, Seq<char>)>, needle: Seq<char>)
    ensures
        shortest_first(hits_of(cards, needle)),
    decreases cards.len(),
{
    if cards.len() > 0 {
        let p = cards.drop_last();
        hits_come_shortest_first(p, needle);
        let r = hits_of(p, needle);
        let c = cards.last();
        if contains(lowercase(c.1), needle) {
            lemma_hit_slot(r, c, 0);
            lemma_slot_bounds(r, c, 0);
            let s = hit_slot(r, c, 0);
            let n = r.insert(s, c);
            assert(hits_of(cards, needle) == n);
            assert forall|i: int, j: int| #![trigger n[i], n[j]] 0 <= i < j < n.len() implies
                name_bytes(n[i].1) < name_bytes(n[j].1)
                    || (name_bytes(n[i].1) == name_bytes(n[j].1) && !lex_lt(n[j].0, n[i].0)) by {
                if j < s {
                    assert(n[i] == r[i] && n[j] == r[j]);
                    lemma_in_order(r, i, j);
                } else if j == s {
                    assert(n[i] == r[i] && n[j] == c);
                } else if i == s {
                    assert(n[j] == r[j - 1]);
                    lemma_hit_order(r[j - 1], c, r[s]);
                    if j - 1 > s {
                        lemma_in_order(r, s, j - 1);
                    }
                } else if i < s {
                    assert(n[i] == r[i] && n[j] == r[j - 1]);
                    lemma_in_order(r, i, j - 1);
                } else {
                    assert(n[i] == r[i - 1] && n[j] == r[j - 1]);
                    lemma_in_order(r, i - 1, j - 1);
                }
            }
        }
    }
}

/// `slug` is the slug of a card whose name, lowered, holds the needle.
pub open spec fn slug_of_a_hit(cards: Seq<(String, String)>, needle: Seq<char>, slug: Seq<char>) -> bool {
    exists|i: int| 0 <= i < cards.len() && cards[i].0@ == slug && contains(lowercase(cards[i].1@), needle)
}

proof fn lemma_search_result(cards: Seq<(String, String)>, needle: Seq<char>, limit: int, r: Seq<String>)
    requires
        limit >= 0,
        strings(r) == hits_of(cards_view(cards), needle).take(
            if hits_of(cards_view(cards), needle).len() < limit { hits_of(cards_view(cards), needle).len() as int } else { limit },
        ).map_values(|h: (Seq<char>, Seq<char>)| h.0),
    ensures
        forall|k: int| 0 <= k < r.len() ==> slug_of_a_hit(cards, needle, #[trigger] r[k]@),
        r.len() < limit ==> forall|i: int| 0 <= i < cards.len() && contains(lowercase(#[trigger] cards[i].1@), needle)
            ==> exists|k: int| 0 <= k < r.len() && r[k]@ == cards[i].0@,
{
    let cv = cards_view(cards);
    let all = hits_of(cv, needle);
    hits_are_the_names_holding_the_query(cv, needle);
    let m: int = if all.len() < limit { all.len() as int } else { limit };
    assert(r.len() == strings(r).len());
    assert(r.len() == m);
    assert forall|k: int| 0 <= k < m implies strings(r)[k] == (#[trigger] all[k]).0 by {
        assert(all.take(m)[k] == all[k]);
    }
    assert forall|k: int| 0 <= k < r.len() implies slug_of_a_hit(cards, needle, #[trigger] r[k]@) by {
        assert(strings(r)[k] == r[k]@);
        assert(strings(r)[k] == all[k].0);
        assert(name_holds(cv, needle, all[k]));
        let i = choose|i: int| 0 <= i < cv.len() && cv[i] == all[k] && contains(lowercase(cv[i].1), needle);
        assert(cv[i] == (cards[i].0@, cards[i].1@));
        assert(cards[i].0@ == r[k]@ && contains(lowercase(cards[i].1@), needle));
    }
    if r.len() < limit {
        assert(r.len() == all.len());
        assert forall|i: int| 0 <= i < cards.len() && contains(lowercase(#[trigger] cards[i].1@), needle)
            implies exists|k: int| 0 <= k < r.len() && r[k]@ == cards[i].0@ by {
            assert(cv[i] == (cards[i].0@, cards[i].1@));
            assert(listed(all, cv[i]));
            let k = choose|k: int| 0 <= k < all.len() && all[k] == cv[i];
            assert(strings(r)[k] == all[k].0);
            assert(strings(r)[k] == r[k]@);
        }
    }
}

/// A query and names all in ASCII.
pub open spec fn ascii_search(cards: Seq<(String, String)>, query: Seq<char>) -> bool {
    &&& crate::text::is_ascii_text(query)
    &&& forall|i: int| 0 <= i < cards.len() ==> crate::text::is_ascii_text(#[trigger] cards[i].1@)
}

pub open spec fn cards_view(cards: Seq<(String, String)>) -> Seq<(Seq<char>, Seq<char>)> {
    cards.map_values(|c: (String, String)| (c.0@, c.1@))
}

proof fn lemma_hit_slot(sorted: Seq<(Seq<char>, Seq<char>)>, h: (Seq<char>, Seq<char>), i: int)
    requires
        0 <= i <= sorted.len(),
    ensures
        i <= hit_slot(sorted, h, i) <= sorted.len(),
    decreases sorted.len() - i,
{
    if i < sorted.len() && !hit_before(h, sorted[i]) {
        lemma_hit_slot(sorted, h, i + 1);
    }
}

/// A name's length in bytes, counted without overflow up to `u64`.
fn byte_len(s: &str) -> (r: u64)
    requires
        byte_offset(s@, s@.len() as int) <= u64::MAX,
    ensures
        r == byte_offset(s@, s@.len() as int),
{
    let c = chars_of(s);
    let mut i: usize = 0;
    let mut n: u64 = 0;
    while i < c.len()
        invariant
            i <= c@.len(),
            c@ == s@,
            n == byte_offset(c@, i as int),
            byte_offset(c@, c@.len() as int) <= u64::MAX,
        decreases c@.len() - i,
    {
        proof { lemma_offset_grows(c@, i + 1, c@.len() as int); }
        let x = c[i] as u32;
        let w: u64 = if x < 0x80 { 1 } else if x < 0x800 { 2 } else if x < 0x10000 { 3 } else { 4 };
        n = n + w;
        i = i + 1;
    }
    n
}

proof fn lemma_offset_grows(s: Seq<char>, i: int, j: int)
    requires
        0 <= i <= j <= s.len(),
    ensures
        byte_offset(s, i) <= byte_offset(s, j),
    decreases j - i,
{
    if i < j {
        lemma_offset_grows(s, i, j - 1);
    }
}

/// Slugs whose card name matches the query (case-insensitive substring),
/// for the `/` search — shorter names first, then by slug, `limit` at most.
pub fn search_names(cards: &Vec<(String, String)>, query: &str, limit: usize) -> (r: Vec<String>)
    requires
        forall|i: int| 0 <= i < cards@.len() ==>
            byte_offset(#[trigger] cards@[i].1@, cards@[i].1@.len() as int) <= u64::MAX,
    ensures
        strings(r@) == hits_of(cards_view(cards@), lowercase(query@)).take(
            if hits_of(cards_view(cards@), lowercase(query@)).len() < limit {
                hits_of(cards_view(cards@), lowercase(query@)).len() as int
            } else {
                limit as int
            },
        ).map_values(|h: (Seq<char>, Seq<char>)| h.0),
        r@.len() <= limit,
        forall|k: int| 0 <= k < r@.len() ==> slug_of_a_hit(cards@, lowercase(query@), #[trigger] r@[k]@),
        r@.len() < limit ==> forall|i: int| 0 <= i < cards@.len() && contains(lowercase(#[trigger] cards@[i].1@), lowercase(query@))
            ==> exists|k: int| 0 <= k < r@.len() && r@[k]@ == cards@[i].0@,
        ascii_search(cards@, query@) ==> hits_of(cards_view(cards@), lowercase(query@)) == ascii_hits_of(
            cards_view(cards@),
            crate::text::ascii_lowered(query@),
        ),
{
    let needle = chars_of(to_lowercase(query).as_str());
    let ghost cv = cards_view(cards@);
    let mut hits: Vec<(String, String, u64)> = Vec::new();
    let mut i: usize = 0;
    while i < cards.len()
        invariant
            i <= cards@.len(),
            cv == cards_view(cards@),
            needle@ == lowercase(query@),
            hits@.map_values(|h: (String, String, u64)| (h.0@, h.1@)) == hits_of(cv.take(i as int), needle@),
            forall|k: int| 0 <= k < hits@.len() ==> (#[trigger] hits@[k]).2 == byte_offset(hits@[k].1@, hits@[k].1@.len() as int),
            forall|k: int| 0 <= k < cards@.len() ==>
                byte_offset(#[trigger] cards@[k].1@, cards@[k].1@.len() as int) <= u64::MAX,
            ascii_search(cards@, query@) ==> needle@ == crate::text::ascii_lowered(query@)
                && hits_of(cv.take(i as int), needle@) == ascii_hits_of(cv.take(i as int), needle@),
        decreases cards@.len() - i,
    {
        let ghost t = cv.take(i + 1);
        proof {
            assert(t.drop_last() =~= cv.take(i as int));
            assert(t.last() == (cards@[i as int].0@, cards@[i as int].1@));
        }
        let name = cards[i].1.as_str();
        proof {
            if ascii_search(cards@, query@) {
                assert(crate::text::is_ascii_text(cards@[i as int].1@));
            }
        }
        let lower = chars_of(to_lowercase(name).as_str());
        proof {
            if ascii_search(cards@, query@) {
                assert(lower@ == crate::text::ascii_lowered(t.last().1));
                assert(hits_of(t, needle@) == ascii_hits_of(t, needle@));
            }
        }
        if contains_in(&lower, &needle) {
            let len = byte_len(name);
            let slug = chars_of(cards[i].0.as_str());
            let ghost hv = hits@.map_values(|h: (String, String, u64)| (h.0@, h.1@));
            let ghost c = (cards@[i as int].0@, cards@[i as int].1@);
            proof { lemma_hit_slot(hv, c, 0); }
            let mut j: usize = 0;
            while j < hits.len()
                && !(len < hits[j].2 || (len == hits[j].2 && lex_less(&slug, &chars_of(hits[j].0.as_str()))))
                invariant
                    j <= hits@.len(),
                    hv == hits@.map_values(|h: (String, String, u64)| (h.0@, h.1@)),
                    slug@ == c.0,
                    len == byte_offset(c.1, c.1.len() as int),
                    forall|k: int| 0 <= k < hits@.len() ==> (#[trigger] hits@[k]).2 == byte_offset(hits@[k].1@, hits@[k].1@.len() as int),
                    hit_slot(hv, c, 0) == hit_slot(hv, c, j as int),
                decreases hits@.len() - j,
            {
                assert(hv[j as int] == (hits@[j as int].0@, hits@[j as int].1@));
                j = j + 1;
            }
            proof {
                if j < hits@.len() {
                    assert(hv[j as int] == (hits@[j as int].0@, hits@[j as int].1@));
                }
            }
            let entry = (cards[i].0.clone(), cards[i].1.clone(), len);
            let ghost before = hits@;
            hits.insert(j, entry);
            assert(hits@.map_values(|h: (String, String, u64)| (h.0@, h.1@)) =~= hv.insert(j as int, c));
        }
        i = i + 1;
    }
    assert(cv.take(i as int) =~= cv);
    let ghost all = hits@.map_values(|h: (String, String, u64)| (h.0@, h.1@));
    let n: usize = if hits.len() < limit { hits.len() } else { limit };
    let mut out: Vec<String> = Vec::new();
    let mut k: usize = 0;
    while k < n
        invariant
            k <= n <= hits@.len(),
            all == hits@.map_values(|h: (String, String, u64)| (h.0@, h.1@)),
            strings(out@) == all.take(k as int).map_values(|h: (Seq<char>, Seq<char>)| h.0),
        decreases n - k,
    {
        let ghost before = out@;
        out.push(hits[k].0.clone());
        assert(strings(out@) =~= strings(before).push(hits@[k as int].0@));
        assert(all.take(k + 1) =~= all.take(k as int).push(all[k as int]));
        assert(strings(out@) =~= all.take(k + 1).map_values(|h: (Seq<char>, Seq<char>)| h.0));
        k = k + 1;
    }
    proof {
        lemma_search_result(cards@, lowercase(query@), limit as int, out@);
    }
    out
}

} // verus!
