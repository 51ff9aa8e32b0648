//! The neighbours of a card through the catalog's links: the way branches
//! are drawn first. A link holds both ways; per target, the closest link
//! wins; the closest come first, then by slug.
use vstd::prelude::*;
use crate::text::{chars_of, join, join_of, push_all, push_str, same_str, string_of, views};
use crate::edit::strings;
use crate::catalog::{grid_view, proximity, proximity_of, Card, Link};
use crate::engine::{shared_of, shared_tags};
use crate::fork::{lex_less, lex_lt, lemma_lex_irreflexive, lemma_lex_total, lemma_lex_transitive};

verus! {

/// How a type of link reads on screen.
pub open spec fn label_of(kind: Seq<char>) -> Seq<char> {
    if kind == "member"@ {
        "shared members"@
    } else if kind == "collab"@ {
        "collaboration"@
    } else if kind == "similar"@ {
        "similar"@
    } else if kind == "family"@ {
        "family ties"@
    } else if kind == "scene"@ {
        "same scene"@
    } else if kind == "influence"@ {
        "influence"@
    } else {
        kind
    }
}

/// How a type of link reads on screen.
pub fn label(kind: &str) -> (r: String)
    ensures
        r@ == label_of(kind@),
{
    if same_str(kind, "member") {
        String::from_str("shared members")
    } else if same_str(kind, "collab") {
        String::from_str("collaboration")
    } else if same_str(kind, "similar") {
        String::from_str("similar")
    } else if same_str(kind, "family") {
        String::from_str("family ties")
    } else if same_str(kind, "scene") {
        String::from_str("same scene")
    } else if same_str(kind, "influence") {
        String::from_str("influence")
    } else {
        String::from_str(kind)
    }
}

pub open spec fn note_view(note: Option<String>) -> Option<Seq<char>> {
    match note { Some(n) => Some(n@), None => None }
}

/// Why a link is a branch: its type, its note, and the tags the two cards
/// share.
pub open spec fn reason_of(kind: Seq<char>, note: Option<Seq<char>>, a: Seq<Seq<char>>, b: Seq<Seq<char>>) -> Seq<char> {
    let head = label_of(kind) + match note {
        Some(n) => " \u{2014} "@ + n,
        None => seq![],
    };
    let shared = shared_of(a, b);
    if shared.len() > 0 { head + " \u{b7} shared tags: "@ + join(shared, ", "@) } else { head }
}

/// Why a link is a branch.
pub fn reason(kind: &str, note: &Option<String>, a: &Card, b: &Card) -> (r: String)
    ensures
        r@ == reason_of(kind@, note_view(*note), strings(a.tags@), strings(b.tags@)),
{
    let mut out: Vec<char> = chars_of(label(kind).as_str());
    if let Some(n) = note {
        push_str(&mut out, " \u{2014} ");
        push_str(&mut out, n.as_str());
    }
    let shared = shared_tags(a, b);
    if shared.len() > 0 {
        push_str(&mut out, " \u{b7} shared tags: ");
        let mut pieces: Vec<Vec<char>> = Vec::new();
        let mut i: usize = 0;
        while i < shared.len()
            invariant
                i <= shared@.len(),
                views(pieces@) == strings(shared@).take(i as int),
            decreases shared@.len() - i,
        {
            let ghost before = pieces@;
            pieces.push(chars_of(shared[i].as_str()));
            assert(views(pieces@) =~= views(before).push(shared@[i as int]@));
            assert(strings(shared@).take(i + 1) =~= strings(shared@).take(i as int).push(shared@[i as int]@));
            i = i + 1;
        }
        assert(strings(shared@).take(i as int) =~= strings(shared@));
        let joined = join_of(&pieces, &chars_of(", "));
        push_all(&mut out, &joined);
    }
    string_of(&out)
}

/// The first card of `cards` under `slug`.
pub open spec fn card_index(cards: Seq<(String, Card)>, slug: Seq<char>) -> Option<int>
    decreases cards.len(),
{
    if cards.len() == 0 {
        None
    } else if cards[0].0@ == slug {
        Some(0)
    } else {
        match card_index(cards.drop_first(), slug) {
            Some(i) => Some(i + 1),
            None => None,
        }
    }
}

proof fn lemma_card_index(cards: Seq<(String, Card)>, slug: Seq<char>)
    ensures
        card_index(cards, slug) matches Some(i) ==> 0 <= i < cards.len() && cards[i].0@ == slug,
        card_index(cards, slug) is None ==> forall|k: int| 0 <= k < cards.len() ==> cards[k].0@ != slug,
    decreases cards.len(),
{
    if cards.len() > 0 {
        lemma_card_index(cards.drop_first(), slug);
        if card_index(cards, slug) is None {
            assert forall|k: int| 0 <= k < cards.len() implies cards[k].0@ != slug by {
                if k > 0 {
                    assert(cards[k] == cards.drop_first()[k - 1]);
                }
            }
        }
    }
}

fn find_card(cards: &Vec<(String, Card)>, slug: &str) -> (r: Option<usize>)
    ensures
        r matches Some(i) ==> i < cards@.len() && card_index(cards@, slug@) == Some(i as int),
        r is None ==> card_index(cards@, slug@) is None,
{
    proof { lemma_card_index(cards@, slug@); }
    let mut i: usize = 0;
    while i < cards.len()
        invariant
            i <= cards@.len(),
            forall|k: int| 0 <= k < i ==> cards@[k].0@ != slug@,
        decreases cards@.len() - i,
    {
        if same_str(cards[i].0.as_str(), slug) {
            proof { lemma_first(cards@, slug@, i as int); }
            return Some(i);
        }
        i = i + 1;
    }
    None
}

proof fn lemma_first(cards: Seq<(String, Card)>, slug: Seq<char>, i: int)
    requires
        0 <= i < cards.len(),
        cards[i].0@ == slug,
        forall|k: int| 0 <= k < i ==> cards[k].0@ != slug,
    ensures
        card_index(cards, slug) == Some(i),
    decreases i,
{
    if i > 0 {
        lemma_first(cards.drop_first(), slug, i - 1);
    }
}

/// A target offered, how close, and why.
pub type Offer = (Seq<char>, u8, Seq<char>);

/// What the card's own links offer: each link to a card that is not
/// excluded.
pub open spec fn forward(links: Seq<Link>, cards: Seq<(String, Card)>, excluded: Seq<Seq<char>>, grid: Seq<(Seq<char>, u8)>, card: Card) -> Seq<Offer>
    decreases links.len(),
{
    if links.len() == 0 {
        seq![]
    } else {
        let rest = forward(links.drop_last(), cards, excluded, grid, card);
        let l = links.last();
        match card_index(cards, l.to@) {
            Some(t) => if !excluded.contains(l.to@) {
                rest.push((l.to@, proximity_of(l, grid), reason_of(l.kind@, note_view(l.note), strings(card.tags@), strings(cards[t].1.tags@))))
            } else {
                rest
            },
            None => rest,
        }
    }
}

/// What the links of `other` (under `slug`) pointing at `current` offer.
pub open spec fn pointing(links: Seq<Link>, slug: Seq<char>, current: Seq<char>, grid: Seq<(Seq<char>, u8)>, card: Card, other: Card) -> Seq<Offer>
    decreases links.len(),
{
    if links.len() == 0 {
        seq![]
    } else {
        let rest = pointing(links.drop_last(), slug, current, grid, card, other);
        let l = links.last();
        if l.to@ == current {
            rest.push((slug, proximity_of(l, grid), reason_of(l.kind@, note_view(l.note), strings(card.tags@), strings(other.tags@))))
        } else {
            rest
        }
    }
}

/// What the links pointing at `current` offer: a relation holds both ways.
pub open spec fn backward(cards: Seq<(String, Card)>, current: Seq<char>, excluded: Seq<Seq<char>>, grid: Seq<(Seq<char>, u8)>, card: Card) -> Seq<Offer>
    decreases cards.len(),
{
    if cards.len() == 0 {
        seq![]
    } else {
        let rest = backward(cards.drop_last(), current, excluded, grid, card);
        let e = cards.last();
        if e.0@ == current || excluded.contains(e.0@) {
            rest
        } else {
            rest + pointing(e.1.links@, e.0@, current, grid, card, e.1)
        }
    }
}

/// Every offer of the graph around `current`.
pub open spec fn offers_of(cards: Seq<(String, Card)>, current: Seq<char>, excluded: Seq<Seq<char>>, grid: Seq<(Seq<char>, u8)>) -> Seq<Offer> {
    match card_index(cards, current) {
        Some(c) => forward(cards[c].1.links@, cards, excluded, grid, cards[c].1) + backward(cards, current, excluded, grid, cards[c].1),
        None => seq![],
    }
}

/// Where `slug` already stands among the offers kept.
pub open spec fn slot_of(kept: Seq<Offer>, slug: Seq<char>) -> Option<int>
    decreases kept.len(),
{
    if kept.len() == 0 {
        None
    } else {
        match slot_of(kept.drop_last(), slug) {
            Some(k) => Some(k),
            None => if kept.last().0 == slug { Some(kept.len() - 1) } else { None },
        }
    }
}

/// What a target starts from before any offer: nothing close, and no
/// reason; an offer replaces it only by being closer.
pub open spec fn first_seen(o: Offer) -> Offer {
    if o.1 > 0 { o } else { (o.0, 0u8, seq![]) }
}

/// Per target, the first of its closest offers.
pub open spec fn kept_best(offers: Seq<Offer>) -> Seq<Offer>
    decreases offers.len(),
{
    if offers.len() == 0 {
        seq![]
    } else {
        let b = kept_best(offers.drop_last());
        let o = offers.last();
        match slot_of(b, o.0) {
            Some(k) => if o.1 > b[k].1 { b.update(k, o) } else { b },
            None => b.push(first_seen(o)),
        }
    }
}

/// The closer first; between two as close, the first slug.
pub open spec fn ranks_before(a: Offer, b: Offer) -> bool {
    a.1 > b.1 || (a.1 == b.1 && lex_lt(a.0, b.0))
}

pub open spec fn rank_slot(sorted: Seq<Offer>, x: Offer, i: int) -> int
    decreases sorted.len() - i,
{
    if i < 0 || i >= sorted.len() || ranks_before(x, sorted[i]) { i } else { rank_slot(sorted, x, i + 1) }
}

/// The offers in rank.
pub open spec fn ranked(v: Seq<Offer>) -> Seq<Offer>
    decreases v.len(),
{
    if v.len() == 0 {
        seq![]
    } else {
        let r = ranked(v.drop_last());
        r.insert(rank_slot(r, v.last(), 0), v.last())
    }
}

/// The neighbours of `current` through the graph.
pub open spec fn neighbors_of(cards: Seq<(String, Card)>, current: Seq<char>, excluded: Seq<Seq<char>>, grid: Seq<(Seq<char>, u8)>) -> Seq<Offer> {
    ranked(kept_best(offers_of(cards, current, excluded, grid)))
}

pub open spec fn offers_view(v: Seq<(String, u8, String)>) -> Seq<Offer> {
    v.map_values(|o: (String, u8, String)| (o.0@, o.1, o.2@))
}

fn push_offer(v: &mut Vec<(String, u8, String)>, o: (String, u8, String))
    ensures
        offers_view(final(v)@) == offers_view(old(v)@).push((o.0@, o.1, o.2@)),
{
    let ghost before = v@;
    v.push(o);
    assert(offers_view(v@) =~= offers_view(before).push((o.0@, o.1, o.2@)));
}

fn carried(v: &Vec<String>, x: &str) -> (r: bool)
    ensures
        r == strings(v@).contains(x@),
{
    let mut i: usize = 0;
    while i < v.len()
        invariant
            i <= v@.len(),
            forall|k: int| 0 <= k < i ==> strings(v@)[k] != x@,
        decreases v@.len() - i,
    {
        if same_str(v[i].as_str(), x) {
            assert(strings(v@)[i as int] == x@);
            return true;
        }
        i = i + 1;
    }
    false
}

fn offers_exec(cards: &Vec<(String, Card)>, c: usize, excluded: &Vec<String>, grid: &Vec<(String, u8)>) -> (r: Vec<(String, u8, String)>)
    requires
        c < cards@.len(),
    ensures
        offers_view(r@) == forward(cards@[c as int].1.links@, cards@, strings(excluded@), grid_view(grid@), cards@[c as int].1)
            + backward(cards@, cards@[c as int].0@, strings(excluded@), grid_view(grid@), cards@[c as int].1),
{
    let card = &cards[c].1;
    let current = cards[c].0.as_str();
    let ghost ex = strings(excluded@);
    let ghost g = grid_view(grid@);
    let mut out: Vec<(String, u8, String)> = Vec::new();
    let mut i: usize = 0;
    assert(offers_view(out@) =~= Seq::<Offer>::empty());
    while i < card.links.len()
        invariant
            i <= card.links@.len(),
            card == &cards@[c as int].1,
            ex == strings(excluded@),
            g == grid_view(grid@),
            offers_view(out@) == forward(card.links@.take(i as int), cards@, ex, g, *card),
        decreases card.links@.len() - i,
    {
        let l = &card.links[i];
        proof {
            assert(card.links@.take(i + 1).drop_last() =~= card.links@.take(i as int));
            assert(card.links@.take(i + 1).last() == *l);
        }
        let ghost before = offers_view(out@);
        match find_card(cards, l.to.as_str()) {
            Some(t) => {
                if !carried(excluded, l.to.as_str()) {
                    let why = reason(l.kind.as_str(), &l.note, card, &cards[t].1);
                    let p = proximity(l, grid);
                    let to = l.to.clone();
                    proof {
                        assert(card_index(cards@, l.to@) == Some(t as int));
                        let e: Offer = (l.to@, proximity_of(*l, g), reason_of(l.kind@, note_view(l.note), strings(card.tags@), strings(cards@[t as int].1.tags@)));
                        assert(forward(card.links@.take(i + 1), cards@, ex, g, *card)
                            == forward(card.links@.take(i as int), cards@, ex, g, *card).push(e));
                    }
                    push_offer(&mut out, (to, p, why));
                    assert(offers_view(out@) =~= forward(card.links@.take(i + 1), cards@, ex, g, *card));
                } else {
                    assert(offers_view(out@) =~= forward(card.links@.take(i + 1), cards@, ex, g, *card));
                }
            },
            None => {
                assert(offers_view(out@) =~= forward(card.links@.take(i + 1), cards@, ex, g, *card));
            },
        }
        i = i + 1;
    }
    assert(card.links@.take(i as int) =~= card.links@);
    let ghost fwd = offers_view(out@);
    let mut j: usize = 0;
    while j < cards.len()
        invariant
            j <= cards@.len(),
            c < cards@.len(),
            card == &cards@[c as int].1,
            current@ == cards@[c as int].0@,
            ex == strings(excluded@),
            g == grid_view(grid@),
            offers_view(out@) == fwd + backward(cards@.take(j as int), current@, ex, g, *card),
        decreases cards@.len() - j,
    {
        proof {
            assert(cards@.take(j + 1).drop_last() =~= cards@.take(j as int));
            assert(cards@.take(j + 1).last() == cards@[j as int]);
        }
        let slug = cards[j].0.as_str();
        let other = &cards[j].1;
        if !same_str(slug, current) && !carried(excluded, slug) {
            let ghost base = offers_view(out@);
            let mut k: usize = 0;
            while k < other.links.len()
                invariant
                    k <= other.links@.len(),
                    j < cards@.len(),
                    c < cards@.len(),
                    slug@ == cards@[j as int].0@,
                    other == &cards@[j as int].1,
                    card == &cards@[c as int].1,
                    current@ == cards@[c as int].0@,
                    g == grid_view(grid@),
                    offers_view(out@) == base + pointing(other.links@.take(k as int), slug@, current@, g, *card, *other),
                decreases other.links@.len() - k,
            {
                let l = &other.links[k];
                proof {
                    assert(other.links@.take(k + 1).drop_last() =~= other.links@.take(k as int));
                    assert(other.links@.take(k + 1).last() == *l);
                }
                if same_str(l.to.as_str(), current) {
                    let why = reason(l.kind.as_str(), &l.note, card, other);
                    let p = proximity(l, grid);
                    let name = cards[j].0.clone();
                    proof {
                        let e: Offer = (slug@, proximity_of(*l, g), reason_of(l.kind@, note_view(l.note), strings(card.tags@), strings(other.tags@)));
                        assert(name@ == slug@);
                        assert(pointing(other.links@.take(k + 1), slug@, current@, g, *card, *other)
                            == pointing(other.links@.take(k as int), slug@, current@, g, *card, *other).push(e));
                    }
                    push_offer(&mut out, (name, p, why));
                    assert(offers_view(out@) =~= base + pointing(other.links@.take(k + 1), slug@, current@, g, *card, *other));
                } else {
                    assert(offers_view(out@) =~= base + pointing(other.links@.take(k + 1), slug@, current@, g, *card, *other));
                }
                k = k + 1;
            }
            assert(other.links@.take(k as int) =~= other.links@);
            assert(offers_view(out@) =~= fwd + backward(cards@.take(j + 1), current@, ex, g, *card));
        } else {
            assert(offers_view(out@) =~= fwd + backward(cards@.take(j + 1), current@, ex, g, *card));
        }
        j = j + 1;
    }
    assert(cards@.take(j as int) =~= cards@);
    out
}

proof fn lemma_slot_of(kept: Seq<Offer>, slug: Seq<char>)
    ensures
        slot_of(kept, slug) matches Some(k) ==> 0 <= k < kept.len() && kept[k].0 == slug
            && forall|j: int| 0 <= j < k ==> kept[j].0 != slug,
        slot_of(kept, slug) is None ==> forall|j: int| 0 <= j < kept.len() ==> kept[j].0 != slug,
    decreases kept.len(),
{
    if kept.len() > 0 {
        lemma_slot_of(kept.drop_last(), slug);
        assert forall|j: int| 0 <= j < kept.len() - 1 implies kept[j] == kept.drop_last()[j] by {}
    }
}

fn best_exec(offers: Vec<(String, u8, String)>) -> (r: Vec<(String, u8, String)>)
    ensures
        offers_view(r@) == kept_best(offers_view(offers@)),
{
    let ghost ov = offers_view(offers@);
    let mut kept: Vec<(String, u8, String)> = Vec::new();
    let mut i: usize = 0;
    assert(offers_view(kept@) =~= kept_best(ov.take(0)));
    while i < offers.len()
        invariant
            i <= offers@.len(),
            ov == offers_view(offers@),
            offers_view(kept@) == kept_best(ov.take(i as int)),
        decreases offers@.len() - i,
    {
        proof {
            assert(ov.take(i + 1).drop_last() =~= ov.take(i as int));
            assert(ov.take(i + 1).last() == ov[i as int]);
        }
        let o = &offers[i];
        let ghost kv = offers_view(kept@);
        proof { lemma_slot_of(kv, o.0@); }
        let mut k: usize = 0;
        while k < kept.len() && !same_str(kept[k].0.as_str(), o.0.as_str())
            invariant
                k <= kept@.len(),
                kv == offers_view(kept@),
                forall|j: int| 0 <= j < k ==> kv[j].0 != o.0@,
            decreases kept@.len() - k,
        {
            k = k + 1;
        }
        if k < kept.len() {
            proof {
                assert(kv[k as int].0 == o.0@);
                assert(slot_of(kv, o.0@) == Some(k as int));
            }
            if o.1 > kept[k].1 {
                kept.set(k, (o.0.clone(), o.1, o.2.clone()));
                assert(offers_view(kept@) =~= kv.update(k as int, ov[i as int]));
            }
        } else if o.1 > 0 {
            push_offer(&mut kept, (o.0.clone(), o.1, o.2.clone()));
        } else {
            push_offer(&mut kept, (o.0.clone(), 0, String::new()));
        }
        i = i + 1;
    }
    assert(ov.take(i as int) =~= ov);
    kept
}

fn ranks_before_exec(a: &(String, u8, String), b: &(String, u8, String)) -> (r: bool)
    ensures
        r == ranks_before((a.0@, a.1, a.2@), (b.0@, b.1, b.2@)),
{
    a.1 > b.1 || (a.1 == b.1 && lex_less(&chars_of(a.0.as_str()), &chars_of(b.0.as_str())))
}

fn ranked_exec(v: Vec<(String, u8, String)>) -> (r: Vec<(String, u8, String)>)
    ensures
        offers_view(r@) == ranked(offers_view(v@)),
{
    let ghost vv = offers_view(v@);
    let mut out: Vec<(String, u8, String)> = Vec::new();
    let mut i: usize = 0;
    assert(offers_view(out@) =~= ranked(vv.take(0)));
    while i < v.len()
        invariant
            i <= v@.len(),
            vv == offers_view(v@),
            offers_view(out@) == ranked(vv.take(i as int)),
        decreases v@.len() - i,
    {
        proof {
            assert(vv.take(i + 1).drop_last() =~= vv.take(i as int));
            assert(vv.take(i + 1).last() == vv[i as int]);
        }
        let x = &v[i];
        let ghost ov = offers_view(out@);
        let mut k: usize = 0;
        while k < out.len() && !ranks_before_exec(x, &out[k])
            invariant
                k <= out@.len(),
                i < v@.len(),
                vv == offers_view(v@),
                *x == v@[i as int],
                ov == offers_view(out@),
                rank_slot(ov, vv[i as int], 0) == rank_slot(ov, vv[i as int], k as int),
            decreases out@.len() - k,
        {
            assert(ov[k as int] == (out@[k as int].0@, out@[k as int].1, out@[k as int].2@));
            k = k + 1;
        }
        proof {
            if k < out@.len() {
                assert(ov[k as int] == (out@[k as int].0@, out@[k as int].1, out@[k as int].2@));
            }
        }
        out.insert(k, (x.0.clone(), x.1, x.2.clone()));
        assert(offers_view(out@) =~= ov.insert(k as int, vv[i as int]));
        i = i + 1;
    }
    assert(vv.take(i as int) =~= vv);
    out
}

/// The neighbours of `current` through the graph: its links to cards, and
/// the links of other cards to it; per target the closest (the first of
/// them), the closest first and then by slug.
pub fn graph_neighbors(cards: &Vec<(String, Card)>, current: &str, excluded: &Vec<String>, grid: &Vec<(String, u8)>) -> (r: Vec<(String, u8, String)>)
    requires
        card_index(cards@, current@) is Some,
    ensures
        offers_view(r@) == neighbors_of(cards@, current@, strings(excluded@), grid_view(grid@)),
{
    match find_card(cards, current) {
        Some(c) => {
            proof {
                lemma_card_index(cards@, current@);
                assert(card_index(cards@, current@) == Some(c as int));
            }
            let offers = offers_exec(cards, c, excluded, grid);
            assert(offers_view(offers@) == offers_of(cards@, current@, strings(excluded@), grid_view(grid@)));
            ranked_exec(best_exec(offers))
        },
        None => Vec::new(),
    }
}


// ---------------------------------------------------------------------------
// What the neighbours are.

pub open spec fn distinct_slugs(v: Seq<Offer>) -> bool {
    forall|i: int, j: int| 0 <= i < j < v.len() ==> v[i].0 != v[j].0
}

/// `x` is among the first `n` offers of `o`.
pub open spec fn offered(o: Seq<Offer>, x: Offer) -> bool {
    exists|w: int| 0 <= w < o.len() && o[w] == x
}

/// Some offer is for `x`'s target, as close as `x`; and it is `x` itself
/// unless `x` is at proximity 0.
pub open spec fn reached(o: Seq<Offer>, x: Offer) -> bool {
    exists|w: int| 0 <= w < o.len() && o[w].0 == x.0 && o[w].1 == x.1 && (x.1 > 0 ==> o[w] == x)
}

/// Some offer kept for `slug` is at least as close as `p`.
pub open spec fn covered(kb: Seq<Offer>, slug: Seq<char>, p: u8) -> bool {
    exists|k: int| 0 <= k < kb.len() && kb[k].0 == slug && kb[k].1 >= p
}

#[verifier::rlimit(30)]
proof fn lemma_kept_best(o: Seq<Offer>)
    ensures
        distinct_slugs(kept_best(o)),
        forall|k: int| 0 <= k < kept_best(o).len() ==> reached(o, #[trigger] kept_best(o)[k]),
        forall|i: int| 0 <= i < o.len() ==> covered(kept_best(o), #[trigger] o[i].0, o[i].1),
    decreases o.len(),
{
    if o.len() > 0 {
        let p = o.drop_last();
        lemma_kept_best(p);
        let b = kept_best(p);
        let x = o.last();
        lemma_slot_of(b, x.0);
        let kb = kept_best(o);
        assert forall|k: int| 0 <= k < kb.len() implies reached(o, #[trigger] kb[k]) by {
            if kb[k] == x || kb[k] == first_seen(x) {
                assert(o[o.len() - 1] == x);
            } else {
                assert(kb[k] == b[k]);
                assert(reached(p, b[k]));
                let w = choose|w: int| 0 <= w < p.len() && p[w].0 == b[k].0 && p[w].1 == b[k].1 && (b[k].1 > 0 ==> p[w] == b[k]);
                assert(o[w] == p[w]);
            }
        }
        assert forall|i: int| 0 <= i < o.len() implies covered(kb, #[trigger] o[i].0, o[i].1) by {
            if i == o.len() - 1 {
                match slot_of(b, x.0) {
                    Some(s) => {
                        assert(kb[s].0 == x.0 && kb[s].1 >= x.1);
                    },
                    None => {
                        assert(kb[b.len() as int] == first_seen(x));
                    },
                }
            } else {
                assert(o[i] == p[i]);
                assert(covered(b, p[i].0, p[i].1));
                let k = choose|k: int| 0 <= k < b.len() && b[k].0 == p[i].0 && b[k].1 >= p[i].1;
                assert(kb[k].0 == b[k].0 && kb[k].1 >= b[k].1);
            }
        }
        assert forall|i: int, j: int| 0 <= i < j < kb.len() implies kb[i].0 != kb[j].0 by {
            match slot_of(b, x.0) {
                Some(s) => {
                    assert(kb[i].0 == b[i].0 && kb[j].0 == b[j].0);
                },
                None => {
                    if j == b.len() {
                        assert(kb[i] == b[i] && kb[j].0 == x.0);
                    } else {
                        assert(kb[i] == b[i] && kb[j] == b[j]);
                    }
                },
            }
        }
    }
}

proof fn lemma_ranks_transitive(a: Offer, b: Offer, c: Offer)
    requires
        ranks_before(a, b),
        ranks_before(b, c),
    ensures
        ranks_before(a, c),
{
    if a.1 == b.1 && b.1 == c.1 {
        lemma_lex_transitive(a.0, b.0, c.0);
    }
}

proof fn lemma_ranks_total(a: Offer, b: Offer)
    requires
        a.0 != b.0,
    ensures
        ranks_before(a, b) || ranks_before(b, a),
{
    lemma_lex_total(a.0, b.0);
}

proof fn lemma_ranks_irreflexive(a: Offer)
    ensures
        !ranks_before(a, a),
{
    lemma_lex_irreflexive(a.0);
}

pub open spec fn in_rank(v: Seq<Offer>) -> bool {
    forall|i: int, j: int| 0 <= i < j < v.len() ==> ranks_before(v[i], v[j])
}

proof fn lemma_rank_slot(sorted: Seq<Offer>, x: Offer, i: int)
    requires
        0 <= i <= sorted.len(),
    ensures
        i <= rank_slot(sorted, x, i) <= sorted.len(),
        forall|j: int| i <= j < rank_slot(sorted, x, i) ==> !ranks_before(x, #[trigger] sorted[j]),
        rank_slot(sorted, x, i) < sorted.len() ==> ranks_before(x, sorted[rank_slot(sorted, x, i)]),
    decreases sorted.len() - i,
{
    if i < sorted.len() && !ranks_before(x, sorted[i]) {
        lemma_rank_slot(sorted, x, i + 1);
    }
}

proof fn lemma_insert_offered(r: Seq<Offer>, s: int, x: Offer, y: Offer)
    requires
        0 <= s <= r.len(),
    ensures
        offered(r.insert(s, x), y) <==> (offered(r, y) || y == x),
{
    let n = r.insert(s, x);
    if offered(n, y) {
        let k = choose|k: int| 0 <= k < n.len() && n[k] == y;
        if k < s {
            assert(r[k] == y);
        } else if k > s {
            assert(r[k - 1] == y);
        }
    }
    if offered(r, y) {
        let k = choose|k: int| 0 <= k < r.len() && r[k] == y;
        if k < s {
            assert(n[k] == y);
        } else {
            assert(n[k + 1] == y);
        }
    }
    if y == x {
        assert(n[s] == x);
    }
}

proof fn lemma_push_offered(p: Seq<Offer>, x: Offer, y: Offer)
    ensures
        offered(p.push(x), y) <==> (offered(p, y) || y == x),
{
    let v = p.push(x);
    if offered(v, y) {
        let k = choose|k: int| 0 <= k < v.len() && v[k] == y;
        if k < p.len() {
            assert(p[k] == y);
        }
    }
    if offered(p, y) {
        let k = choose|k: int| 0 <= k < p.len() && p[k] == y;
        assert(v[k] == y);
    }
    if y == x {
        assert(v[p.len() as int] == x);
    }
}

#[verifier::rlimit(30)]
proof fn lemma_ranked(v: Seq<Offer>)
    requires
        distinct_slugs(v),
    ensures
        ranked(v).len() == v.len(),
        forall|y: Offer| offered(ranked(v), y) <==> offered(v, y),
        in_rank(ranked(v)),
        distinct_slugs(ranked(v)),
    decreases v.len(),
{
    if v.len() > 0 {
        let p = v.drop_last();
        assert(distinct_slugs(p));
        lemma_ranked(p);
        let r = ranked(p);
        let x = v.last();
        lemma_rank_slot(r, x, 0);
        let s = rank_slot(r, x, 0);
        let n = r.insert(s, x);
        assert(v =~= p.push(x));
        assert forall|y: Offer| offered(n, y) <==> offered(v, y) by {
            lemma_insert_offered(r, s, x, y);
            lemma_push_offered(p, x, y);
        }
        assert forall|k: int| 0 <= k < r.len() implies #[trigger] r[k].0 != x.0 by {
            assert(r[k] == r[k]);
            assert(offered(r, r[k]));
            assert(offered(p, r[k]));
            let w = choose|w: int| 0 <= w < p.len() && p[w] == r[k];
            assert(v[w] == p[w]);
            assert(v[w].0 != v[v.len() - 1].0);
        }
        assert forall|i: int, j: int| 0 <= i < j < n.len() implies ranks_before(n[i], n[j]) by {
            if j < s {
                assert(n[i] == r[i] && n[j] == r[j]);
            } else if j == s {
                assert(n[i] == r[i]);
                lemma_ranks_total(r[i], x);
            } else if i == s {
                assert(n[j] == r[j - 1]);
                if j - 1 > s {
                    assert(ranks_before(r[s], r[j - 1]));
                    lemma_ranks_transitive(x, r[s], r[j - 1]);
                }
            } else if i < s {
                assert(n[i] == r[i] && n[j] == r[j - 1]);
            } else {
                assert(n[i] == r[i - 1] && n[j] == r[j - 1]);
            }
        }
        assert forall|i: int, j: int| 0 <= i < j < n.len() implies n[i].0 != n[j].0 by {
            assert(ranks_before(n[i], n[j]));
            if n[i].0 == n[j].0 {
                lemma_lex_irreflexive(n[i].0);
            }
        }
    }
}

/// The neighbours come in rank — the closest first, then by slug — each
/// target once.
pub proof fn neighbors_are_ranked(cards: Seq<(String, Card)>, current: Seq<char>, excluded: Seq<Seq<char>>, grid: Seq<(Seq<char>, u8)>)
    ensures
        in_rank(neighbors_of(cards, current, excluded, grid)),
        distinct_slugs(neighbors_of(cards, current, excluded, grid)),
{
    let o = offers_of(cards, current, excluded, grid);
    lemma_kept_best(o);
    lemma_ranked(kept_best(o));
}

/// Each neighbour is as close as one of the links offered for it (and is
/// that link, reason included, unless at proximity 0), and no link to it is
/// closer; every target a link offers is among the neighbours.
pub proof fn neighbors_are_the_closest_links(cards: Seq<(String, Card)>, current: Seq<char>, excluded: Seq<Seq<char>>, grid: Seq<(Seq<char>, u8)>)
    ensures
        forall|k: int| 0 <= k < neighbors_of(cards, current, excluded, grid).len()
            ==> reached(offers_of(cards, current, excluded, grid), #[trigger] neighbors_of(cards, current, excluded, grid)[k]),
        forall|i: int| 0 <= i < offers_of(cards, current, excluded, grid).len()
            ==> covered(neighbors_of(cards, current, excluded, grid), #[trigger] offers_of(cards, current, excluded, grid)[i].0,
                offers_of(cards, current, excluded, grid)[i].1),
{
    let o = offers_of(cards, current, excluded, grid);
    let b = kept_best(o);
    lemma_kept_best(o);
    lemma_ranked(b);
    let r = ranked(b);
    assert forall|k: int| 0 <= k < r.len() implies reached(o, #[trigger] r[k]) by {
        assert(offered(r, r[k]));
        assert(offered(b, r[k]));
        let w = choose|w: int| 0 <= w < b.len() && b[w] == r[k];
        assert(reached(o, b[w]));
    }
    assert forall|i: int| 0 <= i < o.len() implies covered(r, #[trigger] o[i].0, o[i].1) by {
        assert(covered(b, o[i].0, o[i].1));
        let w = choose|w: int| 0 <= w < b.len() && b[w].0 == o[i].0 && b[w].1 >= o[i].1;
        assert(offered(b, b[w]));
        assert(offered(r, b[w]));
        let k = choose|k: int| 0 <= k < r.len() && r[k] == b[w];
        assert(r[k].0 == o[i].0 && r[k].1 >= o[i].1);
    }
}


// ---------------------------------------------------------------------------
// The links that point at no card: directions the catalog names but cannot
// walk yet.

/// A link towards no card: its target, how close, its type, and why.
pub type Gap = (Seq<char>, u8, Seq<char>, Seq<char>);

/// What a link of `card` towards no card says: its type, its note, and the
/// card it comes from.
pub open spec fn gap_reason(l: Link, card: Card) -> Seq<char> {
    label_of(l.kind@) + match note_view(l.note) {
        Some(n) => " \u{2014} "@ + n,
        None => seq![],
    } + " \u{b7} around "@ + card.name@
}

pub open spec fn card_gaps(links: Seq<Link>, cards: Seq<(String, Card)>, excluded: Seq<Seq<char>>, grid: Seq<(Seq<char>, u8)>, card: Card) -> Seq<Gap>
    decreases links.len(),
{
    if links.len() == 0 {
        seq![]
    } else {
        let rest = card_gaps(links.drop_last(), cards, excluded, grid, card);
        let l = links.last();
        if card_index(cards, l.to@) is None && !excluded.contains(l.to@) {
            rest.push((l.to@, proximity_of(l, grid), l.kind@, gap_reason(l, card)))
        } else {
            rest
        }
    }
}

/// The gaps around each artist of the context that has a card, in order.
pub open spec fn gaps_of(context: Seq<Seq<char>>, cards: Seq<(String, Card)>, excluded: Seq<Seq<char>>, grid: Seq<(Seq<char>, u8)>) -> Seq<Gap>
    decreases context.len(),
{
    if context.len() == 0 {
        seq![]
    } else {
        let rest = gaps_of(context.drop_last(), cards, excluded, grid);
        match card_index(cards, context.last()) {
            Some(c) => rest + card_gaps(cards[c].1.links@, cards, excluded, grid, cards[c].1),
            None => rest,
        }
    }
}

pub open spec fn gap_slot(kept: Seq<Gap>, slug: Seq<char>) -> Option<int>
    decreases kept.len(),
{
    if kept.len() == 0 {
        None
    } else {
        match gap_slot(kept.drop_last(), slug) {
            Some(k) => Some(k),
            None => if kept.last().0 == slug { Some(kept.len() - 1) } else { None },
        }
    }
}

/// Per target, the first of its closest gaps; a target whose links are all
/// at proximity 0 keeps the first one's type and no reason.
pub open spec fn kept_gaps(gaps: Seq<Gap>) -> Seq<Gap>
    decreases gaps.len(),
{
    if gaps.len() == 0 {
        seq![]
    } else {
        let b = kept_gaps(gaps.drop_last());
        let o = gaps.last();
        match gap_slot(b, o.0) {
            Some(k) => if o.1 > b[k].1 { b.update(k, o) } else { b },
            None => b.push(if o.1 > 0 { o } else { (o.0, 0u8, o.2, seq![]) }),
        }
    }
}

pub open spec fn gap_before(a: Gap, b: Gap) -> bool {
    a.1 > b.1 || (a.1 == b.1 && lex_lt(a.0, b.0))
}

pub open spec fn gap_rank_slot(sorted: Seq<Gap>, x: Gap, i: int) -> int
    decreases sorted.len() - i,
{
    if i < 0 || i >= sorted.len() || gap_before(x, sorted[i]) { i } else { gap_rank_slot(sorted, x, i + 1) }
}

pub open spec fn ranked_gaps(v: Seq<Gap>) -> Seq<Gap>
    decreases v.len(),
{
    if v.len() == 0 {
        seq![]
    } else {
        let r = ranked_gaps(v.drop_last());
        r.insert(gap_rank_slot(r, v.last(), 0), v.last())
    }
}

/// A link of the context towards no card.
pub struct Missing {
    pub slug: String,
    /// The slug spelled back out: all that is known of an artist without a
    /// card.
    pub name: String,
    pub kind: String,
    pub proximity: u8,
    pub why: String,
    /// Its card is being generated.
    pub pending: bool,
}

pub open spec fn missing_view(v: Seq<Missing>) -> Seq<(Gap, Seq<char>, bool)> {
    v.map_values(|m: Missing| ((m.slug@, m.proximity, m.kind@, m.why@), m.name@, m.pending))
}

/// The gaps of the context, as they show: the closest first, then by slug,
/// each spelled back out, none being generated yet.
pub open spec fn missing_of(context: Seq<Seq<char>>, cards: Seq<(String, Card)>, excluded: Seq<Seq<char>>, grid: Seq<(Seq<char>, u8)>) -> Seq<(Gap, Seq<char>, bool)> {
    ranked_gaps(kept_gaps(gaps_of(context, cards, excluded, grid))).map_values(
        |g: Gap| (g, crate::generate::pretty_of(g.0), false),
    )
}

pub open spec fn gaps_view(v: Seq<(String, u8, String, String)>) -> Seq<Gap> {
    v.map_values(|o: (String, u8, String, String)| (o.0@, o.1, o.2@, o.3@))
}

fn push_gap(v: &mut Vec<(String, u8, String, String)>, o: (String, u8, String, String))
    ensures
        gaps_view(final(v)@) == gaps_view(old(v)@).push((o.0@, o.1, o.2@, o.3@)),
{
    let ghost before = v@;
    v.push(o);
    assert(gaps_view(v@) =~= gaps_view(before).push((o.0@, o.1, o.2@, o.3@)));
}

fn gap_reason_exec(l: &Link, card: &Card) -> (r: String)
    ensures
        r@ == gap_reason(*l, *card),
{
    let mut out: Vec<char> = chars_of(label(l.kind.as_str()).as_str());
    if let Some(n) = &l.note {
        push_str(&mut out, " \u{2014} ");
        push_str(&mut out, n.as_str());
    }
    push_str(&mut out, " \u{b7} around ");
    push_str(&mut out, card.name.as_str());
    string_of(&out)
}

fn gaps_exec(context: &Vec<String>, cards: &Vec<(String, Card)>, excluded: &Vec<String>, grid: &Vec<(String, u8)>) -> (r: Vec<(String, u8, String, String)>)
    ensures
        gaps_view(r@) == gaps_of(strings(context@), cards@, strings(excluded@), grid_view(grid@)),
{
    let ghost ex = strings(excluded@);
    let ghost g = grid_view(grid@);
    let ghost cx = strings(context@);
    let mut out: Vec<(String, u8, String, String)> = Vec::new();
    assert(gaps_view(out@) =~= Seq::<Gap>::empty());
    let mut i: usize = 0;
    while i < context.len()
        invariant
            i <= context@.len(),
            ex == strings(excluded@),
            g == grid_view(grid@),
            cx == strings(context@),
            gaps_view(out@) == gaps_of(cx.take(i as int), cards@, ex, g),
        decreases context@.len() - i,
    {
        proof {
            assert(cx.take(i + 1).drop_last() =~= cx.take(i as int));
            assert(cx.take(i + 1).last() == context@[i as int]@);
        }
        match find_card(cards, context[i].as_str()) {
            Some(c) => {
                let card = &cards[c].1;
                let ghost base = gaps_view(out@);
                let mut k: usize = 0;
                while k < card.links.len()
                    invariant
                        k <= card.links@.len(),
                        c < cards@.len(),
                        card == &cards@[c as int].1,
                        ex == strings(excluded@),
                        g == grid_view(grid@),
                        gaps_view(out@) == base + card_gaps(card.links@.take(k as int), cards@, ex, g, *card),
                    decreases card.links@.len() - k,
                {
                    let l = &card.links[k];
                    proof {
                        assert(card.links@.take(k + 1).drop_last() =~= card.links@.take(k as int));
                        assert(card.links@.take(k + 1).last() == *l);
                    }
                    if find_card(cards, l.to.as_str()).is_none() && !carried(excluded, l.to.as_str()) {
                        let why = gap_reason_exec(l, card);
                        let p = proximity(l, grid);
                        push_gap(&mut out, (l.to.clone(), p, l.kind.clone(), why));
                        assert(gaps_view(out@) =~= base + card_gaps(card.links@.take(k + 1), cards@, ex, g, *card));
                    } else {
                        assert(gaps_view(out@) =~= base + card_gaps(card.links@.take(k + 1), cards@, ex, g, *card));
                    }
                    k = k + 1;
                }
                assert(card.links@.take(k as int) =~= card.links@);
                assert(gaps_view(out@) =~= gaps_of(cx.take(i + 1), cards@, ex, g));
            },
            None => {
                assert(gaps_view(out@) =~= gaps_of(cx.take(i + 1), cards@, ex, g));
            },
        }
        i = i + 1;
    }
    assert(cx.take(i as int) =~= cx);
    out
}

fn kept_gaps_exec(gaps: Vec<(String, u8, String, String)>) -> (r: Vec<(String, u8, String, String)>)
    ensures
        gaps_view(r@) == kept_gaps(gaps_view(gaps@)),
{
    let ghost gv = gaps_view(gaps@);
    let mut kept: Vec<(String, u8, String, String)> = Vec::new();
    let mut i: usize = 0;
    assert(gaps_view(kept@) =~= kept_gaps(gv.take(0)));
    while i < gaps.len()
        invariant
            i <= gaps@.len(),
            gv == gaps_view(gaps@),
            gaps_view(kept@) == kept_gaps(gv.take(i as int)),
        decreases gaps@.len() - i,
    {
        proof {
            assert(gv.take(i + 1).drop_last() =~= gv.take(i as int));
            assert(gv.take(i + 1).last() == gv[i as int]);
        }
        let o = &gaps[i];
        let ghost kv = gaps_view(kept@);
        proof { lemma_gap_slot(kv, o.0@); }
        let mut k: usize = 0;
        while k < kept.len() && !same_str(kept[k].0.as_str(), o.0.as_str())
            invariant
                k <= kept@.len(),
                kv == gaps_view(kept@),
                forall|j: int| 0 <= j < k ==> kv[j].0 != o.0@,
            decreases kept@.len() - k,
        {
            k = k + 1;
        }
        if k < kept.len() {
            proof {
                assert(kv[k as int].0 == o.0@);
                assert(gap_slot(kv, o.0@) == Some(k as int));
            }
            if o.1 > kept[k].1 {
                kept.set(k, (o.0.clone(), o.1, o.2.clone(), o.3.clone()));
                assert(gaps_view(kept@) =~= kv.update(k as int, gv[i as int]));
            }
        } else if o.1 > 0 {
            push_gap(&mut kept, (o.0.clone(), o.1, o.2.clone(), o.3.clone()));
        } else {
            push_gap(&mut kept, (o.0.clone(), 0, o.2.clone(), String::new()));
        }
        i = i + 1;
    }
    assert(gv.take(i as int) =~= gv);
    kept
}

proof fn lemma_gap_slot(kept: Seq<Gap>, slug: Seq<char>)
    ensures
        gap_slot(kept, slug) matches Some(k) ==> 0 <= k < kept.len() && kept[k].0 == slug
            && forall|j: int| 0 <= j < k ==> kept[j].0 != slug,
        gap_slot(kept, slug) is None ==> forall|j: int| 0 <= j < kept.len() ==> kept[j].0 != slug,
    decreases kept.len(),
{
    if kept.len() > 0 {
        lemma_gap_slot(kept.drop_last(), slug);
        assert forall|j: int| 0 <= j < kept.len() - 1 implies kept[j] == kept.drop_last()[j] by {}
    }
}

fn ranked_gaps_exec(v: Vec<(String, u8, String, String)>) -> (r: Vec<(String, u8, String, String)>)
    ensures
        gaps_view(r@) == ranked_gaps(gaps_view(v@)),
{
    let ghost vv = gaps_view(v@);
    let mut out: Vec<(String, u8, String, String)> = Vec::new();
    let mut i: usize = 0;
    assert(gaps_view(out@) =~= ranked_gaps(vv.take(0)));
    while i < v.len()
        invariant
            i <= v@.len(),
            vv == gaps_view(v@),
            gaps_view(out@) == ranked_gaps(vv.take(i as int)),
        decreases v@.len() - i,
    {
        proof {
            assert(vv.take(i + 1).drop_last() =~= vv.take(i as int));
            assert(vv.take(i + 1).last() == vv[i as int]);
        }
        let x = &v[i];
        let ghost ov = gaps_view(out@);
        let mut k: usize = 0;
        while k < out.len()
            && !(x.1 > out[k].1 || (x.1 == out[k].1 && lex_less(&chars_of(x.0.as_str()), &chars_of(out[k].0.as_str()))))
            invariant
                k <= out@.len(),
                i < v@.len(),
                vv == gaps_view(v@),
                *x == v@[i as int],
                ov == gaps_view(out@),
                gap_rank_slot(ov, vv[i as int], 0) == gap_rank_slot(ov, vv[i as int], k as int),
            decreases out@.len() - k,
        {
            assert(ov[k as int] == (out@[k as int].0@, out@[k as int].1, out@[k as int].2@, out@[k as int].3@));
            k = k + 1;
        }
        proof {
            if k < out@.len() {
                assert(ov[k as int] == (out@[k as int].0@, out@[k as int].1, out@[k as int].2@, out@[k as int].3@));
            }
        }
        out.insert(k, (x.0.clone(), x.1, x.2.clone(), x.3.clone()));
        assert(gaps_view(out@) =~= ov.insert(k as int, vv[i as int]));
        i = i + 1;
    }
    assert(vv.take(i as int) =~= vv);
    out
}

/// The links of the context's artists that point at no card, each target
/// once with its closest link, the closest first, then by slug.
pub fn missing_neighbors(cards: &Vec<(String, Card)>, context: &Vec<String>, excluded: &Vec<String>, grid: &Vec<(String, u8)>) -> (r: Vec<Missing>)
    ensures
        missing_view(r@) == missing_of(strings(context@), cards@, strings(excluded@), grid_view(grid@)),
{
    let ranked = ranked_gaps_exec(kept_gaps_exec(gaps_exec(context, cards, excluded, grid)));
    let ghost rv = gaps_view(ranked@);
    let mut out: Vec<Missing> = Vec::new();
    let mut i: usize = 0;
    while i < ranked.len()
        invariant
            i <= ranked@.len(),
            rv == gaps_view(ranked@),
            missing_view(out@) == rv.take(i as int).map_values(|g: Gap| (g, crate::generate::pretty_of(g.0), false)),
        decreases ranked@.len() - i,
    {
        let g = &ranked[i];
        let m = Missing {
            name: crate::generate::pretty(g.0.as_str()),
            slug: g.0.clone(),
            kind: g.2.clone(),
            proximity: g.1,
            why: g.3.clone(),
            pending: false,
        };
        let ghost before = out@;
        out.push(m);
        proof {
            assert(rv[i as int] == (g.0@, g.1, g.2@, g.3@));
            assert(rv.take(i + 1) =~= rv.take(i as int).push(rv[i as int]));
            assert(missing_view(out@) =~= missing_view(before).push((rv[i as int], crate::generate::pretty_of(g.0@), false)));
        }
        i = i + 1;
    }
    assert(rv.take(i as int) =~= rv);
    out
}


// ---------------------------------------------------------------------------
// Which card a stop belongs to, and the glyph its track deserves.

/// The card a stop belongs to: its own slug, or its artist's name made a
/// slug — a track inserted from Spotify carries no slug until its card
/// lands.
pub open spec fn card_of_stop(cards: Seq<(String, Card)>, slug: Seq<char>, artist: Seq<char>) -> Option<Seq<char>> {
    if card_index(cards, slug) is Some {
        Some(slug)
    } else if card_index(cards, crate::generate::slug_of_name(artist)) is Some {
        Some(crate::generate::slug_of_name(artist))
    } else {
        None
    }
}

pub fn card_of(cards: &Vec<(String, Card)>, slug: &str, artist: &str) -> (r: Option<String>)
    ensures
        match r { Some(s) => Some(s@), None => None } == card_of_stop(cards@, slug@, artist@),
{
    if find_card(cards, slug).is_some() {
        return Some(String::from_str(slug));
    }
    let by_name = crate::generate::slugify(artist);
    if find_card(cards, by_name.as_str()).is_some() {
        Some(by_name)
    } else {
        None
    }
}

/// How a track came to be drawn, as its glyph shows.
#[derive(Clone, Copy, Debug, PartialEq, Eq, Structural)]
pub enum Source {
    /// A top of its card.
    Top,
    /// Liked by this listener at this artist.
    Liked,
    /// A door: singled out as the way out towards a direction.
    Door,
    /// A known artist, none of the above.
    Outside,
    /// The rest of the known discography.
    Tail,
    /// No card at all.
    Offmap,
}

/// Whether one of `titles` is the same track as `title`.
pub open spec fn same_track_in(titles: Seq<Seq<char>>, title: Seq<char>) -> bool {
    exists|i: int| 0 <= i < titles.len() && crate::discography::normal_form(titles[i]) == crate::discography::normal_form(title)
}

/// The glyph a track would have if drawn now, likes aside: a top of its
/// card, a track of its tail (`tail` the titles the tail holds for it), or
/// neither; no card at all.
pub open spec fn plain_source_of(cards: Seq<(String, Card)>, tail: Seq<Seq<char>>, slug: Seq<char>, title: Seq<char>) -> Source {
    match card_index(cards, slug) {
        None => Source::Offmap,
        Some(c) => if strings(cards[c].1.tops@).contains(title) {
            Source::Top
        } else if same_track_in(tail, title) {
            Source::Tail
        } else {
            Source::Outside
        },
    }
}

pub fn plain_source(cards: &Vec<(String, Card)>, tail: &Vec<String>, slug: &str, title: &str) -> (r: Source)
    ensures
        r == plain_source_of(cards@, strings(tail@), slug@, title@),
{
    let c = match find_card(cards, slug) {
        Some(c) => c,
        None => {
            return Source::Offmap;
        },
    };
    if carried(&cards[c].1.tops, title) {
        return Source::Top;
    }
    let key = crate::discography::normalize(title);
    let mut i: usize = 0;
    while i < tail.len()
        invariant
            i <= tail@.len(),
            c < cards@.len(),
            card_index(cards@, slug@) == Some(c as int),
            !strings(cards@[c as int].1.tops@).contains(title@),
            key@ == crate::discography::normal_form(title@),
            forall|k: int| 0 <= k < i ==> crate::discography::normal_form(#[trigger] strings(tail@)[k]) != key@,
        decreases tail@.len() - i,
    {
        let other = crate::discography::normalize(tail[i].as_str());
        if same_str(other.as_str(), key.as_str()) {
            assert(crate::discography::normal_form(strings(tail@)[i as int]) == key@);
            assert(same_track_in(strings(tail@), title@));
            return Source::Tail;
        }
        i = i + 1;
    }
    Source::Outside
}

/// The glyph a track deserves as things stand: the like first; a door
/// keeps its own; otherwise the plain glyph.
pub fn current_source(liked: bool, drawn: Source, cards: &Vec<(String, Card)>, tail: &Vec<String>, slug: &str, title: &str) -> (r: Source)
    ensures
        r == if liked {
            Source::Liked
        } else if drawn == Source::Door {
            Source::Door
        } else {
            plain_source_of(cards@, strings(tail@), slug@, title@)
        },
{
    if liked {
        Source::Liked
    } else if drawn == Source::Door {
        Source::Door
    } else {
        plain_source(cards, tail, slug, title)
    }
}


// ---------------------------------------------------------------------------
// The gaps are kept and ranked as the neighbours are.

pub open spec fn proj(g: Gap) -> Offer {
    (g.0, g.1, g.3)
}

pub open spec fn projs(v: Seq<Gap>) -> Seq<Offer> {
    v.map_values(|g: Gap| proj(g))
}

proof fn lemma_gap_slot_proj(kept: Seq<Gap>, slug: Seq<char>)
    ensures
        gap_slot(kept, slug) == slot_of(projs(kept), slug),
    decreases kept.len(),
{
    if kept.len() > 0 {
        lemma_gap_slot_proj(kept.drop_last(), slug);
        assert(projs(kept).drop_last() =~= projs(kept.drop_last()));
    }
}

proof fn lemma_kept_gaps_proj(v: Seq<Gap>)
    ensures
        projs(kept_gaps(v)) == kept_best(projs(v)),
    decreases v.len(),
{
    if v.len() > 0 {
        lemma_kept_gaps_proj(v.drop_last());
        assert(projs(v).drop_last() =~= projs(v.drop_last()));
        let b = kept_gaps(v.drop_last());
        lemma_gap_slot_proj(b, v.last().0);
        match gap_slot(b, v.last().0) {
            Some(k) => {
                lemma_gap_slot(b, v.last().0);
                assert(projs(b.update(k, v.last())) =~= projs(b).update(k, proj(v.last())));
            },
            None => {
                let o = v.last();
                let pushed: Gap = if o.1 > 0 { o } else { (o.0, 0u8, o.2, seq![]) };
                assert(projs(b.push(pushed)) =~= projs(b).push(first_seen(proj(o))));
            },
        }
    }
}

proof fn lemma_gap_rank_slot_proj(sorted: Seq<Gap>, x: Gap, i: int)
    ensures
        gap_rank_slot(sorted, x, i) == rank_slot(projs(sorted), proj(x), i),
    decreases sorted.len() - i,
{
    if 0 <= i < sorted.len() && !gap_before(x, sorted[i]) {
        lemma_gap_rank_slot_proj(sorted, x, i + 1);
    }
}

proof fn lemma_ranked_gaps_proj(v: Seq<Gap>)
    ensures
        projs(ranked_gaps(v)) == ranked(projs(v)),
    decreases v.len(),
{
    if v.len() > 0 {
        lemma_ranked_gaps_proj(v.drop_last());
        assert(projs(v).drop_last() =~= projs(v.drop_last()));
        let r = ranked_gaps(v.drop_last());
        lemma_gap_rank_slot_proj(r, v.last(), 0);
        lemma_rank_slot(projs(r), proj(v.last()), 0);
        let s = gap_rank_slot(r, v.last(), 0);
        assert(projs(r.insert(s, v.last())) =~= projs(r).insert(s, proj(v.last())));
    }
}

/// The gaps come in rank — the closest first, then by slug — each target
/// once.
pub proof fn missing_are_ranked(context: Seq<Seq<char>>, cards: Seq<(String, Card)>, excluded: Seq<Seq<char>>, grid: Seq<(Seq<char>, u8)>)
    ensures
        forall|i: int, j: int| 0 <= i < j < missing_of(context, cards, excluded, grid).len()
            ==> gap_before(missing_of(context, cards, excluded, grid)[i].0, missing_of(context, cards, excluded, grid)[j].0)
                && missing_of(context, cards, excluded, grid)[i].0.0 != missing_of(context, cards, excluded, grid)[j].0.0,
{
    let g = gaps_of(context, cards, excluded, grid);
    let k = kept_gaps(g);
    let r = ranked_gaps(k);
    lemma_kept_gaps_proj(g);
    lemma_ranked_gaps_proj(k);
    lemma_kept_best(projs(g));
    lemma_ranked(kept_best(projs(g)));
    let m = missing_of(context, cards, excluded, grid);
    assert forall|i: int, j: int| 0 <= i < j < m.len() implies gap_before(m[i].0, m[j].0) && m[i].0.0 != m[j].0.0 by {
        let pr = projs(r);
        assert(pr == ranked(kept_best(projs(g))));
        assert(m.len() == r.len());
        assert(m[i].0 == r[i] && m[j].0 == r[j]);
        assert(pr[i] == proj(r[i]) && pr[j] == proj(r[j]));
        assert(ranks_before(pr[i], pr[j]));
        assert(pr[i].0 != pr[j].0);
    }
}

} // verus!
