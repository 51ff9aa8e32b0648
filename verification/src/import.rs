//! Taking over the cards of another catalog: the state of their cards,
//! never their history, and never a card this catalog already has. Git is
//! run by the caller; what it lists comes back here.

use vstd::prelude::*;
use crate::text::{chars_of, string_of, slice, push_all, push_str, decimal, decimal_of, views, same,
    alphanumeric, is_alphanumeric};
use crate::edit::strings;
use crate::fork::{strip_suffixes, strip_suffixes_exec, last_sep, set_insert, set_insert_exec,
    slug_of_path, slug_of, strictly_sorted, set_insert_keeps_sorted};

verus! {

/// A character a remote's name keeps; any other becomes a hyphen.
pub open spec fn remote_char(c: char) -> char {
    if alphanumeric(c) || c == '-' { c } else { '-' }
}

/// A remote name taken from the URL: `…/untel/forkstify-catalog.git` →
/// `untel`; "autre" when the URL names no owner.
pub open spec fn remote_name_of(url: Seq<char>) -> Seq<char> {
    let t = strip_suffixes(strip_suffixes(url, seq!['/']), ".git"@);
    let j = last_sep(t, t.len() as int, true);
    if j < 0 {
        "autre"@
    } else {
        let k = last_sep(t, j, true);
        let owner = t.subrange(k + 1, j).map_values(|c: char| remote_char(c));
        if owner.len() > 0 { owner } else { "autre"@ }
    }
}

proof fn lemma_last_sep_bounds(s: Seq<char>, i: int)
    requires
        0 <= i <= s.len(),
    ensures
        -1 <= last_sep(s, i, true) < i,
    decreases i,
{
    if i > 0 && !(s[i - 1] == '/' || s[i - 1] == ':') {
        lemma_last_sep_bounds(s, i - 1);
    }
}

fn last_sep_at(s: &Vec<char>, i: usize) -> (r: Option<usize>)
    requires
        i <= s@.len(),
    ensures
        match r {
            Some(j) => last_sep(s@, i as int, true) == j as int,
            None => last_sep(s@, i as int, true) == -1,
        },
{
    let mut k = i;
    while k > 0
        invariant
            k <= i <= s@.len(),
            last_sep(s@, i as int, true) == last_sep(s@, k as int, true),
        decreases k,
    {
        if s[k - 1] == '/' || s[k - 1] == ':' {
            return Some(k - 1);
        }
        k = k - 1;
    }
    None
}

/// A remote name taken from the URL: `…/untel/forkstify-catalog.git` →
/// `untel`. An impossible name does not produce an invalid remote.
pub fn remote_name(url: &str) -> (r: String)
    ensures
        r@ == remote_name_of(url@),
{
    let u = chars_of(url);
    let a = strip_suffixes_exec(&u, "/");
    proof { reveal_strlit("/"); assert("/"@ =~= seq!['/']); }
    let t = strip_suffixes_exec(&a, ".git");
    proof { lemma_last_sep_bounds(t@, t@.len() as int); }
    let j = match last_sep_at(&t, t.len()) {
        Some(j) => j,
        None => return String::from_str("autre"),
    };
    proof { lemma_last_sep_bounds(t@, j as int); }
    let start = match last_sep_at(&t, j) {
        Some(k) => k + 1,
        None => 0,
    };
    let mut owner: Vec<char> = Vec::new();
    let mut i = start;
    while i < j
        invariant
            start <= i <= j < t@.len(),
            owner@ == t@.subrange(start as int, i as int).map_values(|c: char| remote_char(c)),
        decreases j - i,
    {
        let c = t[i];
        owner.push(if is_alphanumeric(c) || c == '-' { c } else { '-' });
        assert(t@.subrange(start as int, i + 1) =~= t@.subrange(start as int, i as int).push(c));
        assert(owner@ =~= t@.subrange(start as int, i + 1).map_values(|c: char| remote_char(c)));
        i = i + 1;
    }
    if owner.len() > 0 {
        string_of(&owner)
    } else {
        String::from_str("autre")
    }
}

/// The cards of theirs this catalog lacks: sorted, each once.
pub open spec fn missing_of(theirs: Seq<Seq<char>>, ours: Seq<Seq<char>>) -> Seq<Seq<char>>
    decreases theirs.len(),
{
    if theirs.len() == 0 {
        seq![]
    } else {
        let before = missing_of(theirs.drop_last(), ours);
        if ours.contains(theirs.last()) { before } else { set_insert(before, theirs.last()) }
    }
}

fn contains_string(v: &Vec<String>, x: &Vec<char>) -> (r: bool)
    ensures
        r == strings(v@).contains(x@),
{
    let mut i: usize = 0;
    while i < v.len()
        invariant
            i <= v@.len(),
            forall|k: int| 0 <= k < i ==> strings(v@)[k] != x@,
        decreases v@.len() - i,
    {
        if same(&chars_of(v[i].as_str()), x) {
            assert(strings(v@)[i as int] == x@);
            return true;
        }
        i = i + 1;
    }
    false
}

/// The paths of theirs that ours lacks, sorted, each once.
pub fn missing_cards(theirs: &Vec<String>, ours: &Vec<String>) -> (r: Vec<String>)
    ensures
        strings(r@) == missing_of(strings(theirs@), strings(ours@)),
{
    let mut missing: Vec<String> = Vec::new();
    assert(strings(missing@) =~= seq![]);
    let mut i: usize = 0;
    while i < theirs.len()
        invariant
            i <= theirs@.len(),
            strings(missing@) == missing_of(strings(theirs@).take(i as int), strings(ours@)),
        decreases theirs@.len() - i,
    {
        proof {
            assert(strings(theirs@).take(i + 1).drop_last() =~= strings(theirs@).take(i as int));
            assert(strings(theirs@).take(i + 1).last() == theirs@[i as int]@);
        }
        let t = chars_of(theirs[i].as_str());
        if !contains_string(ours, &t) {
            set_insert_exec(&mut missing, theirs[i].clone());
        }
        i = i + 1;
    }
    assert(strings(theirs@).take(i as int) =~= strings(theirs@));
    missing
}

/// What the import says of the cards it takes: their names, twelve at
/// most, then how many more.
pub open spec fn listing_of(missing: Seq<Seq<char>>) -> Seq<Seq<char>> {
    missing.take(if missing.len() < 12 { missing.len() as int } else { 12 }).map_values(
        |p: Seq<char>| "  "@ + slug_of_path(p),
    ) + if missing.len() > 12 { seq!["  \u{2026} and "@ + decimal((missing.len() - 12) as nat) + " more"@] } else { seq![] }
}

pub fn listing(missing: &Vec<String>) -> (r: Vec<String>)
    ensures
        strings(r@) == listing_of(strings(missing@)),
{
    let n: usize = if missing.len() < 12 { missing.len() } else { 12 };
    let mut rows: Vec<String> = Vec::new();
    let mut i: usize = 0;
    while i < n
        invariant
            i <= n <= missing@.len(),
            strings(rows@) == strings(missing@).take(i as int).map_values(|p: Seq<char>| "  "@ + slug_of_path(p)),
        decreases n - i,
    {
        let mut row: Vec<char> = Vec::new();
        push_str(&mut row, "  ");
        push_str(&mut row, slug_of(missing[i].as_str()).as_str());
        let ghost before = rows@;
        let s = string_of(&row);
        rows.push(s);
        assert(strings(rows@) =~= strings(before).push(s@));
        assert(strings(missing@).take(i + 1) =~= strings(missing@).take(i as int).push(missing@[i as int]@));
        assert(strings(rows@) =~= strings(missing@).take(i + 1).map_values(|p: Seq<char>| "  "@ + slug_of_path(p)));
        i = i + 1;
    }
    if missing.len() > 12 {
        let mut more: Vec<char> = Vec::new();
        push_str(&mut more, "  \u{2026} and ");
        let d = decimal_of((missing.len() - 12) as u64);
        push_all(&mut more, &d);
        push_str(&mut more, " more");
        let ghost before = rows@;
        let s = string_of(&more);
        rows.push(s);
        assert(strings(rows@) =~= strings(before).push(s@));
    }
    assert(strings(rows@) =~= listing_of(strings(missing@)));
    rows
}

/// The commit of an import: how many cards, from whom.
pub fn import_message(count: usize, remote: &str) -> (r: String)
    ensures
        r@ == "import: "@ + decimal(count as nat) + " cards from "@ + remote@,
{
    let mut m: Vec<char> = Vec::new();
    push_str(&mut m, "import: ");
    let d = decimal_of(count as u64);
    push_all(&mut m, &d);
    push_str(&mut m, " cards from ");
    push_str(&mut m, remote);
    string_of(&m)
}

/// The cards an import takes come sorted, each once: those of theirs this
/// catalog lacks, and only those — a card this catalog has is never
/// overwritten.
pub proof fn only_the_missing_come(theirs: Seq<Seq<char>>, ours: Seq<Seq<char>>)
    ensures
        strictly_sorted(missing_of(theirs, ours)),
        forall|x: Seq<char>| missing_of(theirs, ours).contains(x) <==> (theirs.contains(x) && !ours.contains(x)),
    decreases theirs.len(),
{
    if theirs.len() > 0 {
        let init = theirs.drop_last();
        only_the_missing_come(init, ours);
        let prev = missing_of(init, ours);
        let t = theirs.last();
        if !ours.contains(t) {
            set_insert_keeps_sorted(prev, t);
        }
        assert forall|x: Seq<char>| missing_of(theirs, ours).contains(x) <==> (theirs.contains(x) && !ours.contains(x)) by {
            if ours.contains(t) {
                assert(missing_of(theirs, ours) == prev);
            } else {
                assert(missing_of(theirs, ours) == set_insert(prev, t));
                assert(set_insert(prev, t).contains(x) <==> (prev.contains(x) || x == t));
            }
            if theirs.contains(x) {
                let i = choose|i: int| 0 <= i < theirs.len() && theirs[i] == x;
                if i < theirs.len() - 1 {
                    assert(init[i] == x);
                }
            }
            if init.contains(x) {
                let i = choose|i: int| 0 <= i < init.len() && init[i] == x;
                assert(theirs[i] == x);
            }
        }
    }
}

} // verus!
