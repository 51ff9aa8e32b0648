//! The fork facing the reference: `diff`, what this catalog has beyond the
//! reference; `propose`, offering those cards upstream as one pull request;
//! `update`, bringing the reference into the fork. Git itself is run by the
//! caller; what it prints comes back here, where it is read and said.

use vstd::prelude::*;
use crate::text::{
    chars_of, string_of, slice, push_all, push_str, join, join_of, views, lines, lines_of, trim,
    trim_exec, find, find_from, find_in, lemma_find_from, occurs_at, contains, contains_in,
    starts_with, ends_with, piece_end, lemma_piece_end, decimal, decimal_of, same, same_str,
    usize_of, parse_usize,
};
use crate::edit::strings;

verus! {

// ---------------------------------------------------------------------------
// Names out of urls and paths.

/// `s` without the copies of `suf` it ends with.
pub open spec fn strip_suffixes(s: Seq<char>, suf: Seq<char>) -> Seq<char>
    decreases s.len(),
{
    if suf.len() > 0 && suf.is_suffix_of(s) {
        strip_suffixes(s.subrange(0, s.len() - suf.len()), suf)
    } else {
        s
    }
}

pub fn strip_suffixes_exec(s: &Vec<char>, suf: &str) -> (r: Vec<char>)
    ensures
        r@ == strip_suffixes(s@, suf@),
{
    let p = chars_of(suf);
    let mut t = slice(s, 0, s.len());
    assert(t@ =~= s@);
    while p.len() > 0 && ends_with(&t, &p)
        invariant
            p@ == suf@,
            strip_suffixes(s@, suf@) == strip_suffixes(t@, suf@),
        decreases t@.len(),
    {
        t = slice(&t, 0, t.len() - p.len());
    }
    t
}

/// Where, before position `i`, `s` last has a separator of a remote url
/// (`/`, or `:` when `colon`): -1 when nowhere.
pub open spec fn last_sep(s: Seq<char>, i: int, colon: bool) -> int
    decreases i,
{
    if i <= 0 || i > s.len() {
        -1
    } else if s[i - 1] == '/' || (colon && s[i - 1] == ':') {
        i - 1
    } else {
        last_sep(s, i - 1, colon)
    }
}

proof fn lemma_last_sep(s: Seq<char>, i: int, colon: bool)
    requires
        0 <= i <= s.len(),
    ensures
        -1 <= last_sep(s, i, colon) < i,
    decreases i,
{
    if i > 0 && !(s[i - 1] == '/' || (colon && s[i - 1] == ':')) {
        lemma_last_sep(s, i - 1, colon);
    }
}

fn last_sep_exec(s: &Vec<char>, i: usize, colon: bool) -> (r: Option<usize>)
    requires
        i <= s@.len(),
    ensures
        match r {
            Some(j) => last_sep(s@, i as int, colon) == j as int,
            None => last_sep(s@, i as int, colon) == -1,
        },
{
    let mut k = i;
    while k > 0
        invariant
            k <= i <= s@.len(),
            last_sep(s@, i as int, colon) == last_sep(s@, k as int, colon),
        decreases k,
    {
        if s[k - 1] == '/' || (colon && s[k - 1] == ':') {
            return Some(k - 1);
        }
        k = k - 1;
    }
    None
}

/// `owner/repo` out of a remote url.
pub open spec fn short_repo_of(url: Seq<char>) -> Seq<char> {
    let t = strip_suffixes(strip_suffixes(url, seq!['/']), ".git"@);
    let j = last_sep(t, t.len() as int, true);
    if j < 0 {
        t
    } else {
        let k = last_sep(t, j, true);
        t.subrange(k + 1, j) + seq!['/'] + t.subrange(j + 1, t.len() as int)
    }
}

/// `owner/repo` out of a remote url.
pub fn short_repo(url: &str) -> (r: String)
    ensures
        r@ == short_repo_of(url@),
{
    let u = chars_of(url);
    let a = strip_suffixes_exec(&u, "/");
    proof { reveal_strlit("/"); assert("/"@ =~= seq!['/']); }
    let t = strip_suffixes_exec(&a, ".git");
    proof { lemma_last_sep(t@, t@.len() as int, true); }
    match last_sep_exec(&t, t.len(), true) {
        None => string_of(&t),
        Some(j) => {
            proof { lemma_last_sep(t@, j as int, true); }
            let start = match last_sep_exec(&t, j, true) {
                Some(k) => k + 1,
                None => 0,
            };
            let mut out = slice(&t, start, j);
            out.push('/');
            let repo = slice(&t, j + 1, t.len());
            push_all(&mut out, &repo);
            string_of(&out)
        },
    }
}

/// The slug of a card's path: its file name without `.toml`.
pub open spec fn slug_of_path(path: Seq<char>) -> Seq<char> {
    let j = last_sep(path, path.len() as int, false);
    strip_suffixes(path.subrange(j + 1, path.len() as int), ".toml"@)
}

pub fn slug_of(path: &str) -> (r: String)
    ensures
        r@ == slug_of_path(path@),
{
    let p = chars_of(path);
    proof { lemma_last_sep(p@, p@.len() as int, false); }
    let start = match last_sep_exec(&p, p.len(), false) {
        Some(j) => j + 1,
        None => 0,
    };
    let name = slice(&p, start, p.len());
    string_of(&strip_suffixes_exec(&name, ".toml"))
}

// ---------------------------------------------------------------------------
// The sections a diff of a card touches.

/// Strings in the order `String` sorts them: by characters, a prefix first.
pub open spec fn lex_lt(a: Seq<char>, b: Seq<char>) -> bool
    decreases a.len(),
{
    if a.len() == 0 {
        b.len() > 0
    } else if b.len() == 0 {
        false
    } else if a[0] != b[0] {
        a[0] < b[0]
    } else {
        lex_lt(a.drop_first(), b.drop_first())
    }
}

pub fn lex_less(a: &Vec<char>, b: &Vec<char>) -> (r: bool)
    ensures
        r == lex_lt(a@, b@),
{
    let mut i: usize = 0;
    assert(a@.skip(0) =~= a@ && b@.skip(0) =~= b@);
    while i < a.len() && i < b.len() && a[i] == b[i]
        invariant
            i <= a@.len() && i <= b@.len(),
            lex_lt(a@, b@) == lex_lt(a@.skip(i as int), b@.skip(i as int)),
        decreases a@.len() - i,
    {
        assert(a@.skip(i as int).drop_first() =~= a@.skip(i + 1));
        assert(b@.skip(i as int).drop_first() =~= b@.skip(i + 1));
        i = i + 1;
    }
    if i == a.len() {
        i < b.len()
    } else if i == b.len() {
        false
    } else {
        a[i] < b[i]
    }
}

/// Where `x` goes in a sorted list: before the first entry not below it.
pub open spec fn insert_at(v: Seq<Seq<char>>, x: Seq<char>, i: int) -> int
    decreases v.len() - i,
{
    if i < 0 || i >= v.len() || !lex_lt(v[i], x) { i } else { insert_at(v, x, i + 1) }
}

pub proof fn lemma_insert_at(v: Seq<Seq<char>>, x: Seq<char>, i: int)
    requires
        0 <= i <= v.len(),
    ensures
        i <= insert_at(v, x, i) <= v.len(),
    decreases v.len() - i,
{
    if i < v.len() && lex_lt(v[i], x) {
        lemma_insert_at(v, x, i + 1);
    }
}

/// A sorted set of strings with `x` in it.
pub open spec fn set_insert(v: Seq<Seq<char>>, x: Seq<char>) -> Seq<Seq<char>> {
    let j = insert_at(v, x, 0);
    if 0 <= j < v.len() && v[j] == x { v } else { v.insert(j, x) }
}

pub fn set_insert_exec(v: &mut Vec<String>, x: String)
    ensures
        strings(final(v)@) == set_insert(strings(old(v)@), x@),
{
    let xc = chars_of(x.as_str());
    let ghost sv = strings(v@);
    proof { lemma_insert_at(sv, x@, 0); }
    let mut j: usize = 0;
    while j < v.len() && lex_less(&chars_of(v[j].as_str()), &xc)
        invariant
            j <= v@.len(),
            sv == strings(v@),
            xc@ == x@,
            insert_at(sv, x@, 0) == insert_at(sv, x@, j as int),
        decreases v@.len() - j,
    {
        j = j + 1;
    }
    if j < v.len() && same(&chars_of(v[j].as_str()), &xc) {
        return;
    }
    let ghost before = v@;
    v.insert(j, x);
    assert(strings(v@) =~= strings(before).insert(j as int, xc@));
}

pub open spec fn is_key_section(k: Seq<char>) -> bool {
    k == "name"@ || k == "mbid"@ || k == "spotify"@ || k == "description"@ || k == "tags"@
        || k == "begin"@ || k == "end"@ || k == "origin"@ || k == "generated"@
}

/// The piece of `s` after the first `pat`, up to the next one.
pub open spec fn piece_after(s: Seq<char>, pat: Seq<char>) -> Option<Seq<char>> {
    match find(s, pat) {
        Some(i) => {
            let from = i + pat.len();
            let to = match find_from(s, pat, from) { Some(j) => j, None => s.len() as int };
            Some(s.subrange(from, to))
        },
        None => None,
    }
}

/// `s` up to its first double quote.
pub open spec fn upto_quote(s: Seq<char>) -> Seq<char> {
    s.take(piece_end(s, '"', 0))
}

/// The content of an added or removed line of a diff, its headers aside.
pub open spec fn changed_text(line: Seq<char>) -> Option<Seq<char>> {
    if line.len() > 0 && (line[0] == '+' || line[0] == '-') {
        let rest = line.drop_first();
        if "++"@.is_prefix_of(rest) || "--"@.is_prefix_of(rest) { None } else { Some(trim(rest)) }
    } else {
        None
    }
}

pub open spec fn is_link_line(t: Seq<char>) -> bool {
    "{ to"@.is_prefix_of(t) || "{to"@.is_prefix_of(t)
}

/// The key of a `key = value` line.
pub open spec fn line_key(t: Seq<char>) -> Seq<char> {
    trim(t.take(piece_end(t, '=', 0)))
}

/// The section of the card a line of its diff touches.
pub open spec fn line_section(line: Seq<char>) -> Option<Seq<char>> {
    match changed_text(line) {
        Some(t) => if is_key_section(line_key(t)) {
            Some(line_key(t))
        } else if is_link_line(t) {
            Some(match piece_after(t, "type = \""@) { Some(k) => upto_quote(k), None => "links"@ })
        } else if "{ track"@.is_prefix_of(t) {
            Some("doors"@)
        } else if "\""@.is_prefix_of(t) {
            Some("tops"@)
        } else {
            None
        },
        None => None,
    }
}

/// The provenance note of a link line of the diff.
pub open spec fn line_note(line: Seq<char>) -> Option<Seq<char>> {
    match changed_text(line) {
        Some(t) => if !is_key_section(line_key(t)) && is_link_line(t) {
            match piece_after(t, "note = \""@) { Some(n) => Some(upto_quote(n)), None => None }
        } else {
            None
        },
        None => None,
    }
}

/// The sections touched, sorted and each once, and the notes, in order.
pub open spec fn sections_acc(ls: Seq<Seq<char>>) -> (Seq<Seq<char>>, Seq<Seq<char>>)
    decreases ls.len(),
{
    if ls.len() == 0 {
        (seq![], seq![])
    } else {
        let prev = sections_acc(ls.drop_last());
        let l = ls.last();
        (
            match line_section(l) { Some(x) => set_insert(prev.0, x), None => prev.0 },
            match line_note(l) { Some(n) => prev.1.push(n), None => prev.1 },
        )
    }
}

fn prefix(s: &Vec<char>, p: &str) -> (r: bool)
    ensures
        r == p@.is_prefix_of(s@),
{
    starts_with(s, &chars_of(p))
}

fn piece_after_exec(s: &Vec<char>, pat: &str) -> (r: Option<Vec<char>>)
    ensures
        match r {
            Some(p) => piece_after(s@, pat@) == Some(p@),
            None => piece_after(s@, pat@) is None,
        },
{
    let p = chars_of(pat);
    let slen = s.len();
    match find_in(s, &p, 0) {
        Some(i) => {
            assert(i + p@.len() <= s@.len()) by {
                lemma_find_from(s@, p@, 0);
                assert(occurs_at(s@, p@, i as int));
            }
            let from = i + p.len();
            let to = match find_in(s, &p, from) {
                Some(j) => {
                    assert(from <= j && j + p@.len() <= s@.len()) by {
                        lemma_find_from(s@, p@, from as int);
                        assert(occurs_at(s@, p@, j as int));
                    }
                    j
                },
                None => slen,
            };
            Some(slice(s, from, to))
        },
        None => None,
    }
}

fn upto_quote_exec(s: &Vec<char>) -> (r: Vec<char>)
    ensures
        r@ == upto_quote(s@),
{
    let mut e: usize = 0;
    while e < s.len() && s[e] != '"'
        invariant
            e <= s@.len(),
            piece_end(s@, '"', 0) == piece_end(s@, '"', e as int),
        decreases s@.len() - e,
    {
        e = e + 1;
    }
    slice(s, 0, e)
}

fn changed_text_exec(line: &Vec<char>) -> (r: Option<Vec<char>>)
    ensures
        match r {
            Some(t) => changed_text(line@) == Some(t@),
            None => changed_text(line@) is None,
        },
{
    if line.len() > 0 && (line[0] == '+' || line[0] == '-') {
        let rest = slice(line, 1, line.len());
        assert(rest@ =~= line@.drop_first());
        if prefix(&rest, "++") || prefix(&rest, "--") {
            None
        } else {
            Some(trim_exec(&rest))
        }
    } else {
        None
    }
}

fn line_key_exec(t: &Vec<char>) -> (r: Vec<char>)
    ensures
        r@ == line_key(t@),
{
    let mut e: usize = 0;
    while e < t.len() && t[e] != '='
        invariant
            e <= t@.len(),
            piece_end(t@, '=', 0) == piece_end(t@, '=', e as int),
        decreases t@.len() - e,
    {
        e = e + 1;
    }
    trim_exec(&slice(t, 0, e))
}

fn is_key_section_exec(k: &Vec<char>) -> (r: bool)
    ensures
        r == is_key_section(k@),
{
    let s = string_of(k);
    let k = s.as_str();
    same_str(k, "name") || same_str(k, "mbid") || same_str(k, "spotify") || same_str(k, "description")
        || same_str(k, "tags") || same_str(k, "begin") || same_str(k, "end") || same_str(k, "origin")
        || same_str(k, "generated")
}

fn text_string(s: &str) -> (r: String)
    ensures
        r@ == s@,
{
    String::from_str(s)
}

/// The sections of a card a diff touches, from its added and removed
/// lines: tops, tags, description, mbid, spotify, the link types… sorted
/// and each once; and the provenance notes of the links, in order.
pub fn sections_of(diff: &str) -> (r: (Vec<String>, Vec<String>))
    ensures
        (strings(r.0@), strings(r.1@)) == sections_acc(lines(diff@)),
{
    let ls = lines_of(&chars_of(diff));
    let mut sections: Vec<String> = Vec::new();
    let mut notes: Vec<String> = Vec::new();
    let mut i: usize = 0;
    assert(views(ls@).take(0) =~= Seq::<Seq<char>>::empty());
    assert(strings(sections@) =~= seq![] && strings(notes@) =~= seq![]);
    while i < ls.len()
        invariant
            i <= ls@.len(),
            views(ls@) == lines(diff@),
            (strings(sections@), strings(notes@)) == sections_acc(views(ls@).take(i as int)),
        decreases ls@.len() - i,
    {
        let line = &ls[i];
        proof {
            assert(views(ls@).take(i + 1).drop_last() =~= views(ls@).take(i as int));
            assert(views(ls@).take(i + 1).last() == line@);
        }
        match changed_text_exec(line) {
            Some(t) => {
                let key = line_key_exec(&t);
                if is_key_section_exec(&key) {
                    set_insert_exec(&mut sections, string_of(&key));
                } else if prefix(&t, "{ to") || prefix(&t, "{to") {
                    match piece_after_exec(&t, "note = \"") {
                        Some(n) => {
                            let ghost before = notes@;
                            let note = string_of(&upto_quote_exec(&n));
                            notes.push(note);
                            assert(strings(notes@) =~= strings(before).push(note@));
                        },
                        None => {},
                    }
                    let kind = match piece_after_exec(&t, "type = \"") {
                        Some(k) => string_of(&upto_quote_exec(&k)),
                        None => text_string("links"),
                    };
                    set_insert_exec(&mut sections, kind);
                } else if prefix(&t, "{ track") {
                    set_insert_exec(&mut sections, text_string("doors"));
                } else if prefix(&t, "\"") {
                    set_insert_exec(&mut sections, text_string("tops"));
                }
            },
            None => {},
        }
        i = i + 1;
    }
    assert(views(ls@).take(i as int) =~= views(ls@));
    (sections, notes)
}

// ---------------------------------------------------------------------------
// A new card, summed up in a line.

/// How many copies of `c` `s` starts with.
pub open spec fn lead_count(s: Seq<char>, c: char) -> nat
    decreases s.len(),
{
    if s.len() > 0 && s[0] == c { 1 + lead_count(s.drop_first(), c) } else { 0 }
}

/// `s` without the double quotes around it.
pub open spec fn strip_quotes(s: Seq<char>) -> Seq<char> {
    let t = s.skip(lead_count(s, '"') as int);
    strip_suffixes(t, seq!['"'])
}

proof fn lemma_lead_count(s: Seq<char>, c: char, i: int)
    requires
        0 <= i <= s.len(),
        forall|j: int| 0 <= j < i ==> s[j] == c,
    ensures
        lead_count(s, c) >= i,
        lead_count(s, c) <= s.len(),
        i < s.len() && s[i] != c ==> lead_count(s, c) == i,
    decreases s.len(),
{
    if i > 0 {
        lemma_lead_count(s.drop_first(), c, i - 1);
    } else if s.len() > 0 && s[0] == c {
        lemma_lead_count(s.drop_first(), c, 0);
    }
}

proof fn lemma_lead_count_all(s: Seq<char>, c: char)
    requires
        forall|j: int| 0 <= j < s.len() ==> s[j] == c,
    ensures
        lead_count(s, c) == s.len(),
    decreases s.len(),
{
    if s.len() > 0 {
        lemma_lead_count_all(s.drop_first(), c);
    }
}

fn strip_quotes_exec(s: &Vec<char>) -> (r: Vec<char>)
    ensures
        r@ == strip_quotes(s@),
{
    let mut i: usize = 0;
    while i < s.len() && s[i] == '"'
        invariant
            i <= s@.len(),
            forall|j: int| 0 <= j < i ==> s@[j] == '"',
        decreases s@.len() - i,
    {
        i = i + 1;
    }
    proof {
        if i < s@.len() {
            lemma_lead_count(s@, '"', i as int);
        } else {
            lemma_lead_count_all(s@, '"');
        }
    }
    let t = slice(s, i, s.len());
    assert(t@ =~= s@.skip(i as int));
    proof { reveal_strlit("\""); assert("\""@ =~= seq!['"']); }
    strip_suffixes_exec(&t, "\"")
}

/// A new card read for its summary: its name, whether it was generated, its
/// first two tags, how many links and how many of them similar.
pub open spec fn summary_step(
    st: (Seq<char>, bool, Seq<Seq<char>>, nat, nat),
    line: Seq<char>,
) -> (Seq<char>, bool, Seq<Seq<char>>, nat, nat) {
    let t = trim(line);
    if "name = "@.is_prefix_of(t) {
        (strip_quotes(t.skip(7)), st.1, st.2, st.3, st.4)
    } else if "generated = true"@.is_prefix_of(t) {
        (st.0, true, st.2, st.3, st.4)
    } else if "tags = ["@.is_prefix_of(t) {
        (st.0, st.1, first_tags(t.skip(8)), st.3, st.4)
    } else if "{ to"@.is_prefix_of(t) {
        (st.0, st.1, st.2, st.3 + 1, st.4 + if contains(t, "type = \"similar\""@) { 1nat } else { 0nat })
    } else {
        st
    }
}

/// The tags of a `tags = [` line, empty ones left out.
pub open spec fn tag_values(ps: Seq<Seq<char>>) -> Seq<Seq<char>>
    decreases ps.len(),
{
    if ps.len() == 0 {
        seq![]
    } else {
        let v = strip_quotes(trim(ps.last()));
        if v.len() > 0 { tag_values(ps.drop_last()).push(v) } else { tag_values(ps.drop_last()) }
    }
}

/// The first two tags of a `tags = [` line.
pub open spec fn first_tags(rest: Seq<char>) -> Seq<Seq<char>> {
    let all = tag_values(crate::text::split(strip_suffixes(rest, seq![']']), ','));
    all.take(if all.len() < 2 { all.len() as int } else { 2 })
}

pub open spec fn summary_acc(ls: Seq<Seq<char>>) -> (Seq<char>, bool, Seq<Seq<char>>, nat, nat)
    decreases ls.len(),
{
    if ls.len() == 0 {
        (seq![], false, seq![], 0, 0)
    } else {
        summary_step(summary_acc(ls.drop_last()), ls.last())
    }
}

/// The line that sums a new card up: its first tags, and its links.
pub open spec fn summary_line(tags: Seq<Seq<char>>, links: nat, similar: nat) -> Seq<char> {
    let s = join(tags, ", "@);
    if links > 0 {
        (if s.len() > 0 { s + " \u{b7} "@ } else { s }) + if similar == links {
            decimal(links) + " similar"@
        } else {
            decimal(links) + " links, "@ + decimal(similar) + " similar"@
        }
    } else {
        s
    }
}

pub open spec fn card_summary_of(text: Seq<char>) -> (Seq<char>, bool, Seq<char>) {
    let st = summary_acc(lines(text));
    (st.0, st.1, summary_line(st.2, st.3, st.4))
}

fn first_tags_exec(rest: &Vec<char>) -> (r: Vec<Vec<char>>)
    ensures
        views(r@) == first_tags(rest@),
{
    let body = strip_suffixes_exec(rest, "]");
    proof { reveal_strlit("]"); assert("]"@ =~= seq![']']); }
    let pieces = crate::text::split_of(&body, ',');
    let mut all: Vec<Vec<char>> = Vec::new();
    let mut i: usize = 0;
    while i < pieces.len()
        invariant
            i <= pieces@.len(),
            views(all@) == tag_values(views(pieces@).take(i as int)),
        decreases pieces@.len() - i,
    {
        proof {
            assert(views(pieces@).take(i + 1).drop_last() =~= views(pieces@).take(i as int));
            assert(views(pieces@).take(i + 1).last() == pieces@[i as int]@);
        }
        let v = strip_quotes_exec(&trim_exec(&pieces[i]));
        if v.len() > 0 {
            let ghost before = all@;
            all.push(v);
            assert(views(all@) =~= views(before).push(v@));
        }
        i = i + 1;
    }
    assert(views(pieces@).take(i as int) =~= views(pieces@));
    let n: usize = if all.len() < 2 { all.len() } else { 2 };
    let mut r: Vec<Vec<char>> = Vec::new();
    let mut k: usize = 0;
    while k < n
        invariant
            k <= n <= all@.len(),
            views(r@) == views(all@).take(k as int),
        decreases n - k,
    {
        let ghost before = r@;
        let piece = slice(&all[k], 0, all[k].len());
        assert(piece@ =~= all@[k as int]@);
        r.push(piece);
        assert(views(r@) =~= views(before).push(all@[k as int]@));
        assert(views(r@) =~= views(all@).take(k + 1));
        k = k + 1;
    }
    r
}

/// A new card summed up: its name, whether it was generated, and its first
/// two tags with the count of its links.
pub fn card_summary(text: &str) -> (r: (String, bool, String))
    ensures
        (r.0@, r.1, r.2@) == card_summary_of(text@),
{
    let ls = lines_of(&chars_of(text));
    let mut name: Vec<char> = Vec::new();
    let mut generated = false;
    let mut tags: Vec<Vec<char>> = Vec::new();
    let mut links: usize = 0;
    let mut similar: usize = 0;
    let mut i: usize = 0;
    assert(views(ls@).take(0) =~= Seq::<Seq<char>>::empty());
    assert(views(tags@) =~= Seq::<Seq<char>>::empty());
    while i < ls.len()
        invariant
            i <= ls@.len(),
            views(ls@) == lines(text@),
            similar <= links <= i,
            (name@, generated, views(tags@), links as nat, similar as nat) == summary_acc(views(ls@).take(i as int)),
        decreases ls@.len() - i,
    {
        proof {
            assert(views(ls@).take(i + 1).drop_last() =~= views(ls@).take(i as int));
            assert(views(ls@).take(i + 1).last() == ls@[i as int]@);
        }
        let t = trim_exec(&ls[i]);
        if prefix(&t, "name = ") {
            proof { reveal_strlit("name = "); }
            name = strip_quotes_exec(&slice(&t, 7, t.len()));
            assert(t@.subrange(7, t@.len() as int) =~= t@.skip(7));
        } else if prefix(&t, "generated = true") {
            generated = true;
        } else if prefix(&t, "tags = [") {
            proof { reveal_strlit("tags = ["); }
            let rest = slice(&t, 8, t.len());
            assert(rest@ =~= t@.skip(8));
            tags = first_tags_exec(&rest);
        } else if prefix(&t, "{ to") {
            links = links + 1;
            if contains_in(&t, &chars_of("type = \"similar\"")) {
                similar = similar + 1;
            }
        }
        i = i + 1;
    }
    assert(views(ls@).take(i as int) =~= views(ls@));
    let mut sep: Vec<char> = Vec::new();
    push_str(&mut sep, ", ");
    let mut summary = join_of(&tags, &sep);
    if links > 0 {
        if summary.len() > 0 {
            push_str(&mut summary, " \u{b7} ");
        }
        let count = decimal_of(links as u64);
        push_all(&mut summary, &count);
        if similar == links {
            push_str(&mut summary, " similar");
        } else {
            push_str(&mut summary, " links, ");
            let sim = decimal_of(similar as u64);
            push_all(&mut summary, &sim);
            push_str(&mut summary, " similar");
        }
    }
    (string_of(&name), generated, string_of(&summary))
}

// ---------------------------------------------------------------------------
// What this catalog has beyond the reference.

/// One card of the diff.
pub struct Change {
    pub slug: String,
    pub name: String,
    /// New card: `generated = true`, or written by hand.
    pub generated: bool,
    /// New card: its first tags, and how many links.
    pub summary: String,
    /// Edited card: lines added and removed.
    pub added: usize,
    pub removed: usize,
    /// Edited card: the sections touched — "tops · similar, member".
    pub sections: String,
    /// The provenance note of an added link, when there is one.
    pub note: String,
}

pub struct Diff {
    pub base: String,
    pub new: Vec<Change>,
    pub edited: Vec<Change>,
    pub removed: usize,
    pub updated: Option<String>,
}

pub open spec fn opt_view(o: Option<String>) -> Option<Seq<char>> {
    match o { Some(s) => Some(s@), None => None }
}

pub open spec fn count_generated(v: Seq<Change>) -> nat
    decreases v.len(),
{
    if v.len() == 0 { 0 } else { count_generated(v.drop_last()) + if v.last().generated { 1nat } else { 0nat } }
}

/// The pull request's title: how many cards, and of which kind.
pub open spec fn title_of(d: Diff) -> Seq<char> {
    let g = count_generated(d.new@);
    let w = d.new@.len() - g;
    let parts = (if g > 0 { seq![decimal(g) + " generated"@] } else { seq![] })
        + (if w > 0 { seq![decimal(w as nat) + " written"@] } else { seq![] })
        + (if d.edited@.len() > 0 { seq![decimal(d.edited@.len()) + " edited"@] } else { seq![] });
    "Propose "@ + decimal(d.new@.len() + d.edited@.len()) + " cards ("@ + join(parts, ", "@) + ")"@
}

pub open spec fn new_entry(c: Change) -> Seq<char> {
    "- "@ + c.slug@ + " \u{b7} "@ + (if c.generated { "generated"@ } else { "written by hand"@ })
        + (if c.summary@.len() == 0 { seq![] } else { " \u{b7} "@ + c.summary@ }) + seq!['\n']
}

pub open spec fn edited_entry(c: Change) -> Seq<char> {
    "- "@ + c.slug@ + " +"@ + decimal(c.added as nat) + " \u{2212}"@ + decimal(c.removed as nat) + " \u{b7} "@
        + c.sections@ + seq!['\n'] + (if c.note@.len() == 0 { seq![] } else { "  source: "@ + c.note@ + seq!['\n'] })
}

pub open spec fn concat_all(v: Seq<Seq<char>>) -> Seq<char> {
    join(v, seq![])
}

/// The pull request's body, written for the maintainers upstream: the new cards first,
/// one line each, to skim; the edited ones after, to read; the trailer last.
pub open spec fn body_of(d: Diff, trailer: Seq<char>) -> Seq<char> {
    (if d.new@.len() > 0 {
        "## New cards ("@ + decimal(d.new@.len()) + ") \u{2014} pipeline output, nothing to read\n\n"@
            + concat_all(d.new@.map_values(|c: Change| new_entry(c))) + seq!['\n']
    } else {
        seq![]
    }) + (if d.edited@.len() > 0 {
        "## Edited cards ("@ + decimal(d.edited@.len()) + ") \u{2014} please read\n\n"@
            + concat_all(d.edited@.map_values(|c: Change| edited_entry(c))) + seq!['\n']
    } else {
        seq![]
    }) + (if d.removed > 0 { decimal(d.removed as nat) + " card(s) removed.\n\n"@ } else { seq![] })
        + trailer + seq!['\n']
}

fn push_count(v: &mut Vec<char>, n: usize)
    ensures
        final(v)@ == old(v)@ + decimal(n as nat),
{
    let d = decimal_of(n as u64);
    push_all(v, &d);
}

proof fn lemma_concat_push(v: Seq<Seq<char>>, x: Seq<char>)
    ensures
        concat_all(v.push(x)) == concat_all(v) + x,
{
    assert(v.push(x).drop_last() =~= v);
    if v.len() == 0 {
        assert(concat_all(v.push(x)) == x);
        assert(concat_all(v) + x =~= x);
    } else {
        assert(concat_all(v.push(x)) == concat_all(v) + seq![] + x);
        assert(concat_all(v) + seq![] =~= concat_all(v));
    }
}

fn new_entry_exec(c: &Change) -> (r: Vec<char>)
    ensures
        r@ == new_entry(*c),
{
    let mut b: Vec<char> = Vec::new();
    push_str(&mut b, "- ");
    push_str(&mut b, c.slug.as_str());
    push_str(&mut b, " \u{b7} ");
    if c.generated {
        push_str(&mut b, "generated");
    } else {
        push_str(&mut b, "written by hand");
    }
    let sc = chars_of(c.summary.as_str());
    if sc.len() > 0 {
        push_str(&mut b, " \u{b7} ");
        push_all(&mut b, &sc);
    }
    b.push('\n');
    assert(b@ =~= new_entry(*c));
    b
}

fn edited_entry_exec(c: &Change) -> (r: Vec<char>)
    ensures
        r@ == edited_entry(*c),
{
    let mut b: Vec<char> = Vec::new();
    push_str(&mut b, "- ");
    push_str(&mut b, c.slug.as_str());
    push_str(&mut b, " +");
    push_count(&mut b, c.added);
    push_str(&mut b, " \u{2212}");
    push_count(&mut b, c.removed);
    push_str(&mut b, " \u{b7} ");
    push_str(&mut b, c.sections.as_str());
    b.push('\n');
    let nc = chars_of(c.note.as_str());
    if nc.len() > 0 {
        push_str(&mut b, "  source: ");
        push_all(&mut b, &nc);
        b.push('\n');
    }
    assert(b@ =~= edited_entry(*c));
    b
}

impl Diff {
    pub fn is_empty(&self) -> (r: bool)
        ensures
            r == (self.new@.len() == 0 && self.edited@.len() == 0 && self.removed == 0),
    {
        self.new.len() == 0 && self.edited.len() == 0 && self.removed == 0
    }

    /// The pull request's title: how many cards, and of which kind.
    pub fn title(&self) -> (r: String)
        requires
            self.new@.len() + self.edited@.len() <= usize::MAX,
        ensures
            r@ == title_of(*self),
    {
        let mut g: usize = 0;
        let mut i: usize = 0;
        while i < self.new.len()
            invariant
                i <= self.new@.len(),
                g == count_generated(self.new@.take(i as int)),
                g <= i,
            decreases self.new@.len() - i,
        {
            proof { assert(self.new@.take(i + 1).drop_last() =~= self.new@.take(i as int)); }
            if self.new[i].generated {
                g = g + 1;
            }
            i = i + 1;
        }
        assert(self.new@.take(i as int) =~= self.new@);
        let w = self.new.len() - g;
        let mut parts: Vec<Vec<char>> = Vec::new();
        let ghost p0 = views(parts@);
        if g > 0 {
            let mut p: Vec<char> = Vec::new();
            push_count(&mut p, g);
            push_str(&mut p, " generated");
            let ghost before = parts@;
            parts.push(p);
            assert(views(parts@) =~= views(before).push(p@));
        }
        if w > 0 {
            let mut p: Vec<char> = Vec::new();
            push_count(&mut p, w);
            push_str(&mut p, " written");
            let ghost before = parts@;
            parts.push(p);
            assert(views(parts@) =~= views(before).push(p@));
        }
        if self.edited.len() > 0 {
            let mut p: Vec<char> = Vec::new();
            push_count(&mut p, self.edited.len());
            push_str(&mut p, " edited");
            let ghost before = parts@;
            parts.push(p);
            assert(views(parts@) =~= views(before).push(p@));
        }
        let ghost gg = count_generated(self.new@);
        let ghost ww = (self.new@.len() - gg) as nat;
        assert(views(parts@) =~= (if gg > 0 { seq![decimal(gg) + " generated"@] } else { seq![] })
            + (if ww > 0 { seq![decimal(ww) + " written"@] } else { seq![] })
            + (if self.edited@.len() > 0 { seq![decimal(self.edited@.len()) + " edited"@] } else { seq![] }));
        let mut t: Vec<char> = Vec::new();
        push_str(&mut t, "Propose ");
        push_count(&mut t, self.new.len() + self.edited.len());
        push_str(&mut t, " cards (");
        let mut sep: Vec<char> = Vec::new();
        push_str(&mut sep, ", ");
        let j = join_of(&parts, &sep);
        push_all(&mut t, &j);
        push_str(&mut t, ")");
        string_of(&t)
    }

    /// The pull request's body, the trailer last.
    #[verifier::rlimit(50)]
    #[verifier::spinoff_prover]
    pub fn body(&self, trailer: &str) -> (r: String)
        ensures
            r@ == body_of(*self, trailer@),
    {
        let mut b: Vec<char> = Vec::new();
        if self.new.len() > 0 {
            push_str(&mut b, "## New cards (");
            push_count(&mut b, self.new.len());
            push_str(&mut b, ") \u{2014} pipeline output, nothing to read\n\n");
            let ghost start = b@;
            let ghost entries = self.new@.map_values(|c: Change| new_entry(c));
            let mut i: usize = 0;
            while i < self.new.len()
                invariant
                    i <= self.new@.len(),
                    entries == self.new@.map_values(|c: Change| new_entry(c)),
                    b@ == start + concat_all(entries.take(i as int)),
                decreases self.new@.len() - i,
            {
                let c = &self.new[i];
                let e = new_entry_exec(c);
                push_all(&mut b, &e);
                proof {
                    assert(entries.take(i + 1) =~= entries.take(i as int).push(new_entry(*c)));
                    lemma_concat_push(entries.take(i as int), new_entry(*c));
                    assert(b@ =~= start + concat_all(entries.take(i + 1)));
                }
                i = i + 1;
            }
            assert(entries.take(i as int) =~= entries);
            b.push('\n');
        }
        let ghost after_new = b@;
        if self.edited.len() > 0 {
            push_str(&mut b, "## Edited cards (");
            push_count(&mut b, self.edited.len());
            push_str(&mut b, ") \u{2014} please read\n\n");
            let ghost start = b@;
            let ghost entries = self.edited@.map_values(|c: Change| edited_entry(c));
            let mut i: usize = 0;
            while i < self.edited.len()
                invariant
                    i <= self.edited@.len(),
                    entries == self.edited@.map_values(|c: Change| edited_entry(c)),
                    b@ == start + concat_all(entries.take(i as int)),
                decreases self.edited@.len() - i,
            {
                let c = &self.edited[i];
                let e = edited_entry_exec(c);
                push_all(&mut b, &e);
                proof {
                    assert(entries.take(i + 1) =~= entries.take(i as int).push(edited_entry(*c)));
                    lemma_concat_push(entries.take(i as int), edited_entry(*c));
                    assert(b@ =~= start + concat_all(entries.take(i + 1)));
                }
                i = i + 1;
            }
            assert(entries.take(i as int) =~= entries);
            b.push('\n');
        }
        let ghost after_edited = b@;
        if self.removed > 0 {
            push_count(&mut b, self.removed);
            push_str(&mut b, " card(s) removed.\n\n");
        }
        push_str(&mut b, trailer);
        b.push('\n');
        assert(b@ =~= body_of(*self, trailer@));
        string_of(&b)
    }
}

// ---------------------------------------------------------------------------
// The overlay of the diff.

pub open spec fn spaces(n: nat) -> Seq<char> {
    Seq::new(n, |i: int| ' ')
}

/// `s` left-aligned in a column of `w` characters.
pub open spec fn padded(s: Seq<char>, w: nat) -> Seq<char> {
    if s.len() < w { s + spaces((w - s.len()) as nat) } else { s }
}

pub open spec fn first_chars(s: Seq<char>, n: nat) -> Seq<char> {
    s.take(if s.len() < n { s.len() as int } else { n as int })
}

pub open spec fn new_row(c: Change) -> Seq<char> {
    "  + "@ + padded(first_chars(c.name@, 24), 24) + " "@
        + padded(if c.generated { "generated"@ } else { "written"@ }, 10) + " "@ + c.summary@
}

pub open spec fn edited_row(c: Change) -> Seq<char> {
    "  ~ "@ + padded(first_chars(c.name@, 24), 24) + " +"@ + decimal(c.added as nat) + " \u{2212}"@
        + decimal(c.removed as nat) + "  "@ + c.sections@
        + (if c.note@.len() > 0 { " \u{2014} "@ + c.note@ } else { seq![] })
}

/// The overlay of the diff: the count and the date, the new cards (`at_most`
/// of them, then how many more), the edited ones.
pub open spec fn diff_lines(d: Diff, at_most: nat) -> Seq<Seq<char>> {
    if d.new@.len() == 0 && d.edited@.len() == 0 && d.removed == 0 {
        seq!["nothing beyond "@ + d.base@ + " \u{2014} the catalog is the reference's"@]
    } else {
        seq![
            decimal(d.new@.len() + d.edited@.len()) + " card(s) beyond the reference \u{b7} "@
                + match opt_view(d.updated) { Some(date) => "updated on "@ + date, None => "never updated"@ },
            "+ "@ + decimal(d.new@.len()) + " new \u{b7} ~ "@ + decimal(d.edited@.len()) + " edited \u{b7} "@
                + decimal(d.removed as nat) + " removed"@,
        ] + (if d.new@.len() > 0 {
            seq![seq![], "new"@]
                + d.new@.take(if d.new@.len() < at_most { d.new@.len() as int } else { at_most as int }).map_values(
                |c: Change| new_row(c),
            ) + (if d.new@.len() > at_most {
                seq!["  \u{2026} "@ + decimal((d.new@.len() - at_most) as nat) + " more"@]
            } else {
                seq![]
            })
        } else {
            seq![]
        }) + (if d.edited@.len() > 0 {
            seq![seq![], "edited \u{2014} these are the ones that need an ear upstream"@]
                + d.edited@.map_values(|c: Change| edited_row(c))
        } else {
            seq![]
        })
    }
}

fn padded_exec(s: &Vec<char>, w: usize) -> (r: Vec<char>)
    ensures
        r@ == padded(s@, w as nat),
{
    let mut r = slice(s, 0, s.len());
    assert(r@ =~= s@);
    if s.len() < w {
        let mut k: usize = s.len();
        while k < w
            invariant
                s@.len() <= k <= w,
                r@ == s@ + spaces((k - s@.len()) as nat),
            decreases w - k,
        {
            r.push(' ');
            k = k + 1;
            assert(r@ =~= s@ + spaces((k - s@.len()) as nat));
        }
    }
    r
}

fn first_chars_exec(s: &str, n: usize) -> (r: Vec<char>)
    ensures
        r@ == first_chars(s@, n as nat),
{
    let c = chars_of(s);
    let m: usize = if c.len() < n { c.len() } else { n };
    slice(&c, 0, m)
}

fn new_row_exec(c: &Change) -> (r: Vec<char>)
    ensures
        r@ == new_row(*c),
{
    let mut b: Vec<char> = Vec::new();
    push_str(&mut b, "  + ");
    let name = padded_exec(&first_chars_exec(c.name.as_str(), 24), 24);
    push_all(&mut b, &name);
    push_str(&mut b, " ");
    let mut kind: Vec<char> = Vec::new();
    if c.generated {
        push_str(&mut kind, "generated");
    } else {
        push_str(&mut kind, "written");
    }
    assert(kind@ == (if c.generated { "generated"@ } else { "written"@ }));
    let k = padded_exec(&kind, 10);
    push_all(&mut b, &k);
    push_str(&mut b, " ");
    push_str(&mut b, c.summary.as_str());
    b
}

fn edited_row_exec(c: &Change) -> (r: Vec<char>)
    ensures
        r@ == edited_row(*c),
{
    let mut b: Vec<char> = Vec::new();
    push_str(&mut b, "  ~ ");
    let name = padded_exec(&first_chars_exec(c.name.as_str(), 24), 24);
    push_all(&mut b, &name);
    push_str(&mut b, " +");
    push_count(&mut b, c.added);
    push_str(&mut b, " \u{2212}");
    push_count(&mut b, c.removed);
    push_str(&mut b, "  ");
    push_str(&mut b, c.sections.as_str());
    let nc = chars_of(c.note.as_str());
    if nc.len() > 0 {
        push_str(&mut b, " \u{2014} ");
        push_all(&mut b, &nc);
    }
    assert(b@ =~= edited_row(*c));
    b
}

fn push_row(rows: &mut Vec<String>, row: Vec<char>)
    ensures
        strings(final(rows)@) == strings(old(rows)@).push(row@),
{
    let ghost before = rows@;
    let s = string_of(&row);
    rows.push(s);
    assert(strings(rows@) =~= strings(before).push(row@));
}

fn push_row_str(rows: &mut Vec<String>, row: &str)
    ensures
        strings(final(rows)@) == strings(old(rows)@).push(row@),
{
    push_row(rows, chars_of(row));
}

impl Diff {
    /// The overlay of `Cd`: the count and the date, the new cards, the
    /// edited ones — the cards only.
    #[verifier::rlimit(40)]
    pub fn lines(&self, at_most: usize) -> (r: Vec<String>)
        requires
            self.new@.len() + self.edited@.len() <= usize::MAX,
        ensures
            strings(r@) == diff_lines(*self, at_most as nat),
    {
        let mut rows: Vec<String> = Vec::new();
        if self.is_empty() {
            let mut l: Vec<char> = Vec::new();
            push_str(&mut l, "nothing beyond ");
            push_str(&mut l, self.base.as_str());
            push_str(&mut l, " \u{2014} the catalog is the reference's");
            push_row(&mut rows, l);
            assert(strings(rows@) =~= diff_lines(*self, at_most as nat));
            return rows;
        }
        let mut first: Vec<char> = Vec::new();
        push_count(&mut first, self.new.len() + self.edited.len());
        push_str(&mut first, " card(s) beyond the reference \u{b7} ");
        match &self.updated {
            Some(date) => {
                push_str(&mut first, "updated on ");
                push_str(&mut first, date.as_str());
            },
            None => {
                push_str(&mut first, "never updated");
            },
        }
        assert(first@ =~= decimal(self.new@.len() + self.edited@.len()) + " card(s) beyond the reference \u{b7} "@
            + match opt_view(self.updated) { Some(date) => "updated on "@ + date, None => "never updated"@ });
        assert(strings(rows@) =~= seq![]);
        push_row(&mut rows, first);
        let mut second: Vec<char> = Vec::new();
        push_str(&mut second, "+ ");
        push_count(&mut second, self.new.len());
        push_str(&mut second, " new \u{b7} ~ ");
        push_count(&mut second, self.edited.len());
        push_str(&mut second, " edited \u{b7} ");
        push_count(&mut second, self.removed);
        push_str(&mut second, " removed");
        assert(second@ =~= "+ "@ + decimal(self.new@.len()) + " new \u{b7} ~ "@ + decimal(self.edited@.len())
            + " edited \u{b7} "@ + decimal(self.removed as nat) + " removed"@);
        push_row(&mut rows, second);
        let ghost head = strings(rows@);
        assert(head =~= seq![
            decimal(self.new@.len() + self.edited@.len()) + " card(s) beyond the reference \u{b7} "@
                + match opt_view(self.updated) { Some(date) => "updated on "@ + date, None => "never updated"@ },
            "+ "@ + decimal(self.new@.len()) + " new \u{b7} ~ "@ + decimal(self.edited@.len()) + " edited \u{b7} "@
                + decimal(self.removed as nat) + " removed"@,
        ]);
        if self.new.len() > 0 {
            push_row(&mut rows, Vec::new());
            push_row_str(&mut rows, "new");
            let ghost start = strings(rows@);
            let n: usize = if self.new.len() < at_most { self.new.len() } else { at_most };
            let mut i: usize = 0;
            while i < n
                invariant
                    i <= n <= self.new@.len(),
                    strings(rows@) == start + self.new@.take(i as int).map_values(|c: Change| new_row(c)),
                decreases n - i,
            {
                push_row(&mut rows, new_row_exec(&self.new[i]));
                assert(self.new@.take(i + 1) =~= self.new@.take(i as int).push(self.new@[i as int]));
                assert(strings(rows@) =~= start + self.new@.take(i + 1).map_values(|c: Change| new_row(c)));
                i = i + 1;
            }
            if self.new.len() > at_most {
                let mut more: Vec<char> = Vec::new();
                push_str(&mut more, "  \u{2026} ");
                push_count(&mut more, self.new.len() - at_most);
                push_str(&mut more, " more");
                push_row(&mut rows, more);
            }
        }
        let ghost mid = strings(rows@);
        let ghost am = at_most as nat;
        assert(mid =~= head + (if self.new@.len() > 0 {
            seq![seq![], "new"@]
                + self.new@.take(if self.new@.len() < am { self.new@.len() as int } else { am as int }).map_values(
                |c: Change| new_row(c),
            ) + (if self.new@.len() > am {
                seq!["  \u{2026} "@ + decimal((self.new@.len() - am) as nat) + " more"@]
            } else {
                seq![]
            })
        } else {
            seq![]
        }));
        if self.edited.len() > 0 {
            push_row(&mut rows, Vec::new());
            push_row_str(&mut rows, "edited \u{2014} these are the ones that need an ear upstream");
            let ghost start = strings(rows@);
            let mut i: usize = 0;
            while i < self.edited.len()
                invariant
                    i <= self.edited@.len(),
                    strings(rows@) == start + self.edited@.take(i as int).map_values(|c: Change| edited_row(c)),
                decreases self.edited@.len() - i,
            {
                push_row(&mut rows, edited_row_exec(&self.edited[i]));
                assert(self.edited@.take(i + 1) =~= self.edited@.take(i as int).push(self.edited@[i as int]));
                assert(strings(rows@) =~= start + self.edited@.take(i + 1).map_values(|c: Change| edited_row(c)));
                i = i + 1;
            }
            assert(self.edited@.take(i as int) =~= self.edited@);
        }
        assert(strings(rows@) =~= mid + (if self.edited@.len() > 0 {
            seq![seq![], "edited \u{2014} these are the ones that need an ear upstream"@]
                + self.edited@.map_values(|c: Change| edited_row(c))
        } else {
            seq![]
        }));
        assert(strings(rows@) =~= diff_lines(*self, at_most as nat));
        rows
    }
}

// ---------------------------------------------------------------------------
// The state in one line.

pub struct Status {
    pub origin: Option<String>,
    pub upstream: Option<String>,
    pub local: bool,
    pub ahead: usize,
    pub behind: usize,
    /// The date of the last update, if any.
    pub updated: Option<String>,
    pub cards: usize,
    /// Cards beyond the reference (new ones).
    pub extra: usize,
    /// A merge is in progress — stopped on cards, waiting for git.
    pub merging: bool,
    /// A stopped update waits to be finished.
    pub pending: bool,
}

pub open spec fn remote_line(st: Status) -> Seq<char> {
    if st.local {
        "\u{21c5} local \u{2014} no fork, the learned commits and stays here \u{b7} :catalog fork <url> to leave"@
    } else {
        match opt_view(st.origin) {
            Some(o) => "\u{21c5} "@ + o + " \u{b7} "@ + decimal(st.ahead as nat) + " ahead \u{b7} "@
                + decimal(st.behind as nat) + " behind \u{b7} "@ + match opt_view(st.updated) {
                Some(date) => "updated from the reference on "@ + date,
                None => "never updated from the reference"@,
            },
            None => "\u{21c5} no remote \u{2014} the learned commits and stays here"@,
        }
    }
}

pub open spec fn origin_line(st: Status) -> Seq<char> {
    "  origin    "@ + match opt_view(st.origin) {
        Some(o) => if st.local { o + " \u{2014} the reference, read only"@ } else {
            o + " \u{2014} the learned is pushed there every ten minutes"@
        },
        None => "none"@,
    }
}

pub open spec fn upstream_line(st: Status) -> Seq<char> {
    "  upstream  "@ + match opt_view(st.upstream) {
        Some(u) => u,
        None => if st.local { "origin is the reference"@ } else { "none"@ },
    }
}

/// The one line of `:catalog`, and the lines under it.
pub open spec fn status_lines(st: Status) -> Seq<Seq<char>> {
    (if st.merging || st.pending {
        seq!["\u{2298} an update is stopped on cards \u{2014} git add, git commit, then :catalog to resume"@]
    } else {
        seq![]
    }) + seq![
        remote_line(st),
        seq![],
        origin_line(st),
        upstream_line(st),
        "  cards     "@ + decimal(st.cards as nat) + " \u{2014} "@ + decimal(st.extra as nat) + " beyond the reference"@,
        seq![],
        "  Cd the detail \u{b7} Cp propose \u{b7} Cu update"@,
    ]
}

impl Status {
    /// The one line of `:catalog`, and the lines under it.
    pub fn lines(&self) -> (r: Vec<String>)
        ensures
            strings(r@) == status_lines(*self),
    {
        let mut rows: Vec<String> = Vec::new();
        assert(strings(rows@) =~= seq![]);
        if self.merging || self.pending {
            push_row_str(&mut rows, "\u{2298} an update is stopped on cards \u{2014} git add, git commit, then :catalog to resume");
        }
        let ghost top = strings(rows@);
        let mut remote: Vec<char> = Vec::new();
        if self.local {
            push_str(&mut remote, "\u{21c5} local \u{2014} no fork, the learned commits and stays here \u{b7} :catalog fork <url> to leave");
        } else {
            match &self.origin {
                Some(o) => {
                    push_str(&mut remote, "\u{21c5} ");
                    push_str(&mut remote, o.as_str());
                    push_str(&mut remote, " \u{b7} ");
                    push_count(&mut remote, self.ahead);
                    push_str(&mut remote, " ahead \u{b7} ");
                    push_count(&mut remote, self.behind);
                    push_str(&mut remote, " behind \u{b7} ");
                    match &self.updated {
                        Some(date) => {
                            push_str(&mut remote, "updated from the reference on ");
                            push_str(&mut remote, date.as_str());
                        },
                        None => {
                            push_str(&mut remote, "never updated from the reference");
                        },
                    }
                },
                None => {
                    push_str(&mut remote, "\u{21c5} no remote \u{2014} the learned commits and stays here");
                },
            }
        }
        assert(remote@ =~= remote_line(*self));
        push_row(&mut rows, remote);
        push_row(&mut rows, Vec::new());
        let mut origin: Vec<char> = Vec::new();
        push_str(&mut origin, "  origin    ");
        match &self.origin {
            Some(o) => {
                push_str(&mut origin, o.as_str());
                if self.local {
                    push_str(&mut origin, " \u{2014} the reference, read only");
                } else {
                    push_str(&mut origin, " \u{2014} the learned is pushed there every ten minutes");
                }
            },
            None => {
                push_str(&mut origin, "none");
            },
        }
        assert(origin@ =~= origin_line(*self));
        push_row(&mut rows, origin);
        let mut up: Vec<char> = Vec::new();
        push_str(&mut up, "  upstream  ");
        match &self.upstream {
            Some(u) => {
                push_str(&mut up, u.as_str());
            },
            None => {
                if self.local {
                    push_str(&mut up, "origin is the reference");
                } else {
                    push_str(&mut up, "none");
                }
            },
        }
        assert(up@ =~= upstream_line(*self));
        push_row(&mut rows, up);
        let mut cards: Vec<char> = Vec::new();
        push_str(&mut cards, "  cards     ");
        push_count(&mut cards, self.cards);
        push_str(&mut cards, " \u{2014} ");
        push_count(&mut cards, self.extra);
        push_str(&mut cards, " beyond the reference");
        push_row(&mut rows, cards);
        push_row(&mut rows, Vec::new());
        push_row_str(&mut rows, "  Cd the detail \u{b7} Cp propose \u{b7} Cu update");
        assert(strings(rows@) =~= status_lines(*self));
        rows
    }
}

// ---------------------------------------------------------------------------
// Proposing, updating.

pub struct Proposal {
    pub title: String,
    pub body: String,
    pub count: usize,
    /// `owner:proposal` — the head of the pull request.
    pub head: String,
    /// `owner/repo` — the reference.
    pub upstream: String,
    /// The pull request already open on this branch, updated by the push.
    pub existing: Option<String>,
    /// `gh` will create it on `y`; otherwise the browser opened already.
    pub through_gh: bool,
    /// The gh account, when `gh` is there — said on the confirmation.
    pub account: Option<String>,
}

pub struct Update {
    /// Cards added or changed by the reference.
    pub cards: usize,
    /// The merge stopped on these cards: (slug, what each side changed).
    pub conflicts: Vec<(String, String)>,
    pub word: String,
}

/// The head of the proposal: the fork's owner and the proposal branch.
pub open spec fn proposal_head_of(origin_url: Seq<char>) -> Seq<char> {
    let repo = short_repo_of(origin_url);
    repo.take(crate::text::piece_end(repo, '/', 0)) + ":proposal"@
}

pub fn proposal_head(origin_url: &str) -> (r: String)
    ensures
        r@ == proposal_head_of(origin_url@),
{
    let repo = chars_of(short_repo(origin_url).as_str());
    let mut e: usize = 0;
    while e < repo.len() && repo[e] != '/'
        invariant
            e <= repo@.len(),
            piece_end(repo@, '/', 0) == piece_end(repo@, '/', e as int),
        decreases repo@.len() - e,
    {
        e = e + 1;
    }
    let mut h = slice(&repo, 0, e);
    push_str(&mut h, ":proposal");
    string_of(&h)
}

/// Who settles a path a merge stopped on.
pub enum Side {
    /// Theirs: the vectors are regenerated anyway, the tooling is the
    /// reference's.
    Theirs,
    /// Ours: the learned never goes upstream.
    Ours,
    /// A card: git gets the hand.
    Card,
}

pub open spec fn side_of(path: Seq<char>) -> Side {
    if "vectors/"@.is_prefix_of(path) || "tools/"@.is_prefix_of(path) || "README"@.is_prefix_of(path)
        || path == "CONTRIBUTING.md"@ {
        Side::Theirs
    } else if "learned/"@.is_prefix_of(path) {
        Side::Ours
    } else {
        Side::Card
    }
}

/// What resolves itself in a stopped merge, and what waits for a hand.
pub fn conflict_side(path: &str) -> (r: Side)
    ensures
        r == side_of(path@),
{
    let p = chars_of(path);
    if prefix(&p, "vectors/") || prefix(&p, "tools/") || prefix(&p, "README") || same_str(path, "CONTRIBUTING.md") {
        Side::Theirs
    } else if prefix(&p, "learned/") {
        Side::Ours
    } else {
        Side::Card
    }
}

pub open spec fn described(sections: Seq<Seq<char>>) -> Seq<char> {
    if sections.len() == 0 { "the same lines"@ } else { join(sections, ", "@) }
}

/// What each side changed on a card, said in a sentence, from the sections
/// each side's diff touches.
pub fn conflict_reason(upstream: &Vec<String>, yours: &Vec<String>) -> (r: String)
    ensures
        r@ == "upstream changed the "@ + described(strings(upstream@)) + " \u{b7} you changed the "@
            + described(strings(yours@)),
{
    let mut b: Vec<char> = Vec::new();
    push_str(&mut b, "upstream changed the ");
    let u = describe_exec(upstream);
    push_all(&mut b, &u);
    push_str(&mut b, " \u{b7} you changed the ");
    let y = describe_exec(yours);
    push_all(&mut b, &y);
    string_of(&b)
}

fn describe_exec(sections: &Vec<String>) -> (r: Vec<char>)
    ensures
        r@ == described(strings(sections@)),
{
    if sections.len() == 0 {
        chars_of("the same lines")
    } else {
        let mut parts: Vec<Vec<char>> = Vec::new();
        let mut i: usize = 0;
        while i < sections.len()
            invariant
                i <= sections@.len(),
                views(parts@) == strings(sections@).take(i as int),
            decreases sections@.len() - i,
        {
            let ghost before = parts@;
            let piece = chars_of(sections[i].as_str());
            parts.push(piece);
            assert(views(parts@) =~= views(before).push(piece@));
            assert(strings(sections@).take(i + 1) =~= strings(sections@).take(i as int).push(sections@[i as int]@));
            assert(views(parts@) =~= strings(sections@).take(i + 1));
            i = i + 1;
        }
        assert(strings(sections@).take(i as int) =~= strings(sections@));
        let mut sep: Vec<char> = Vec::new();
        push_str(&mut sep, ", ");
        join_of(&parts, &sep)
    }
}

/// What an update says once the merge is done: nothing new, or how many
/// cards came and whether the index followed.
pub open spec fn update_word_of(cards: nat, regenerated: bool, caveat: Seq<char>) -> Seq<char> {
    if cards == 0 {
        "up to date with the reference"@
    } else if regenerated {
        decimal(cards) + " card(s) from the reference \u{b7} index regenerated"@
    } else {
        decimal(cards) + " card(s) from the reference"@ + caveat
    }
}

pub fn update_word(cards: usize, regenerated: bool, caveat: &str) -> (r: String)
    ensures
        r@ == update_word_of(cards as nat, regenerated, caveat@),
{
    if cards == 0 {
        String::from_str("up to date with the reference")
    } else {
        let mut b: Vec<char> = Vec::new();
        push_count(&mut b, cards);
        if regenerated {
            push_str(&mut b, " card(s) from the reference \u{b7} index regenerated");
        } else {
            push_str(&mut b, " card(s) from the reference");
            push_str(&mut b, caveat);
        }
        string_of(&b)
    }
}

/// An index that could not be regenerated is said, never fatal.
pub fn index_caveat(why: &str) -> (r: String)
    ensures
        r@ == " \u{b7} index not regenerated ("@ + why@ + ") \u{2014} forkstify vectors will catch up"@,
{
    let mut b: Vec<char> = Vec::new();
    push_str(&mut b, " \u{b7} index not regenerated (");
    push_str(&mut b, why);
    push_str(&mut b, ") \u{2014} forkstify vectors will catch up");
    string_of(&b)
}

/// What `:catalog fork <url>` says once done.
pub fn forked_word(url: &str) -> (r: String)
    ensures
        r@ == "\u{21c5} fork "@ + short_repo_of(url@) + " \u{2014} the learned will be pushed there from now on"@,
{
    let mut b: Vec<char> = Vec::new();
    push_str(&mut b, "\u{21c5} fork ");
    push_str(&mut b, short_repo(url).as_str());
    push_str(&mut b, " \u{2014} the learned will be pushed there from now on");
    string_of(&b)
}

// ---------------------------------------------------------------------------
// Reading what git prints.

pub open spec fn count_or_zero(s: Seq<char>) -> nat {
    match usize_of(s) { Some(v) => v, None => 0 }
}

/// The lines added and removed that `git diff --numstat` prints for one
/// file: what is not a number counts for nothing.
pub open spec fn numstat_of(text: Seq<char>) -> (nat, nat) {
    let ps = crate::text::split(text, '\t');
    (count_or_zero(ps[0]), if ps.len() > 1 { count_or_zero(ps[1]) } else { 0 })
}

proof fn lemma_split_nonempty(s: Seq<char>, sep: char)
    ensures
        crate::text::split(s, sep).len() >= 1,
{
    lemma_piece_end(s, sep, 0);
}

fn count_or_zero_exec(s: &Vec<char>) -> (r: usize)
    ensures
        r == count_or_zero(s@),
{
    match parse_usize(s) {
        Some(v) => v,
        None => 0,
    }
}

pub fn numstat_counts(numstat: &str) -> (r: (usize, usize))
    ensures
        (r.0 as nat, r.1 as nat) == numstat_of(numstat@),
{
    let ps = crate::text::split_of(&chars_of(numstat), '\t');
    proof { lemma_split_nonempty(numstat@, '\t'); }
    let added = count_or_zero_exec(&ps[0]);
    let removed = if ps.len() > 1 { count_or_zero_exec(&ps[1]) } else { 0 };
    (added, removed)
}

/// The words of `s`: its runs of characters other than white space.
pub open spec fn tokens(s: Seq<char>) -> Seq<Seq<char>>
    decreases s.len(),
{
    if s.len() == 0 {
        seq![]
    } else {
        let t = tokens(s.drop_last());
        let c = s.last();
        if crate::text::is_space(c) {
            t
        } else if s.len() > 1 && !crate::text::is_space(s[s.len() - 2]) && t.len() > 0 {
            t.update(t.len() - 1, t.last().push(c))
        } else {
            t.push(seq![c])
        }
    }
}

/// How far ahead of the reference and behind it, from what `git rev-list
/// --left-right --count` prints: both numbers, or nothing known.
pub open spec fn ahead_behind_of(text: Seq<char>) -> (nat, nat) {
    let t = tokens(text);
    if t.len() >= 2 && usize_of(t[0]) is Some && usize_of(t[1]) is Some {
        (usize_of(t[0])->0, usize_of(t[1])->0)
    } else {
        (0, 0)
    }
}

/// The words of `c`, as `str::split_whitespace` cuts them.
pub fn words_of(c: &Vec<char>) -> (toks: Vec<Vec<char>>)
    ensures
        views(toks@) == tokens(c@),
{
    let mut toks: Vec<Vec<char>> = Vec::new();
    let mut i: usize = 0;
    while i < c.len()
        invariant
            i <= c@.len(),
            views(toks@) == tokens(c@.take(i as int)),
        decreases c@.len() - i,
    {
        let ch = c[i];
        let ghost t = c@.take(i as int);
        proof {
            assert(c@.take(i + 1).drop_last() =~= t);
            assert(c@.take(i + 1).last() == ch);
        }
        if !crate::text::is_space_exec(ch) {
            if i > 0 && !crate::text::is_space_exec(c[i - 1]) && toks.len() > 0 {
                assert(c@.take(i + 1)[i - 1] == c@[i - 1]);
                let last = toks.len() - 1;
                let ghost before = views(toks@);
                let mut w = toks.pop().unwrap();
                w.push(ch);
                toks.push(w);
                assert(views(toks@) =~= before.update(before.len() - 1, before.last().push(ch)));
            } else {
                proof {
                    if i > 0 {
                        assert(c@.take(i + 1)[i - 1] == c@[i - 1]);
                    }
                }
                let ghost before = views(toks@);
                let mut w: Vec<char> = Vec::new();
                w.push(ch);
                toks.push(w);
                assert(views(toks@) =~= before.push(seq![ch]));
            }
        }
        i = i + 1;
    }
    assert(c@.take(i as int) =~= c@);
    toks
}

pub fn ahead_behind(text: &str) -> (r: (usize, usize))
    ensures
        (r.0 as nat, r.1 as nat) == ahead_behind_of(text@),
{
    let toks = words_of(&chars_of(text));
    if toks.len() >= 2 {
        match (parse_usize(&toks[0]), parse_usize(&toks[1])) {
            (Some(a), Some(b)) => (a, b),
            _ => (0, 0),
        }
    } else {
        (0, 0)
    }
}

/// What a row of `git diff --name-status` says of a card.
pub enum RowKind {
    Added,
    Deleted,
    Changed,
}

pub open spec fn row_of(row: Seq<char>) -> Option<(RowKind, Seq<char>)> {
    let ps = crate::text::split(row, '\t');
    if ps.len() >= 2 {
        let kind = ps[0];
        Some((
            if kind.len() > 0 && kind[0] == 'A' { RowKind::Added } else if kind.len() > 0 && kind[0] == 'D' {
                RowKind::Deleted
            } else {
                RowKind::Changed
            },
            ps[1],
        ))
    } else {
        None
    }
}

pub fn parse_row(row: &str) -> (r: Option<(RowKind, String)>)
    ensures
        match r {
            Some((k, p)) => row_of(row@) == Some((k, p@)),
            None => row_of(row@) is None,
        },
{
    let ps = crate::text::split_of(&chars_of(row), '\t');
    if ps.len() < 2 {
        return None;
    }
    let kind = &ps[0];
    let k = if kind.len() > 0 && kind[0] == 'A' {
        RowKind::Added
    } else if kind.len() > 0 && kind[0] == 'D' {
        RowKind::Deleted
    } else {
        RowKind::Changed
    };
    Some((k, string_of(&ps[1])))
}

/// A card's name, or its slug spelled back out when it has none.
pub open spec fn name_or_pretty(name: Seq<char>, slug: Seq<char>) -> Seq<char> {
    if name.len() == 0 { crate::generate::pretty_of(slug) } else { name }
}

/// A new card of the diff, from its text.
pub fn new_change(slug: String, text: &str) -> (c: Change)
    ensures
        c.slug@ == slug@,
        c.name@ == name_or_pretty(card_summary_of(text@).0, slug@),
        c.generated == card_summary_of(text@).1,
        c.summary@ == card_summary_of(text@).2,
        c.added == 0 && c.removed == 0 && c.sections@.len() == 0 && c.note@.len() == 0,
{
    let (name, generated, summary) = card_summary(text);
    let nc = chars_of(name.as_str());
    let name = if nc.len() == 0 { crate::generate::pretty(slug.as_str()) } else { name };
    Change {
        slug,
        name,
        generated,
        summary,
        added: 0,
        removed: 0,
        sections: String::new(),
        note: String::new(),
    }
}

/// An edited card of the diff: the counts `git diff --numstat` printed, the
/// sections and the first note its diff touches, and its name from its text
/// when it could be read.
pub fn edited_change(slug: String, numstat: &str, diff: &str, text: Option<&str>) -> (c: Change)
    ensures
        c.slug@ == slug@,
        c.name@ == name_or_pretty(match text { Some(t) => card_summary_of(t@).0, None => seq![] }, slug@),
        !c.generated && c.summary@.len() == 0,
        (c.added as nat, c.removed as nat) == numstat_of(numstat@),
        c.sections@ == join(sections_acc(lines(diff@)).0, ", "@),
        c.note@ == (if sections_acc(lines(diff@)).1.len() > 0 { sections_acc(lines(diff@)).1[0] } else { seq![] }),
{
    let (added, removed) = numstat_counts(numstat);
    let (sections, notes) = sections_of(diff);
    let name = match text {
        Some(t) => card_summary(t).0,
        None => String::new(),
    };
    let nc = chars_of(name.as_str());
    let name = if nc.len() == 0 { crate::generate::pretty(slug.as_str()) } else { name };
    let mut parts: Vec<Vec<char>> = Vec::new();
    let mut i: usize = 0;
    while i < sections.len()
        invariant
            i <= sections@.len(),
            views(parts@) == strings(sections@).take(i as int),
        decreases sections@.len() - i,
    {
        let ghost before = parts@;
        let piece = chars_of(sections[i].as_str());
        parts.push(piece);
        assert(views(parts@) =~= views(before).push(piece@));
        assert(strings(sections@).take(i + 1) =~= strings(sections@).take(i as int).push(sections@[i as int]@));
        i = i + 1;
    }
    assert(strings(sections@).take(i as int) =~= strings(sections@));
    let mut sep: Vec<char> = Vec::new();
    push_str(&mut sep, ", ");
    let joined = string_of(&join_of(&parts, &sep));
    let note = if notes.len() > 0 { notes[0].clone() } else { String::new() };
    Change {
        slug,
        name,
        generated: false,
        summary: String::new(),
        added,
        removed,
        sections: joined,
        note,
    }
}

/// Where a change goes among changes sorted by name: after every one whose
/// name is not above its own.
pub open spec fn first_above(sorted: Seq<Change>, name: Seq<char>, i: int) -> int
    decreases sorted.len() - i,
{
    if i < 0 || i >= sorted.len() || lex_lt(name, sorted[i].name@) { i } else { first_above(sorted, name, i + 1) }
}

/// The changes sorted by name; equal names keep their order.
pub open spec fn by_name(v: Seq<Change>) -> Seq<Change>
    decreases v.len(),
{
    if v.len() == 0 {
        seq![]
    } else {
        let s = by_name(v.drop_last());
        s.insert(first_above(s, v.last().name@, 0), v.last())
    }
}

proof fn lemma_first_above(sorted: Seq<Change>, name: Seq<char>, i: int)
    requires
        0 <= i <= sorted.len(),
    ensures
        i <= first_above(sorted, name, i) <= sorted.len(),
    decreases sorted.len() - i,
{
    if i < sorted.len() && !lex_lt(name, sorted[i].name@) {
        lemma_first_above(sorted, name, i + 1);
    }
}

pub fn sort_by_name(v: Vec<Change>) -> (r: Vec<Change>)
    ensures
        r@ == by_name(v@),
{
    let mut v = v;
    let total = v.len();
    let ghost all = v@;
    let mut sorted: Vec<Change> = Vec::new();
    let mut taken: usize = 0;
    while v.len() > 0
        invariant
            taken + v@.len() == all.len(),
            all.len() == total,
            v@ == all.skip(taken as int),
            sorted@ == by_name(all.take(taken as int)),
            sorted@.len() == taken,
        decreases v@.len(),
    {
        let c = v.remove(0);
        let nc = chars_of(c.name.as_str());
        let ghost s0 = sorted@;
        proof {
            assert(all.take(taken + 1).drop_last() =~= all.take(taken as int));
            assert(all.take(taken + 1).last() == c);
            lemma_first_above(s0, c.name@, 0);
        }
        let mut j: usize = 0;
        while j < sorted.len() && !lex_less(&nc, &chars_of(sorted[j].name.as_str()))
            invariant
                j <= sorted@.len(),
                s0 == sorted@,
                nc@ == c.name@,
                first_above(s0, c.name@, 0) == first_above(s0, c.name@, j as int),
            decreases sorted@.len() - j,
        {
            j = j + 1;
        }
        sorted.insert(j, c);
        taken = taken + 1;
        assert(v@ =~= all.skip(taken as int));
    }
    assert(all.take(taken as int) =~= all);
    sorted
}

/// The diff, its new and edited cards sorted by name.
pub fn finish_diff(base: String, new: Vec<Change>, edited: Vec<Change>, removed: usize, updated: Option<String>) -> (d: Diff)
    ensures
        d.base@ == base@,
        d.new@ == by_name(new@),
        d.edited@ == by_name(edited@),
        d.removed == removed,
        d.updated == updated,
{
    Diff { base, new: sort_by_name(new), edited: sort_by_name(edited), removed, updated }
}

// ---------------------------------------------------------------------------
// The order of strings, and the sorted sets it keeps.

pub proof fn lemma_lex_irreflexive(a: Seq<char>)
    ensures
        !lex_lt(a, a),
    decreases a.len(),
{
    if a.len() > 0 {
        lemma_lex_irreflexive(a.drop_first());
    }
}

pub proof fn lemma_lex_transitive(a: Seq<char>, b: Seq<char>, c: Seq<char>)
    requires
        lex_lt(a, b),
        lex_lt(b, c),
    ensures
        lex_lt(a, c),
    decreases a.len(),
{
    if a.len() > 0 && b.len() > 0 && c.len() > 0 && a[0] == b[0] && b[0] == c[0] {
        lemma_lex_transitive(a.drop_first(), b.drop_first(), c.drop_first());
    }
}

pub proof fn lemma_lex_total(a: Seq<char>, b: Seq<char>)
    requires
        a != b,
    ensures
        lex_lt(a, b) || lex_lt(b, a),
    decreases a.len(),
{
    if a.len() == 0 && b.len() == 0 {
        assert(a =~= b);
    } else if a.len() > 0 && b.len() > 0 && a[0] == b[0] {
        if a.drop_first() =~= b.drop_first() {
            assert(a =~= seq![a[0]] + a.drop_first());
            assert(b =~= seq![b[0]] + b.drop_first());
            assert(a =~= b);
        } else {
            lemma_lex_total(a.drop_first(), b.drop_first());
        }
    }
}

/// Each entry before the next, so each once.
pub open spec fn strictly_sorted(v: Seq<Seq<char>>) -> bool {
    forall|i: int, j: int| 0 <= i < j < v.len() ==> lex_lt(#[trigger] v[i], #[trigger] v[j])
}

pub proof fn lemma_insert_at_below(v: Seq<Seq<char>>, x: Seq<char>, i: int)
    requires
        0 <= i <= v.len(),
    ensures
        forall|k: int| i <= k < insert_at(v, x, i) ==> lex_lt(#[trigger] v[k], x),
        insert_at(v, x, i) < v.len() ==> !lex_lt(v[insert_at(v, x, i)], x),
    decreases v.len() - i,
{
    lemma_insert_at(v, x, i);
    if i < v.len() && lex_lt(v[i], x) {
        lemma_insert_at_below(v, x, i + 1);
    }
}

/// Putting `x` in a sorted set keeps it sorted, and adds `x` and nothing
/// else.
pub proof fn set_insert_keeps_sorted(v: Seq<Seq<char>>, x: Seq<char>)
    requires
        strictly_sorted(v),
    ensures
        strictly_sorted(set_insert(v, x)),
        forall|y: Seq<char>| set_insert(v, x).contains(y) <==> (v.contains(y) || y == x),
{
    let j = insert_at(v, x, 0);
    lemma_insert_at(v, x, 0);
    lemma_insert_at_below(v, x, 0);
    if 0 <= j < v.len() && v[j] == x {
        assert(set_insert(v, x) == v);
        assert forall|y: Seq<char>| set_insert(v, x).contains(y) <==> (v.contains(y) || y == x) by {
            if y == x {
                assert(v[j] == x);
            }
        }
    } else {
        let r = v.insert(j, x);
        assert(set_insert(v, x) == r);
        if j < v.len() {
            lemma_lex_total(v[j], x);
        }
        assert forall|a: int, b: int| 0 <= a < b < r.len() implies lex_lt(#[trigger] r[a], #[trigger] r[b]) by {
            if b < j {
                assert(r[a] == v[a] && r[b] == v[b]);
            } else if b == j {
                assert(r[b] == x && r[a] == v[a]);
            } else if a == j {
                assert(r[a] == x && r[b] == v[b - 1]);
                if b - 1 > j {
                    assert(lex_lt(v[j], v[b - 1]));
                    lemma_lex_transitive(x, v[j], v[b - 1]);
                }
            } else if a < j {
                assert(r[a] == v[a] && r[b] == v[b - 1]);
            } else {
                assert(r[a] == v[a - 1] && r[b] == v[b - 1]);
            }
        }
        assert forall|y: Seq<char>| r.contains(y) <==> (v.contains(y) || y == x) by {
            if r.contains(y) {
                let k = choose|k: int| 0 <= k < r.len() && r[k] == y;
                if k < j {
                    assert(v[k] == y);
                } else if k > j {
                    assert(v[k - 1] == y);
                }
            }
            if v.contains(y) {
                let k = choose|k: int| 0 <= k < v.len() && v[k] == y;
                if k < j {
                    assert(r[k] == y);
                } else {
                    assert(r[k + 1] == y);
                }
            }
            if y == x {
                assert(r[j] == x);
            }
        }
    }
}

/// The sections a diff touches come sorted, each once, and they are
/// exactly the sections its lines touch.
pub proof fn sections_are_a_sorted_set(ls: Seq<Seq<char>>)
    ensures
        strictly_sorted(sections_acc(ls).0),
        forall|x: Seq<char>| sections_acc(ls).0.contains(x) <==>
            exists|i: int| 0 <= i < ls.len() && line_section(#[trigger] ls[i]) == Some(x),
    decreases ls.len(),
{
    if ls.len() > 0 {
        let init = ls.drop_last();
        sections_are_a_sorted_set(init);
        let prev = sections_acc(init).0;
        match line_section(ls.last()) {
            Some(x) => {
                set_insert_keeps_sorted(prev, x);
            },
            None => {},
        }
        let cur = sections_acc(ls).0;
        assert(ls.drop_last() == init);
        assert(cur == match line_section(ls.last()) { Some(x) => set_insert(prev, x), None => prev });
        assert forall|y: Seq<char>| cur.contains(y) <==>
            exists|i: int| 0 <= i < ls.len() && line_section(#[trigger] ls[i]) == Some(y) by {
            let here = line_section(ls.last()) == Some(y);
            match line_section(ls.last()) {
                Some(x) => {
                    assert(cur == set_insert(prev, x));
                    assert(set_insert(prev, x).contains(y) <==> (prev.contains(y) || y == x));
                },
                None => {
                    assert(cur == prev);
                },
            }
            assert(cur.contains(y) <==> (prev.contains(y) || here));
            if exists|i: int| 0 <= i < ls.len() && line_section(#[trigger] ls[i]) == Some(y) {
                let i = choose|i: int| 0 <= i < ls.len() && line_section(#[trigger] ls[i]) == Some(y);
                if i < ls.len() - 1 {
                    assert(init[i] == ls[i]);
                    assert(prev.contains(y));
                } else {
                    assert(here);
                }
            }
            if prev.contains(y) {
                let i = choose|i: int| 0 <= i < init.len() && line_section(#[trigger] init[i]) == Some(y);
                assert(ls[i] == init[i]);
            }
            if here {
                assert(line_section(ls[ls.len() - 1]) == Some(y));
            }
        }
    }
}


// ---------------------------------------------------------------------------
// The decisions between the git commands of an update, a resume, a
// proposal and a fork.

/// Where `C u` starts: a catalog in local mode pulls (its reference is its
/// origin); a merge waiting is resumed; otherwise the reference is merged.
pub enum UpdateStart {
    Pull,
    Resume,
    Merge,
}

pub fn update_start(local: bool, merging: bool) -> (r: UpdateStart)
    ensures
        local ==> r is Pull,
        !local && merging ==> r is Resume,
        !local && !merging ==> r is Merge,
{
    if local {
        UpdateStart::Pull
    } else if merging {
        UpdateStart::Resume
    } else {
        UpdateStart::Merge
    }
}

/// The paths of a stopped merge that `side` settles, in order.
pub open spec fn paths_on(paths: Seq<Seq<char>>, side: Side) -> Seq<Seq<char>>
    decreases paths.len(),
{
    if paths.len() == 0 {
        seq![]
    } else {
        let rest = paths_on(paths.drop_last(), side);
        if side_of(paths.last()) == side { rest.push(paths.last()) } else { rest }
    }
}

/// What comes of a merge: done; failed with nothing unmerged (said as
/// `merge: why`); or stopped, its paths sorted by who settles them — when
/// no card is among them, the merge is committed, else git gets the hand.
pub enum MergeDecision {
    Finish,
    Failed(String),
    Resolve { theirs: Vec<String>, ours: Vec<String>, cards: Vec<String> },
}

fn side_is(path: &str, side: &Side) -> (r: bool)
    ensures
        r == (side_of(path@) == *side),
{
    match (conflict_side(path), side) {
        (Side::Theirs, Side::Theirs) => true,
        (Side::Ours, Side::Ours) => true,
        (Side::Card, Side::Card) => true,
        _ => false,
    }
}

fn paths_on_exec(paths: &Vec<String>, side: Side) -> (r: Vec<String>)
    ensures
        strings(r@) == paths_on(strings(paths@), side),
{
    let mut out: Vec<String> = Vec::new();
    let mut i: usize = 0;
    assert(strings(out@) =~= paths_on(strings(paths@).take(0), side));
    while i < paths.len()
        invariant
            i <= paths@.len(),
            strings(out@) == paths_on(strings(paths@).take(i as int), side),
        decreases paths@.len() - i,
    {
        proof {
            assert(strings(paths@).take(i + 1).drop_last() =~= strings(paths@).take(i as int));
            assert(strings(paths@).take(i + 1).last() == paths@[i as int]@);
        }
        if side_is(paths[i].as_str(), &side) {
            let ghost before = out@;
            out.push(paths[i].clone());
            assert(strings(out@) =~= strings(before).push(paths@[i as int]@));
        }
        i = i + 1;
    }
    assert(strings(paths@).take(i as int) =~= strings(paths@));
    out
}

/// What comes of a merge, from its failure if any and the paths git left
/// unmerged.
pub fn merge_decision(failure: Option<String>, unmerged: &Vec<String>) -> (r: MergeDecision)
    ensures
        failure is None ==> r is Finish,
        failure matches Some(why) ==> if unmerged@.len() == 0 {
            r matches MergeDecision::Failed(e) && e@ == "merge: "@ + why@
        } else {
            r matches MergeDecision::Resolve { theirs, ours, cards }
                && strings(theirs@) == paths_on(strings(unmerged@), Side::Theirs)
                && strings(ours@) == paths_on(strings(unmerged@), Side::Ours)
                && strings(cards@) == paths_on(strings(unmerged@), Side::Card)
        },
{
    match failure {
        None => MergeDecision::Finish,
        Some(why) => {
            if unmerged.len() == 0 {
                let mut b: Vec<char> = Vec::new();
                push_str(&mut b, "merge: ");
                push_str(&mut b, why.as_str());
                MergeDecision::Failed(string_of(&b))
            } else {
                MergeDecision::Resolve {
                    theirs: paths_on_exec(unmerged, Side::Theirs),
                    ours: paths_on_exec(unmerged, Side::Ours),
                    cards: paths_on_exec(unmerged, Side::Card),
                }
            }
        },
    }
}

/// `:catalog` while a merge waits: refused while cards are still unmerged.
pub fn resume_gate(unmerged: usize) -> (r: Option<String>)
    ensures
        unmerged == 0 ==> r is None,
        unmerged > 0 ==> (r matches Some(e) && e@ == decimal(unmerged as nat)
            + " card(s) still unmerged \u{2014} git add them once resolved"@),
{
    if unmerged == 0 {
        None
    } else {
        let mut b: Vec<char> = Vec::new();
        let d = decimal_of(unmerged as u64);
        push_all(&mut b, &d);
        push_str(&mut b, " card(s) still unmerged \u{2014} git add them once resolved");
        Some(string_of(&b))
    }
}

/// Where the resumed merge started, as the pending file remembers it; none
/// remembered, there is nothing to resume.
pub fn resume_from(pending: &str) -> (r: Result<String, String>)
    ensures
        trim(pending@).len() > 0 ==> (r matches Ok(b) && b@ == trim(pending@)),
        trim(pending@).len() == 0 ==> (r matches Err(e) && e@ == "nothing to resume"@),
{
    let t = trim_exec(&chars_of(pending));
    if t.len() == 0 {
        Err(String::from_str("nothing to resume"))
    } else {
        Ok(string_of(&t))
    }
}

/// What a proposal needs before anything is pushed: a fork (not the local
/// mode), its `upstream` and `origin` remotes' addresses.
pub fn propose_gate(local: bool, upstream: Option<String>, origin: Option<String>) -> (r: Result<(String, String), String>)
    ensures
        local ==> (r matches Err(e) && e@ == "local mode \u{2014} nothing to propose from: :catalog fork <url> first"@),
        !local && upstream is None ==> (r matches Err(e)
            && e@ == "no upstream remote \u{2014} this catalog is not a fork of the reference"@),
        !local && upstream is Some && origin is None ==> (r matches Err(e) && e@ == "no origin remote"@),
        !local && upstream is Some && origin is Some ==> r == Ok::<(String, String), String>((upstream->0, origin->0)),
{
    if local {
        return Err(String::from_str("local mode \u{2014} nothing to propose from: :catalog fork <url> first"));
    }
    match upstream {
        None => Err(String::from_str("no upstream remote \u{2014} this catalog is not a fork of the reference")),
        Some(u) => match origin {
            None => Err(String::from_str("no origin remote")),
            Some(o) => Ok((u, o)),
        },
    }
}

/// A diff with nothing beyond the reference proposes nothing.
pub fn propose_diff_gate(diff: &Diff) -> (r: Option<String>)
    ensures
        (diff.new@.len() == 0 && diff.edited@.len() == 0) ==> (r matches Some(e)
            && e@ == "nothing beyond the reference \u{2014} nothing to propose"@),
        !(diff.new@.len() == 0 && diff.edited@.len() == 0) ==> r is None,
{
    if diff.new.len() == 0 && diff.edited.len() == 0 {
        Some(String::from_str("nothing beyond the reference \u{2014} nothing to propose"))
    } else {
        None
    }
}

/// Without `gh`, and no pull request open already, the comparison page is
/// opened in the browser: one reads, one clicks.
pub fn opens_browser(through_gh: bool, existing: &Option<String>) -> (r: bool)
    ensures
        r == (!through_gh && existing is None),
{
    !through_gh && existing.is_none()
}

/// What `:catalog fork <url>` needs: the local mode, and the reference as
/// its origin. It says the remote to add as `upstream`, when there is none.
pub fn fork_gate(local: bool, origin: Option<String>, has_upstream: bool) -> (r: Result<Option<String>, String>)
    ensures
        !local ==> (r matches Err(e) && e@ == "this catalog is a fork already"@),
        local && origin is None ==> (r matches Err(e) && e@ == "no origin remote"@),
        local && origin is Some ==> r == Ok::<Option<String>, String>(if has_upstream { None } else { origin }),
{
    if !local {
        return Err(String::from_str("this catalog is a fork already"));
    }
    match origin {
        None => Err(String::from_str("no origin remote")),
        Some(o) => Ok(if has_upstream { None } else { Some(o) }),
    }
}

} // verus!
