//! Text as sequences of characters: what the card files, the key grammar
//! and the slugs are made of. Every operation here works on `Seq<char>` in
//! its contract; the indices are character positions.

use vstd::prelude::*;

verus! {

/// The characters of a string, in order.
pub fn chars_of(s: &str) -> (v: Vec<char>)
    ensures
        v@ == s@,
{
    let mut v: Vec<char> = Vec::new();
    for c in it: s.chars()
        invariant
            v@ == it.seq().take(it.index() as int),
            it.seq() == s@,
    {
        v.push(c);
    }
    v
}

/// A string made of these characters, in order.
#[verifier::external_body]
pub(crate) fn string_of(v: &Vec<char>) -> (s: String)
    ensures
        s@ == v@,
{
    String::from_iter(v.iter())
}

// ---------------------------------------------------------------------------
// Searching.

/// `p` stands in `s` at position `i`.
pub open spec fn occurs_at(s: Seq<char>, p: Seq<char>, i: int) -> bool {
    0 <= i && i + p.len() <= s.len() && s.subrange(i, i + p.len()) == p
}

/// The first position at or after `from` where `p` stands in `s`.
pub open spec fn find_from(s: Seq<char>, p: Seq<char>, from: int) -> Option<int>
    decreases s.len() + 1 - from,
{
    if from < 0 || from + p.len() > s.len() {
        None
    } else if occurs_at(s, p, from) {
        Some(from)
    } else {
        find_from(s, p, from + 1)
    }
}

/// The first position where `p` stands in `s`.
pub open spec fn find(s: Seq<char>, p: Seq<char>) -> Option<int> {
    find_from(s, p, 0)
}

/// `p` stands somewhere in `s`.
pub open spec fn contains(s: Seq<char>, p: Seq<char>) -> bool {
    find(s, p) is Some
}

/// The last position at or before `i` where `p` stands in `s`.
pub open spec fn rfind_upto(s: Seq<char>, p: Seq<char>, i: int) -> Option<int>
    decreases i + 1,
{
    if i < 0 {
        None
    } else if occurs_at(s, p, i) {
        Some(i)
    } else {
        rfind_upto(s, p, i - 1)
    }
}

/// The last position where `p` stands in `s`.
pub open spec fn rfind(s: Seq<char>, p: Seq<char>) -> Option<int> {
    rfind_upto(s, p, s.len() - p.len())
}

/// What `find_from` answers is an occurrence, and the first one.
pub proof fn lemma_find_from(s: Seq<char>, p: Seq<char>, from: int)
    requires
        from >= 0,
    ensures
        find_from(s, p, from) matches Some(i) ==> from <= i && occurs_at(s, p, i)
            && forall|j: int| from <= j < i ==> !occurs_at(s, p, j),
        find_from(s, p, from) is None ==> forall|j: int| from <= j ==> !occurs_at(s, p, j),
    decreases s.len() + 1 - from,
{
    if from + p.len() > s.len() {
    } else if occurs_at(s, p, from) {
    } else {
        lemma_find_from(s, p, from + 1);
    }
}

/// Does `p` stand in `s` at position `i`?
pub fn matches_at(s: &Vec<char>, p: &Vec<char>, i: usize) -> (r: bool)
    ensures
        r == occurs_at(s@, p@, i as int),
{
    if p.len() > s.len() || i > s.len() - p.len() {
        return false;
    }
    let mut k: usize = 0;
    while k < p.len()
        invariant
            i + p.len() <= s.len(),
            k <= p@.len(),
            forall|j: int| 0 <= j < k ==> s@[i + j] == p@[j],
        decreases p@.len() - k,
    {
        if s[i + k] != p[k] {
            assert(s@.subrange(i as int, i + p@.len())[k as int] != p@[k as int]);
            return false;
        }
        k = k + 1;
    }
    assert(s@.subrange(i as int, i + p@.len()) =~= p@);
    true
}

/// The first position at or after `from` where `p` stands in `s`.
pub fn find_in(s: &Vec<char>, p: &Vec<char>, from: usize) -> (r: Option<usize>)
    ensures
        r matches Some(i) ==> find_from(s@, p@, from as int) == Some(i as int),
        r is None ==> find_from(s@, p@, from as int) is None,
{
    if p.len() > s.len() {
        return None;
    }
    if p.len() == 0 {
        if from <= s.len() {
            assert(occurs_at(s@, p@, from as int)) by {
                assert(s@.subrange(from as int, from as int) =~= p@);
            }
            return Some(from);
        }
        return None;
    }
    let mut i = from;
    while i <= s.len() - p.len()
        invariant
            from <= i,
            1 <= p.len() <= s.len(),
            find_from(s@, p@, from as int) == find_from(s@, p@, i as int),
        decreases s@.len() - i,
    {
        if matches_at(s, p, i) {
            return Some(i);
        }
        i = i + 1;
    }
    None
}

/// The last position where `p` stands in `s`.
pub fn rfind_in(s: &Vec<char>, p: &Vec<char>) -> (r: Option<usize>)
    ensures
        r matches Some(i) ==> rfind(s@, p@) == Some(i as int),
        r is None ==> rfind(s@, p@) is None,
{
    if p.len() > s.len() {
        assert(rfind(s@, p@) is None);
        return None;
    }
    let mut i: usize = s.len() - p.len();
    loop
        invariant
            i + p@.len() <= s@.len(),
            rfind(s@, p@) == rfind_upto(s@, p@, i as int),
        decreases i,
    {
        if matches_at(s, p, i) {
            return Some(i);
        }
        if i == 0 {
            assert(rfind_upto(s@, p@, -1) is None);
            return None;
        }
        i = i - 1;
    }
}

/// Does `p` stand somewhere in `s`?
pub fn contains_in(s: &Vec<char>, p: &Vec<char>) -> (r: bool)
    ensures
        r == contains(s@, p@),
{
    find_in(s, p, 0).is_some()
}

/// `s` starts with `p`.
pub fn starts_with(s: &Vec<char>, p: &Vec<char>) -> (r: bool)
    ensures
        r == p@.is_prefix_of(s@),
{
    let r = matches_at(s, p, 0);
    assert(r == occurs_at(s@, p@, 0));
    proof {
        if r {
            assert(s@.subrange(0, p@.len() as int) == p@);
            assert forall|i: int| 0 <= i < p@.len() implies p@[i] == s@[i] by {
                assert(s@.subrange(0, p@.len() as int)[i] == s@[i]);
            }
        } else if p@.is_prefix_of(s@) {
            assert(s@.subrange(0, p@.len() as int) =~= p@);
        }
    }
    r
}

/// `s` with every leading repetition of `p` taken off, as
/// `str::trim_start_matches` does; an empty `p` takes nothing.
pub open spec fn strip_all(s: Seq<char>, p: Seq<char>) -> Seq<char>
    decreases s.len(),
{
    if p.len() > 0 && p.len() <= s.len() && s.take(p.len() as int) == p {
        strip_all(s.skip(p.len() as int), p)
    } else {
        s
    }
}

pub fn strip_all_exec(s: &Vec<char>, p: &Vec<char>) -> (r: Vec<char>)
    ensures
        r@ == strip_all(s@, p@),
{
    let n = s.len();
    let mut i: usize = 0;
    assert(s@.skip(0) =~= s@);
    while p.len() > 0 && matches_at(s, p, i)
        invariant
            i <= s@.len(),
            n == s@.len(),
            strip_all(s@.skip(i as int), p@) == strip_all(s@, p@),
        decreases s@.len() - i,
    {
        assert(occurs_at(s@, p@, i as int));
        assert(i + p@.len() <= n);
        proof {
            let t = s@.skip(i as int);
            assert(t.take(p@.len() as int) =~= s@.subrange(i as int, i + p@.len()));
            assert(t.skip(p@.len() as int) =~= s@.skip(i + p@.len()));
        }
        i = i + p.len();
    }
    proof {
        let t = s@.skip(i as int);
        if p@.len() > 0 && p@.len() <= t.len() && t.take(p@.len() as int) == p@ {
            assert(t.take(p@.len() as int) =~= s@.subrange(i as int, i + p@.len()));
        }
    }
    let r = slice(s, i, s.len());
    assert(r@ =~= s@.skip(i as int));
    r
}

/// `s` ends with `p`.
pub fn ends_with(s: &Vec<char>, p: &Vec<char>) -> (r: bool)
    ensures
        r == p@.is_suffix_of(s@),
{
    if p.len() > s.len() {
        return false;
    }
    let at = s.len() - p.len();
    let r = matches_at(s, p, at);
    proof {
        if r {
            assert(s@.subrange(at as int, s@.len() as int) == p@);
            assert forall|i: int| 0 <= i < p@.len() implies p@[i] == s@[s@.len() - p@.len() + i] by {
                assert(s@.subrange(at as int, s@.len() as int)[i] == s@[at + i]);
            }
        } else if p@.is_suffix_of(s@) {
            assert(s@.subrange(at as int, s@.len() as int) =~= p@);
        }
    }
    r
}

// ---------------------------------------------------------------------------
// Building.

/// The characters `from..to` of `s`.
pub fn slice(s: &Vec<char>, from: usize, to: usize) -> (r: Vec<char>)
    requires
        from <= to <= s@.len(),
    ensures
        r@ == s@.subrange(from as int, to as int),
{
    let mut r: Vec<char> = Vec::new();
    let mut i = from;
    while i < to
        invariant
            from <= i <= to <= s@.len(),
            r@ == s@.subrange(from as int, i as int),
        decreases to - i,
    {
        r.push(s[i]);
        i = i + 1;
        assert(r@ =~= s@.subrange(from as int, i as int));
    }
    r
}

/// Append the characters of `t` to `v`.
pub fn push_all(v: &mut Vec<char>, t: &Vec<char>)
    ensures
        final(v)@ == old(v)@ + t@,
{
    let mut i: usize = 0;
    while i < t.len()
        invariant
            i <= t@.len(),
            v@ == old(v)@ + t@.take(i as int),
        decreases t@.len() - i,
    {
        v.push(t[i]);
        i = i + 1;
        assert(v@ =~= old(v)@ + t@.take(i as int));
    }
    assert(t@.take(i as int) =~= t@);
}

/// Append the characters of a string to `v`.
pub fn push_str(v: &mut Vec<char>, s: &str)
    ensures
        final(v)@ == old(v)@ + s@,
{
    let t = chars_of(s);
    push_all(v, &t);
}

/// The concatenation of two character sequences.
pub fn concat(a: &Vec<char>, b: &Vec<char>) -> (r: Vec<char>)
    ensures
        r@ == a@ + b@,
{
    let mut r: Vec<char> = Vec::new();
    push_all(&mut r, a);
    push_all(&mut r, b);
    assert(r@ =~= a@ + b@);
    r
}

// ---------------------------------------------------------------------------
// White space, as `char::is_whitespace` defines it: the White_Space
// property of Unicode.

pub open spec fn is_space(c: char) -> bool {
    let n = c as u32;
    (0x09 <= n && n <= 0x0d) || n == 0x20 || n == 0x85 || n == 0xa0 || n == 0x1680
        || (0x2000 <= n && n <= 0x200a) || n == 0x2028 || n == 0x2029 || n == 0x202f
        || n == 0x205f || n == 0x3000
}

pub fn is_space_exec(c: char) -> (r: bool)
    ensures
        r == is_space(c),
{
    let n = c as u32;
    (0x09 <= n && n <= 0x0d) || n == 0x20 || n == 0x85 || n == 0xa0 || n == 0x1680
        || (0x2000 <= n && n <= 0x200a) || n == 0x2028 || n == 0x2029 || n == 0x202f
        || n == 0x205f || n == 0x3000
}

/// How many white-space characters `s` starts with.
pub open spec fn lead_space(s: Seq<char>) -> nat
    decreases s.len(),
{
    if s.len() > 0 && is_space(s[0]) { 1 + lead_space(s.drop_first()) } else { 0 }
}

/// How many white-space characters `s` ends with.
pub open spec fn trail_space(s: Seq<char>) -> nat
    decreases s.len(),
{
    if s.len() > 0 && is_space(s.last()) { 1 + trail_space(s.drop_last()) } else { 0 }
}

pub open spec fn trim_start(s: Seq<char>) -> Seq<char> {
    s.skip(lead_space(s) as int)
}

pub open spec fn trim_end(s: Seq<char>) -> Seq<char> {
    s.take(s.len() - trail_space(s))
}

/// What `trim_end` keeps is a beginning of `s` that does not end on white
/// space.
pub proof fn lemma_trim_end_shape(s: Seq<char>)
    ensures
        trim_end(s).len() <= s.len(),
        trim_end(s) == s.take(trim_end(s).len() as int),
        trim_end(s).len() > 0 ==> !is_space(trim_end(s).last()),
    decreases s.len(),
{
    lemma_trail_space_bound(s);
    if s.len() > 0 && is_space(s.last()) {
        let d = s.drop_last();
        lemma_trail_space_bound(d);
        lemma_trim_end_shape(d);
        assert(trim_end(s) =~= trim_end(d));
    } else {
        assert(trim_end(s) =~= s);
    }
}

pub open spec fn trim(s: Seq<char>) -> Seq<char> {
    trim_end(trim_start(s))
}

proof fn lemma_lead_space(s: Seq<char>, i: int)
    requires
        0 <= i <= s.len(),
        forall|j: int| 0 <= j < i ==> is_space(s[j]),
    ensures
        lead_space(s) >= i,
        lead_space(s) <= s.len(),
        i < s.len() && !is_space(s[i]) ==> lead_space(s) == i,
        i == s.len() ==> lead_space(s) == i,
    decreases i,
{
    lemma_lead_space_bound(s);
    if i > 0 {
        assert forall|j: int| 0 <= j < i - 1 implies is_space(s.drop_first()[j]) by {
            assert(s.drop_first()[j] == s[j + 1]);
        }
        if i < s.len() {
            assert(s.drop_first()[i - 1] == s[i]);
        }
        lemma_lead_space(s.drop_first(), i - 1);
    }
}

proof fn lemma_lead_space_bound(s: Seq<char>)
    ensures
        lead_space(s) <= s.len(),
    decreases s.len(),
{
    if s.len() > 0 {
        lemma_lead_space_bound(s.drop_first());
    }
}

proof fn lemma_trail_space(s: Seq<char>, i: int)
    requires
        0 <= i <= s.len(),
        forall|j: int| s.len() - i <= j < s.len() ==> is_space(s[j]),
    ensures
        trail_space(s) >= i,
        trail_space(s) <= s.len(),
        i < s.len() && !is_space(s[s.len() - 1 - i]) ==> trail_space(s) == i,
        i == s.len() ==> trail_space(s) == i,
    decreases i,
{
    lemma_trail_space_bound(s);
    if i > 0 {
        let t = s.drop_last();
        assert forall|j: int| t.len() - (i - 1) <= j < t.len() implies is_space(t[j]) by {
            assert(t[j] == s[j]);
        }
        if i < s.len() {
            assert(t[t.len() - 1 - (i - 1)] == s[s.len() - 1 - i]);
        }
        lemma_trail_space(t, i - 1);
    }
}

proof fn lemma_trail_space_bound(s: Seq<char>)
    ensures
        trail_space(s) <= s.len(),
    decreases s.len(),
{
    if s.len() > 0 {
        lemma_trail_space_bound(s.drop_last());
    }
}

/// Where the white space that `s` starts with ends.
pub fn lead_space_exec(s: &Vec<char>) -> (n: usize)
    ensures
        n == lead_space(s@),
{
    let mut i: usize = 0;
    while i < s.len() && is_space_exec(s[i])
        invariant
            i <= s@.len(),
            forall|j: int| 0 <= j < i ==> is_space(s@[j]),
        decreases s@.len() - i,
    {
        i = i + 1;
    }
    proof {
        lemma_lead_space(s@, i as int);
    }
    i
}

/// How many white-space characters `s` ends with.
pub fn trail_space_exec(s: &Vec<char>) -> (n: usize)
    ensures
        n == trail_space(s@),
{
    let mut i: usize = 0;
    while i < s.len() && is_space_exec(s[s.len() - 1 - i])
        invariant
            i <= s@.len(),
            forall|j: int| s@.len() - i <= j < s@.len() ==> is_space(s@[j]),
        decreases s@.len() - i,
    {
        i = i + 1;
    }
    proof {
        lemma_trail_space(s@, i as int);
    }
    i
}

pub fn trim_start_exec(s: &Vec<char>) -> (r: Vec<char>)
    ensures
        r@ == trim_start(s@),
{
    let n = lead_space_exec(s);
    proof { lemma_lead_space_bound(s@); }
    slice(s, n, s.len())
}

pub fn trim_end_exec(s: &Vec<char>) -> (r: Vec<char>)
    ensures
        r@ == trim_end(s@),
{
    let n = trail_space_exec(s);
    proof { lemma_trail_space_bound(s@); }
    slice(s, 0, s.len() - n)
}

pub fn trim_exec(s: &Vec<char>) -> (r: Vec<char>)
    ensures
        r@ == trim(s@),
{
    let t = trim_start_exec(s);
    trim_end_exec(&t)
}

// ---------------------------------------------------------------------------
// Lines, as `str::lines` cuts them: at each `\n`, a `\r` just before it
// going too; no last empty line after a final `\n`.

/// Where the line that starts at `from` ends: the next `\n`, or the end.
pub open spec fn line_end(s: Seq<char>, from: int) -> int
    decreases s.len() - from,
{
    if from < 0 || from >= s.len() || s[from] == '\n' { from } else { line_end(s, from + 1) }
}

pub open spec fn strip_cr(l: Seq<char>) -> Seq<char> {
    if l.len() > 0 && l.last() == '\r' { l.drop_last() } else { l }
}

/// The lines of `s` from position `from` on.
pub open spec fn lines_from(s: Seq<char>, from: int) -> Seq<Seq<char>>
    decreases s.len() + 1 - from,
{
    if from < 0 || from >= s.len() {
        seq![]
    } else {
        let e = line_end(s, from);
        if e < from || e > s.len() {
            seq![]
        } else {
            let line = if e < s.len() { strip_cr(s.subrange(from, e)) } else { s.subrange(from, e) };
            seq![line] + lines_from(s, e + 1)
        }
    }
}

pub open spec fn lines(s: Seq<char>) -> Seq<Seq<char>> {
    lines_from(s, 0)
}

pub open spec fn views(v: Seq<Vec<char>>) -> Seq<Seq<char>> {
    v.map_values(|x: Vec<char>| x@)
}

/// The lines of a text.
pub fn lines_of(s: &Vec<char>) -> (r: Vec<Vec<char>>)
    ensures
        views(r@) == lines(s@),
{
    let mut r: Vec<Vec<char>> = Vec::new();
    let mut from: usize = 0;
    while from < s.len()
        invariant
            from <= s@.len(),
            views(r@) + lines_from(s@, from as int) == lines(s@),
        decreases s@.len() - from,
    {
        let mut e = from;
        while e < s.len() && s[e] != '\n'
            invariant
                from <= e <= s@.len(),
                line_end(s@, from as int) == line_end(s@, e as int),
            decreases s@.len() - e,
        {
            e = e + 1;
        }
        let piece = slice(s, from, e);
        let line = if e < s.len() && e > from && s[e - 1] == '\r' {
            slice(s, from, e - 1)
        } else {
            piece
        };
        proof {
            if e < s@.len() && e > from && s@[e - 1] == '\r' {
                assert(line@ =~= strip_cr(s@.subrange(from as int, e as int)));
            } else if e < s@.len() {
                assert(line@ =~= strip_cr(s@.subrange(from as int, e as int)));
            }
            assert(lines_from(s@, from as int) == seq![line@] + lines_from(s@, e + 1));
        }
        let ghost before = r@;
        r.push(line);
        assert(views(r@) =~= views(before).push(line@));
        assert(views(r@) + lines_from(s@, e + 1) =~= views(before) + lines_from(s@, from as int));
        if e < s.len() {
            from = e + 1;
        } else {
            assert(lines_from(s@, e + 1) =~= lines_from(s@, e as int));
            from = e;
        }
    }
    assert(lines_from(s@, from as int) == Seq::<Seq<char>>::empty());
    assert(views(r@) =~= lines(s@));
    r
}

// ---------------------------------------------------------------------------
// Cutting at a separator, as `str::split` does: every piece, the empty
// ones included.

/// Where the piece that starts at `from` ends: the next `sep`, or the end.
pub open spec fn piece_end(s: Seq<char>, sep: char, from: int) -> int
    decreases s.len() - from,
{
    if from < 0 || from >= s.len() || s[from] == sep { from } else { piece_end(s, sep, from + 1) }
}

pub proof fn lemma_piece_end(s: Seq<char>, sep: char, from: int)
    requires
        0 <= from <= s.len(),
    ensures
        from <= piece_end(s, sep, from) <= s.len(),
        piece_end(s, sep, from) < s.len() ==> s[piece_end(s, sep, from)] == sep,
        forall|j: int| from <= j < piece_end(s, sep, from) ==> s[j] != sep,
    decreases s.len() - from,
{
    if from < s.len() && s[from] != sep {
        lemma_piece_end(s, sep, from + 1);
    }
}

pub open spec fn split_from(s: Seq<char>, sep: char, from: int) -> Seq<Seq<char>>
    decreases s.len() + 1 - from,
{
    if from < 0 || from > s.len() {
        seq![]
    } else {
        let e = piece_end(s, sep, from);
        if e < from || e >= s.len() {
            seq![s.subrange(from, s.len() as int)]
        } else {
            seq![s.subrange(from, e)] + split_from(s, sep, e + 1)
        }
    }
}

/// The pieces of `s` between the `sep` characters.
pub open spec fn split(s: Seq<char>, sep: char) -> Seq<Seq<char>> {
    split_from(s, sep, 0)
}

pub fn split_of(s: &Vec<char>, sep: char) -> (r: Vec<Vec<char>>)
    ensures
        views(r@) == split(s@, sep),
{
    let mut r: Vec<Vec<char>> = Vec::new();
    let mut from: usize = 0;
    loop
        invariant
            from <= s@.len(),
            views(r@) + split_from(s@, sep, from as int) == split(s@, sep),
        decreases s@.len() - from,
    {
        let mut e = from;
        while e < s.len() && s[e] != sep
            invariant
                from <= e <= s@.len(),
                piece_end(s@, sep, from as int) == piece_end(s@, sep, e as int),
            decreases s@.len() - e,
        {
            e = e + 1;
        }
        let piece = slice(s, from, e);
        let ghost before = r@;
        r.push(piece);
        assert(views(r@) =~= views(before).push(piece@));
        if e == s.len() {
            assert(split_from(s@, sep, from as int) == seq![piece@]);
            assert(views(r@) =~= split(s@, sep));
            return r;
        }
        assert(split_from(s@, sep, from as int) == seq![piece@] + split_from(s@, sep, e + 1));
        assert(views(r@) + split_from(s@, sep, e + 1) =~= views(before) + split_from(s@, sep, from as int));
        from = e + 1;
    }
}

// ---------------------------------------------------------------------------
// Joining.

/// The pieces, with `sep` between two of them.
pub open spec fn join(pieces: Seq<Seq<char>>, sep: Seq<char>) -> Seq<char>
    decreases pieces.len(),
{
    if pieces.len() == 0 {
        seq![]
    } else if pieces.len() == 1 {
        pieces[0]
    } else {
        join(pieces.drop_last(), sep) + sep + pieces.last()
    }
}

pub fn join_of(pieces: &Vec<Vec<char>>, sep: &Vec<char>) -> (r: Vec<char>)
    ensures
        r@ == join(views(pieces@), sep@),
{
    let mut r: Vec<char> = Vec::new();
    let mut i: usize = 0;
    while i < pieces.len()
        invariant
            i <= pieces@.len(),
            r@ == join(views(pieces@).take(i as int), sep@),
        decreases pieces@.len() - i,
    {
        let ghost before = r@;
        if i > 0 {
            push_all(&mut r, sep);
        }
        push_all(&mut r, &pieces[i]);
        proof {
            let t = views(pieces@).take(i + 1);
            assert(t.drop_last() =~= views(pieces@).take(i as int));
            assert(t.last() == pieces@[i as int]@);
            if i == 0 {
                assert(r@ =~= join(t, sep@));
            } else {
                assert(r@ =~= join(t, sep@));
            }
        }
        i = i + 1;
    }
    assert(views(pieces@).take(i as int) =~= views(pieces@));
    r
}

// ---------------------------------------------------------------------------
// Numbers, written in decimal.

pub open spec fn digit_char(d: nat) -> char {
    ((d % 10) + 48) as char
}

/// `n` in decimal, without leading zeros.
pub open spec fn decimal(n: nat) -> Seq<char>
    decreases n,
{
    if n < 10 { seq![digit_char(n)] } else { decimal(n / 10).push(digit_char(n % 10)) }
}

pub fn decimal_of(n: u64) -> (r: Vec<char>)
    ensures
        r@ == decimal(n as nat),
    decreases n,
{
    if n < 10 {
        let c = ((n as u8) + 48) as char;
        let mut r: Vec<char> = Vec::new();
        r.push(c);
        assert(r@ =~= decimal(n as nat));
        r
    } else {
        let mut r = decimal_of(n / 10);
        let c = (((n % 10) as u8) + 48) as char;
        r.push(c);
        r
    }
}

/// A count, written out as a string.
pub fn count_string(n: usize) -> (s: String)
    ensures
        s@ == decimal(n as nat),
{
    string_of(&decimal_of(n as u64))
}

// ---------------------------------------------------------------------------
// TOML basic strings, as the cards write them: a backslash and a double
// quote are the two characters that need one.

pub open spec fn escape_char(c: char) -> Seq<char> {
    if c == '\\' { seq!['\\', '\\'] } else if c == '"' { seq!['\\', '"'] } else { seq![c] }
}

pub open spec fn escaped(s: Seq<char>) -> Seq<char>
    decreases s.len(),
{
    if s.len() == 0 { seq![] } else { escape_char(s[0]) + escaped(s.drop_first()) }
}

/// `value` as a basic string of a card: in quotes, escaped.
pub open spec fn quoted(value: Seq<char>) -> Seq<char> {
    seq!['"'] + escaped(value) + seq!['"']
}

pub proof fn lemma_escaped_push(s: Seq<char>, c: char)
    ensures
        escaped(s.push(c)) == escaped(s) + escape_char(c),
    decreases s.len(),
{
    if s.len() == 0 {
        assert(s.push(c).drop_first() =~= Seq::<char>::empty());
        assert(escaped(Seq::<char>::empty()) == Seq::<char>::empty());
        assert(s.push(c)[0] == c);
        assert(escaped(s.push(c)) =~= escape_char(c) + escaped(Seq::<char>::empty()));
        assert(escaped(s.push(c)) =~= escape_char(c));
    } else {
        lemma_escaped_push(s.drop_first(), c);
        assert(s.push(c).drop_first() =~= s.drop_first().push(c));
        assert(escaped(s.push(c)) =~= escaped(s) + escape_char(c));
    }
}

/// Escape a value and put it in quotes.
pub fn quote_exec(value: &Vec<char>) -> (r: Vec<char>)
    ensures
        r@ == quoted(value@),
{
    let mut r: Vec<char> = Vec::new();
    r.push('"');
    let mut i: usize = 0;
    while i < value.len()
        invariant
            i <= value@.len(),
            r@ == seq!['"'] + escaped(value@.take(i as int)),
        decreases value@.len() - i,
    {
        let c = value[i];
        proof {
            assert(value@.take(i + 1) =~= value@.take(i as int).push(c));
            lemma_escaped_push(value@.take(i as int), c);
        }
        if c == '\\' {
            r.push('\\');
            r.push('\\');
        } else if c == '"' {
            r.push('\\');
            r.push('"');
        } else {
            r.push(c);
        }
        i = i + 1;
        assert(r@ =~= seq!['"'] + escaped(value@.take(i as int)));
    }
    assert(value@.take(i as int) =~= value@);
    r.push('"');
    r
}

/// Reading a basic string back, from just after its opening quote: the
/// value, and what follows the closing quote. A control character (tab
/// aside) or an unknown escape is not a basic string.
pub open spec fn read_basic(t: Seq<char>) -> Option<(Seq<char>, Seq<char>)>
    decreases t.len(),
{
    if t.len() == 0 {
        None
    } else if t[0] == '"' {
        Some((seq![], t.drop_first()))
    } else if t[0] == '\\' {
        if t.len() >= 2 && (t[1] == '\\' || t[1] == '"') {
            match read_basic(t.skip(2)) {
                Some((v, rest)) => Some((seq![t[1]] + v, rest)),
                None => None,
            }
        } else {
            None
        }
    } else if is_control(t[0]) {
        None
    } else {
        match read_basic(t.drop_first()) {
            Some((v, rest)) => Some((seq![t[0]] + v, rest)),
            None => None,
        }
    }
}

/// The characters a basic string may not hold as they are.
pub open spec fn is_control(c: char) -> bool {
    ((c as u32) < 0x20 && c != '\t') || c as u32 == 0x7f
}

/// A quoted value reads back as itself, and the reading stops at its
/// closing quote: whatever follows on the line is left alone. This is what
/// keeps a card readable when a title holds quotes or backslashes — for
/// any value without control characters, which a basic string cannot hold.
pub proof fn quoted_reads_back(value: Seq<char>, rest: Seq<char>)
    requires
        forall|i: int| 0 <= i < value.len() ==> !is_control(value[i]),
    ensures
        read_basic(escaped(value) + seq!['"'] + rest) == Some((value, rest)),
    decreases value.len(),
{
    let t = escaped(value) + seq!['"'] + rest;
    if value.len() == 0 {
        assert(t =~= seq!['"'] + rest);
        assert(t.drop_first() =~= rest);
    } else {
        let c = value[0];
        let tail = value.drop_first();
        assert forall|i: int| 0 <= i < tail.len() implies !is_control(tail[i]) by {
            assert(tail[i] == value[i + 1]);
        }
        quoted_reads_back(tail, rest);
        let u = escaped(tail) + seq!['"'] + rest;
        assert(t =~= escape_char(c) + u);
        if c == '\\' || c == '"' {
            assert(t.skip(2) =~= u);
        } else {
            assert(t.drop_first() =~= u);
        }
        assert(seq![c] + tail =~= value);
    }
}

// ---------------------------------------------------------------------------
// Comparing, and the ASCII classes of `char`.

/// Are the two sequences the same?
pub fn same(a: &Vec<char>, b: &Vec<char>) -> (r: bool)
    ensures
        r == (a@ == b@),
{
    if a.len() != b.len() {
        return false;
    }
    let mut i: usize = 0;
    while i < a.len()
        invariant
            a@.len() == b@.len(),
            i <= a@.len(),
            forall|j: int| 0 <= j < i ==> a@[j] == b@[j],
        decreases a@.len() - i,
    {
        if a[i] != b[i] {
            return false;
        }
        i = i + 1;
    }
    assert(a@ =~= b@);
    true
}

/// Are the two strings the same?
pub fn same_str(a: &str, b: &str) -> (r: bool)
    ensures
        r == (a@ == b@),
{
    same(&chars_of(a), &chars_of(b))
}

pub open spec fn is_ascii_digit(c: char) -> bool {
    '0' <= c && c <= '9'
}

pub open spec fn is_ascii_lower(c: char) -> bool {
    'a' <= c && c <= 'z'
}

pub open spec fn is_ascii_upper(c: char) -> bool {
    'A' <= c && c <= 'Z'
}

pub open spec fn is_ascii_alnum(c: char) -> bool {
    is_ascii_digit(c) || is_ascii_lower(c) || is_ascii_upper(c)
}

pub open spec fn is_ascii_hex(c: char) -> bool {
    is_ascii_digit(c) || ('a' <= c && c <= 'f') || ('A' <= c && c <= 'F')
}

/// `char::to_ascii_lowercase`: an ASCII capital becomes its small letter.
pub open spec fn ascii_lower(c: char) -> char {
    if is_ascii_upper(c) { ((c as u32) + 32) as char } else { c }
}

/// `char::to_ascii_uppercase`.
pub open spec fn ascii_upper(c: char) -> char {
    if is_ascii_lower(c) { ((c as u32) - 32) as char } else { c }
}

pub fn is_ascii_digit_exec(c: char) -> (r: bool)
    ensures
        r == is_ascii_digit(c),
{
    '0' <= c && c <= '9'
}

pub fn is_ascii_alnum_exec(c: char) -> (r: bool)
    ensures
        r == is_ascii_alnum(c),
{
    ('0' <= c && c <= '9') || ('a' <= c && c <= 'z') || ('A' <= c && c <= 'Z')
}

pub fn is_ascii_hex_exec(c: char) -> (r: bool)
    ensures
        r == is_ascii_hex(c),
{
    ('0' <= c && c <= '9') || ('a' <= c && c <= 'f') || ('A' <= c && c <= 'F')
}

pub fn ascii_lower_exec(c: char) -> (r: char)
    ensures
        r == ascii_lower(c),
{
    if 'A' <= c && c <= 'Z' { ((c as u32) + 32) as u8 as char } else { c }
}

// ---------------------------------------------------------------------------
// Reading an unsigned integer, as `str::parse` does: digits, a plus sign
// before them allowed, nothing else.

pub open spec fn digit_of(c: char) -> nat {
    ((c as u32) - 48) as nat
}

pub open spec fn digits_value(s: Seq<char>) -> nat
    decreases s.len(),
{
    if s.len() == 0 { 0 } else { digits_value(s.drop_last()) * 10 + digit_of(s.last()) }
}

pub open spec fn all_digits(s: Seq<char>) -> bool {
    forall|i: int| 0 <= i < s.len() ==> is_ascii_digit(#[trigger] s[i])
}

/// The value of an unsigned integer written in `s`, whatever its size.
pub open spec fn unsigned_of(s: Seq<char>) -> Option<nat> {
    let d = if s.len() > 0 && s[0] == '+' { s.drop_first() } else { s };
    if d.len() > 0 && all_digits(d) { Some(digits_value(d)) } else { None }
}

/// What parsing `s` as a `usize` gives: its value when it is one and fits.
pub open spec fn usize_of(s: Seq<char>) -> Option<nat> {
    match unsigned_of(s) {
        Some(v) => if v <= usize::MAX { Some(v) } else { None },
        None => None,
    }
}

proof fn lemma_digits_grow(s: Seq<char>, i: int)
    requires
        0 <= i <= s.len(),
        all_digits(s),
    ensures
        digits_value(s.take(i)) <= digits_value(s),
    decreases s.len() - i,
{
    if i < s.len() {
        lemma_digits_grow(s, i + 1);
        assert(s.take(i + 1).drop_last() =~= s.take(i));
        assert(is_ascii_digit(s[i]));
    } else {
        assert(s.take(i) =~= s);
    }
}

pub fn parse_usize(s: &Vec<char>) -> (r: Option<usize>)
    ensures
        match r {
            Some(v) => usize_of(s@) == Some(v as nat),
            None => usize_of(s@) is None,
        },
{
    let start: usize = if s.len() > 0 && s[0] == '+' { 1 } else { 0 };
    let d = slice(s, start, s.len());
    assert(d@ =~= (if s@.len() > 0 && s@[0] == '+' { s@.drop_first() } else { s@ }));
    if d.len() == 0 {
        return None;
    }
    let mut v: usize = 0;
    let mut i: usize = 0;
    while i < d.len()
        invariant
            i <= d@.len(),
            forall|k: int| 0 <= k < i ==> is_ascii_digit(#[trigger] d@[k]),
            v == digits_value(d@.take(i as int)),
            d@ == (if s@.len() > 0 && s@[0] == '+' { s@.drop_first() } else { s@ }),
            d@.len() > 0,
        decreases d@.len() - i,
    {
        let c = d[i];
        if !(c >= '0' && c <= '9') {
            assert(!is_ascii_digit(d@[i as int]));
            assert(!all_digits(d@));
            assert(unsigned_of(s@) is None);
            return None;
        }
        assert(d@.take(i + 1).drop_last() =~= d@.take(i as int));
        assert(d@.take(i + 1).last() == c);
        let dv = (c as u32 - 48) as usize;
        assert(digits_value(d@.take(i + 1)) == v * 10 + dv);
        match v.checked_mul(10) {
            Some(m) => match m.checked_add(dv) {
                Some(n) => {
                    v = n;
                },
                None => {
                    proof { lemma_rest_digits(d@, i as int); }
                    assert(usize_of(s@) is None);
                    return None;
                },
            },
            None => {
                proof { lemma_rest_digits(d@, i as int); }
                assert(usize_of(s@) is None);
                return None;
            },
        }
        i = i + 1;
    }
    assert(d@.take(i as int) =~= d@);
    Some(v)
}

/// When the first `i + 1` characters are digits and the rest are too, the
/// whole is worth at least the first `i + 1`.
proof fn lemma_rest_digits(d: Seq<char>, i: int)
    requires
        0 <= i < d.len(),
        forall|k: int| 0 <= k <= i ==> is_ascii_digit(#[trigger] d[k]),
    ensures
        all_digits(d) ==> digits_value(d.take(i + 1)) <= digits_value(d),
{
    if all_digits(d) {
        lemma_digits_grow(d, i + 1);
    }
}

/// The value of the digits of `d`, when they are digits, all of them, and
/// fit in a `u64`.
pub fn parse_digits_u64(d: &Vec<char>) -> (r: Option<u64>)
    ensures
        match r {
            Some(v) => d@.len() > 0 && all_digits(d@) && digits_value(d@) == v,
            None => !(d@.len() > 0 && all_digits(d@) && digits_value(d@) <= u64::MAX),
        },
{
    if d.len() == 0 {
        return None;
    }
    let mut v: u64 = 0;
    let mut i: usize = 0;
    while i < d.len()
        invariant
            i <= d@.len(),
            forall|k: int| 0 <= k < i ==> is_ascii_digit(#[trigger] d@[k]),
            v == digits_value(d@.take(i as int)),
        decreases d@.len() - i,
    {
        let c = d[i];
        if !(c >= '0' && c <= '9') {
            assert(!is_ascii_digit(d@[i as int]));
            return None;
        }
        assert(d@.take(i + 1).drop_last() =~= d@.take(i as int));
        assert(d@.take(i + 1).last() == c);
        let dv = (c as u32 - 48) as u64;
        assert(digits_value(d@.take(i + 1)) == v * 10 + dv);
        match v.checked_mul(10) {
            Some(m) => match m.checked_add(dv) {
                Some(n) => {
                    v = n;
                },
                None => {
                    proof { lemma_rest_digits(d@, i as int); }
                    return None;
                },
            },
            None => {
                proof { lemma_rest_digits(d@, i as int); }
                return None;
            },
        }
        i = i + 1;
    }
    assert(d@.take(i as int) =~= d@);
    Some(v)
}

/// What parsing `s` as an `i64` gives: a sign allowed before the digits.
pub open spec fn i64_of(s: Seq<char>) -> Option<int> {
    if s.len() > 0 && s[0] == '-' {
        let d = s.drop_first();
        if d.len() > 0 && all_digits(d) && digits_value(d) <= 0x8000_0000_0000_0000 {
            Some(-(digits_value(d) as int))
        } else {
            None
        }
    } else {
        match unsigned_of(s) {
            Some(v) => if v <= i64::MAX { Some(v as int) } else { None },
            None => None,
        }
    }
}

pub fn parse_i64(s: &Vec<char>) -> (r: Option<i64>)
    ensures
        match r {
            Some(v) => i64_of(s@) == Some(v as int),
            None => i64_of(s@) is None,
        },
{
    if s.len() > 0 && s[0] == '-' {
        let d = slice(s, 1, s.len());
        assert(d@ =~= s@.drop_first());
        match parse_digits_u64(&d) {
            Some(v) => {
                if v <= 0x8000_0000_0000_0000u64 {
                    if v == 0x8000_0000_0000_0000u64 {
                        Some(i64::MIN)
                    } else {
                        Some(-(v as i64))
                    }
                } else {
                    None
                }
            },
            None => None,
        }
    } else {
        let start: usize = if s.len() > 0 && s[0] == '+' { 1 } else { 0 };
        let d = slice(s, start, s.len());
        assert(d@ =~= (if s@.len() > 0 && s@[0] == '+' { s@.drop_first() } else { s@ }));
        match parse_digits_u64(&d) {
            Some(v) => {
                if v <= 0x7fff_ffff_ffff_ffffu64 {
                    Some(v as i64)
                } else {
                    None
                }
            },
            None => None,
        }
    }
}

// ---------------------------------------------------------------------------
// Facts about splitting and about decimal digits.

proof fn lemma_piece_end_shift(p: Seq<char>, b: Seq<char>, sep: char, k: int)
    requires
        0 <= k <= b.len(),
    ensures
        piece_end(p + b, sep, p.len() + k) == p.len() + piece_end(b, sep, k),
    decreases b.len() - k,
{
    let s = p + b;
    if k < b.len() {
        assert(s[p.len() + k] == b[k]);
        if b[k] != sep {
            lemma_piece_end_shift(p, b, sep, k + 1);
        }
    }
}

proof fn lemma_split_shift(p: Seq<char>, b: Seq<char>, sep: char, k: int)
    requires
        0 <= k <= b.len(),
    ensures
        split_from(p + b, sep, p.len() + k) == split_from(b, sep, k),
    decreases b.len() + 1 - k,
{
    let s = p + b;
    lemma_piece_end_shift(p, b, sep, k);
    lemma_piece_end(b, sep, k);
    let e = piece_end(b, sep, k);
    if e >= b.len() {
        assert(s.subrange(p.len() + k, s.len() as int) =~= b.subrange(k, b.len() as int));
    } else {
        assert(s.subrange(p.len() + k, p.len() + e) =~= b.subrange(k, e));
        lemma_split_shift(p, b, sep, e + 1);
    }
}

proof fn lemma_piece_end_clear(a: Seq<char>, b: Seq<char>, sep: char, k: int)
    requires
        0 <= k <= a.len(),
        forall|i: int| 0 <= i < a.len() ==> a[i] != sep,
    ensures
        piece_end(a + b, sep, k) == a.len() + piece_end(b, sep, 0),
    decreases a.len() - k,
{
    if k < a.len() {
        assert((a + b)[k] == a[k]);
        lemma_piece_end_clear(a, b, sep, k + 1);
    } else {
        lemma_piece_end_shift(a, b, sep, 0);
    }
}

/// Cutting `a`, a separator and `b`, where `a` holds no separator: `a`
/// comes first, then the pieces of `b`.
pub proof fn lemma_split_concat(a: Seq<char>, b: Seq<char>, sep: char)
    requires
        forall|i: int| 0 <= i < a.len() ==> a[i] != sep,
    ensures
        split(a + seq![sep] + b, sep) == seq![a] + split(b, sep),
{
    let s = a + seq![sep] + b;
    let t = seq![sep] + b;
    assert(s =~= a + t);
    lemma_piece_end_clear(a, t, sep, 0);
    assert(t[0] == sep);
    assert(piece_end(t, sep, 0) == 0);
    assert(piece_end(s, sep, 0) == a.len());
    assert(s.subrange(0, a.len() as int) =~= a);
    let pre = a + seq![sep];
    assert(s =~= pre + b);
    lemma_split_shift(pre, b, sep, 0);
}

/// A text without the separator is one piece.
pub proof fn lemma_split_single(a: Seq<char>, sep: char)
    requires
        forall|i: int| 0 <= i < a.len() ==> a[i] != sep,
    ensures
        split(a, sep) == seq![a],
{
    lemma_piece_end_clear(a, seq![], sep, 0);
    assert(a + Seq::<char>::empty() =~= a);
    assert(a.subrange(0, a.len() as int) =~= a);
}

pub proof fn lemma_decimal_digits(n: nat)
    ensures
        all_digits(decimal(n)),
        digits_value(decimal(n)) == n,
        decimal(n).len() > 0,
    decreases n,
{
    lemma_digit_char(n % 10);
    if n < 10 {
        assert(n % 10 == n);
        assert(decimal(n) =~= seq![digit_char(n)]);
        assert(decimal(n).drop_last() =~= Seq::<char>::empty());
        assert(digits_value(decimal(n)) == digits_value(Seq::<char>::empty()) * 10 + digit_of(digit_char(n)));
    } else {
        lemma_decimal_digits(n / 10);
        let s = decimal(n);
        assert(s.drop_last() =~= decimal(n / 10));
        assert(s.last() == digit_char(n % 10));
        assert(digits_value(s) == (n / 10) * 10 + n % 10);
    }
}

proof fn lemma_digit_char(k: nat)
    requires
        k < 10,
    ensures
        digit_of(digit_char(k)) == k,
        is_ascii_digit(digit_char(k)),
{
    let x: int = ((k % 10) + 48) as int;
    assert(x == k + 48);
    assert((x as char) as u32 == x);
}

/// Zeros before digits change nothing of their value.
pub proof fn lemma_leading_zeros(z: nat, s: Seq<char>)
    requires
        all_digits(s),
    ensures
        all_digits(Seq::new(z, |i: int| '0') + s),
        digits_value(Seq::new(z, |i: int| '0') + s) == digits_value(s),
    decreases s.len(),
{
    let zs = Seq::new(z, |i: int| '0');
    if s.len() == 0 {
        assert(zs + s =~= zs);
        lemma_zeros_value(z);
    } else {
        lemma_leading_zeros(z, s.drop_last());
        assert((zs + s).drop_last() =~= zs + s.drop_last());
        assert((zs + s).last() == s.last());
    }
}

proof fn lemma_zeros_value(z: nat)
    ensures
        digits_value(Seq::new(z, |i: int| '0')) == 0,
        all_digits(Seq::new(z, |i: int| '0')),
    decreases z,
{
    if z > 0 {
        lemma_zeros_value((z - 1) as nat);
        assert(Seq::new(z, |i: int| '0').drop_last() =~= Seq::new((z - 1) as nat, |i: int| '0'));
    }
}

// ---------------------------------------------------------------------------
// What only the standard library knows: Unicode's case mappings and its
// letters and numbers.

/// What `str::to_lowercase` gives for these characters.
pub uninterp spec fn lowercase(s: Seq<char>) -> Seq<char>;

/// `str::to_lowercase`: the string in lower case, by Unicode's mappings.
/// On ASCII it lowers the ASCII letters as `to_ascii_lowercase` does, which
/// the standard library documents by pointing from one to the other; what
/// it gives for other characters is left to the name.
#[verifier::external_body]
pub(crate) fn to_lowercase(s: &str) -> (r: String)
    ensures
        r@ == lowercase(s@),
        (forall|i: int| 0 <= i < s@.len() ==> (#[trigger] s@[i] as u32) < 0x80)
            ==> r@ == s@.map_values(|c: char| ascii_lower(c)),
{
    s.to_lowercase()
}

/// What `char::is_alphanumeric` says of a character.
pub uninterp spec fn alphanumeric(c: char) -> bool;

/// `char::is_alphanumeric`: a letter or a number of Unicode. On ASCII it
/// is the letters and the digits, as the standard library documents.
#[verifier::external_body]
pub(crate) fn is_alphanumeric(c: char) -> (r: bool)
    ensures
        r == alphanumeric(c),
        (c as u32) < 0x80 ==> r == is_ascii_alnum(c),
{
    c.is_alphanumeric()
}

/// What `char::to_uppercase` gives for a character.
pub uninterp spec fn uppercase(c: char) -> Seq<char>;

/// `char::to_uppercase`: the character in upper case, by Unicode's
/// mappings — one character or more. On ASCII it is the ASCII mapping, as
/// the standard library documents.
#[verifier::external_body]
pub(crate) fn to_uppercase(c: char) -> (r: Vec<char>)
    ensures
        r@ == uppercase(c),
        (c as u32) < 0x80 ==> r@ == seq![ascii_upper(c)],
{
    c.to_uppercase().collect()
}


// ---------------------------------------------------------------------------
// ASCII text, and its folding to a key.

/// Only ASCII characters.
pub open spec fn is_ascii_text(s: Seq<char>) -> bool {
    forall|i: int| 0 <= i < s.len() ==> (#[trigger] s[i] as u32) < 0x80
}

/// The text with its ASCII capitals made small.
pub open spec fn ascii_lowered(s: Seq<char>) -> Seq<char> {
    s.map_values(|c: char| ascii_lower(c))
}

/// The ASCII letters and digits of a text, in order.
pub open spec fn ascii_key(s: Seq<char>) -> Seq<char>
    decreases s.len(),
{
    if s.len() == 0 {
        seq![]
    } else if is_ascii_alnum(s.last()) {
        ascii_key(s.drop_last()).push(s.last())
    } else {
        ascii_key(s.drop_last())
    }
}

/// The ASCII letters and digits of a text, in order and small.
pub open spec fn folded(s: Seq<char>) -> Seq<char>
    decreases s.len(),
{
    if s.len() == 0 {
        seq![]
    } else if is_ascii_alnum(s.last()) {
        folded(s.drop_last()).push(ascii_lower(s.last()))
    } else {
        folded(s.drop_last())
    }
}

pub proof fn lemma_ascii_lower_char(c: char)
    ensures
        is_ascii_alnum(ascii_lower(c)) == is_ascii_alnum(c),
        !is_ascii_alnum(c) ==> ascii_lower(c) == c,
        (c as u32) < 0x80 ==> (ascii_lower(c) as u32) < 0x80,
{
    if is_ascii_upper(c) {
        assert((((c as u32) + 32) as char) as u32 == (c as u32) + 32);
    }
}

pub proof fn lemma_ascii_lowered_text(s: Seq<char>)
    requires
        is_ascii_text(s),
    ensures
        is_ascii_text(ascii_lowered(s)),
{
    assert forall|i: int| 0 <= i < ascii_lowered(s).len() implies (#[trigger] ascii_lowered(s)[i] as u32) < 0x80 by {
        lemma_ascii_lower_char(s[i]);
    }
}

pub proof fn lemma_key_of_lowered(s: Seq<char>)
    ensures
        ascii_key(ascii_lowered(s)) == folded(s),
    decreases s.len(),
{
    if s.len() > 0 {
        lemma_key_of_lowered(s.drop_last());
        lemma_ascii_lower_char(s.last());
        assert(ascii_lowered(s).drop_last() =~= ascii_lowered(s.drop_last()));
    }
}

pub proof fn lemma_folded_concat(a: Seq<char>, b: Seq<char>)
    ensures
        folded(a + b) == folded(a) + folded(b),
    decreases b.len(),
{
    if b.len() == 0 {
        assert(a + b =~= a);
        assert(folded(a) + folded(b) =~= folded(a));
    } else {
        lemma_folded_concat(a, b.drop_last());
        assert((a + b).drop_last() =~= a + b.drop_last());
        assert((a + b).last() == b.last());
        assert(folded(a + b) =~= folded(a) + folded(b));
    }
}

proof fn lemma_folded_blank(s: Seq<char>)
    requires
        forall|i: int| 0 <= i < s.len() ==> is_space(#[trigger] s[i]),
    ensures
        folded(s) == Seq::<char>::empty(),
    decreases s.len(),
{
    if s.len() > 0 {
        assert(is_space(s[s.len() - 1]));
        lemma_folded_blank(s.drop_last());
    }
}

proof fn lemma_lead_spaces(s: Seq<char>)
    ensures
        lead_space(s) <= s.len(),
        forall|k: int| 0 <= k < lead_space(s) ==> is_space(#[trigger] s[k]),
    decreases s.len(),
{
    if s.len() > 0 && is_space(s[0]) {
        lemma_lead_spaces(s.drop_first());
        assert forall|k: int| 0 <= k < lead_space(s) implies is_space(#[trigger] s[k]) by {
            if k > 0 {
                assert(s[k] == s.drop_first()[k - 1]);
            }
        }
    }
}

proof fn lemma_trail_spaces(s: Seq<char>)
    ensures
        trail_space(s) <= s.len(),
        forall|k: int| s.len() - trail_space(s) <= k < s.len() ==> is_space(#[trigger] s[k]),
    decreases s.len(),
{
    if s.len() > 0 && is_space(s.last()) {
        lemma_trail_spaces(s.drop_last());
        assert forall|k: int| s.len() - trail_space(s) <= k < s.len() implies is_space(#[trigger] s[k]) by {
            if k < s.len() - 1 {
                assert(s[k] == s.drop_last()[k]);
            }
        }
    }
}

/// Trimming takes away only white space, which folding drops anyway.
pub proof fn lemma_folded_trim(x: Seq<char>)
    ensures
        folded(trim(x)) == folded(x),
{
    let l = lead_space(x) as int;
    lemma_lead_spaces(x);
    let y = x.skip(l);
    let t = trail_space(y) as int;
    lemma_trail_spaces(y);
    let a = x.take(l);
    let m = y.take(y.len() - t);
    let b = y.skip(y.len() - t);
    assert(x =~= a + (m + b));
    assert(trim(x) == m);
    assert forall|i: int| 0 <= i < a.len() implies is_space(#[trigger] a[i]) by {
        assert(a[i] == x[i]);
    }
    assert forall|i: int| 0 <= i < b.len() implies is_space(#[trigger] b[i]) by {
        assert(b[i] == y[y.len() - t + i]);
    }
    lemma_folded_blank(a);
    lemma_folded_blank(b);
    lemma_folded_concat(m, b);
    lemma_folded_concat(a, m + b);
    assert(Seq::<char>::empty() + folded(m) =~= folded(m));
    assert(folded(m) + Seq::<char>::empty() =~= folded(m));
}

/// A pattern without letters or digits stands where it stands once the
/// text is lowered.
pub proof fn lemma_find_lowered(s: Seq<char>, p: Seq<char>, from: int)
    requires
        forall|i: int| 0 <= i < p.len() ==> !is_ascii_alnum(#[trigger] p[i]),
    ensures
        find_from(ascii_lowered(s), p, from) == find_from(s, p, from),
    decreases s.len() + 1 - from,
{
    let ls = ascii_lowered(s);
    if from < 0 || from + p.len() > s.len() {
    } else {
        assert(occurs_at(ls, p, from) == occurs_at(s, p, from)) by {
            if occurs_at(s, p, from) {
                assert forall|k: int| 0 <= k < p.len() implies ls.subrange(from, from + p.len())[k] == p[k] by {
                    assert(s.subrange(from, from + p.len())[k] == p[k]);
                    lemma_ascii_lower_char(p[k]);
                }
                assert(ls.subrange(from, from + p.len()) =~= p);
            }
            if occurs_at(ls, p, from) {
                assert forall|k: int| 0 <= k < p.len() implies s.subrange(from, from + p.len())[k] == p[k] by {
                    assert(ls.subrange(from, from + p.len())[k] == p[k]);
                    let c = s[from + k];
                    lemma_ascii_lower_char(c);
                    lemma_ascii_lower_char(p[k]);
                    if is_ascii_alnum(c) {
                        assert(is_ascii_alnum(ascii_lower(c)));
                    }
                }
                assert(s.subrange(from, from + p.len()) =~= p);
            }
        }
        if !occurs_at(s, p, from) {
            lemma_find_lowered(s, p, from + 1);
        }
    }
}


/// The pieces of an ASCII text are ASCII.
pub proof fn lemma_split_ascii(s: Seq<char>, sep: char, from: int)
    requires
        is_ascii_text(s),
    ensures
        forall|i: int| 0 <= i < split_from(s, sep, from).len() ==> is_ascii_text(#[trigger] split_from(s, sep, from)[i]),
    decreases s.len() + 1 - from,
{
    if from < 0 || from > s.len() {
    } else {
        lemma_piece_end(s, sep, from);
        let e = piece_end(s, sep, from);
        if e < from || e >= s.len() {
            let p = s.subrange(from, s.len() as int);
            assert forall|k: int| 0 <= k < p.len() implies (#[trigger] p[k] as u32) < 0x80 by {
                assert(p[k] == s[from + k]);
            }
        } else {
            lemma_split_ascii(s, sep, e + 1);
            let p = s.subrange(from, e);
            assert forall|k: int| 0 <= k < p.len() implies (#[trigger] p[k] as u32) < 0x80 by {
                assert(p[k] == s[from + k]);
            }
            let all = split_from(s, sep, from);
            assert forall|i: int| 0 <= i < all.len() implies is_ascii_text(#[trigger] all[i]) by {
                if i > 0 {
                    assert(all[i] == split_from(s, sep, e + 1)[i - 1]);
                }
            }
        }
    }
}

} // verus!
