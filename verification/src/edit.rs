//! The **edits**: they change a card and produce a readable commit. That
//! is what sets them apart from measures — those write to `learned/`
//! without a word, these leave a trace that can be reread and undone.
//!
//! **Cards are patched textually, never rewritten.** A round trip through
//! a serializer would lose everything the code does not model — `format`,
//! `generated`, `mbid`, `spotify`, the key order and the quotes chosen by
//! hand. A line is inserted into a card; the whole is not regenerated. The
//! contracts below say exactly that: what comes before the insertion point
//! and what comes after it are kept character for character.
//!
//! The disk and git stay with the caller: here an edit receives the card's
//! text as it was read, and gives back the text to write.

use vstd::prelude::*;
use crate::text::{
    chars_of, string_of, find_in, find_from, push_all, push_str, slice, starts_with, ends_with,
    contains, contains_in, occurs_at, quote_exec, quoted as basic_quoted, trim_end, trim_end_exec, trim_start,
    trim_start_exec, lines, lines_of, join, join_of, views, decimal, decimal_of, split,
};

verus! {

// ---------------------------------------------------------------------------
// Paths, as `Path::join` builds them on a Unix system.

/// `part` joined under `base`: an absolute part replaces the base.
pub open spec fn join_path(base: Seq<char>, part: Seq<char>) -> Seq<char> {
    if part.len() > 0 && part[0] == '/' {
        part
    } else if base.len() == 0 {
        part
    } else if base.last() == '/' {
        base + part
    } else {
        base + seq!['/'] + part
    }
}

pub fn join_path_exec(base: &Vec<char>, part: &Vec<char>) -> (r: Vec<char>)
    ensures
        r@ == join_path(base@, part@),
{
    if part.len() > 0 && part[0] == '/' {
        return slice(part, 0, part.len());
    }
    let mut r = slice(base, 0, base.len());
    if base.len() > 0 && base[base.len() - 1] != '/' {
        r.push('/');
    }
    push_all(&mut r, part);
    proof {
        assert(base@.subrange(0, base@.len() as int) =~= base@);
        assert(part@.subrange(0, part@.len() as int) =~= part@);
    }
    r
}

pub open spec fn card_path_of(catalog_dir: Seq<char>, slug: Seq<char>) -> Seq<char> {
    join_path(join_path(catalog_dir, "cards"@), slug + ".toml"@)
}

/// Where the card of `slug` lives in a catalog: `cards/<slug>.toml`.
pub fn card_path(catalog_dir: &str, slug: &str) -> (p: String)
    ensures
        p@ == card_path_of(catalog_dir@, slug@),
{
    let dir = join_path_exec(&chars_of(catalog_dir), &chars_of("cards"));
    let mut file = chars_of(slug);
    push_str(&mut file, ".toml");
    string_of(&join_path_exec(&dir, &file))
}

/// Escape a value for a basic TOML string.
pub fn quoted(value: &str) -> (r: String)
    ensures
        r@ == basic_quoted(value@),
{
    string_of(&quote_exec(&chars_of(value)))
}

// ---------------------------------------------------------------------------
// Where an array of a card is.

/// The bounds, in characters, of the content of the array `<key> = [` … `]`:
/// from just after its opening bracket to just after the newline that comes
/// before its closing bracket at the start of a line.
pub open spec fn array_bounds(text: Seq<char>, key: Seq<char>) -> Option<(int, int)> {
    let line = key + " = ["@;
    let start = if line.is_prefix_of(text) {
        Some(0int)
    } else {
        match find_from(text, seq!['\n'] + line, 0) {
            Some(i) => Some(i + 1),
            None => None,
        }
    };
    match start {
        None => None,
        Some(s) => match find_from(text, "["@, s) {
            None => None,
            Some(open) => match find_from(text, "\n]"@, open) {
                None => None,
                Some(close) => Some((open + 1, close + 1)),
            },
        },
    }
}

proof fn lemma_bounds_in_text(text: Seq<char>, key: Seq<char>)
    ensures
        array_bounds(text, key) matches Some((from, to)) ==> 0 <= from <= to <= text.len(),
{
    reveal_strlit("[");
    reveal_strlit("\n]");
    let line = key + " = ["@;
    crate::text::lemma_find_from(text, seq!['\n'] + line, 0);
    let start = if line.is_prefix_of(text) {
        Some(0int)
    } else {
        match find_from(text, seq!['\n'] + line, 0) {
            Some(i) => Some(i + 1),
            None => None,
        }
    };
    if let Some(s) = start {
        crate::text::lemma_find_from(text, "["@, s);
        if let Some(open) = find_from(text, "["@, s) {
            crate::text::lemma_find_from(text, "\n]"@, open);
        }
    }
}

/// The bounds of an array's content, in characters.
pub fn array_bounds_exec(text: &Vec<char>, key: &Vec<char>) -> (r: Option<(usize, usize)>)
    ensures
        r matches Some((from, to)) ==> (array_bounds(text@, key@) == Some((from as int, to as int))
            && from <= to <= text@.len()),
        r is None ==> array_bounds(text@, key@) is None,
{
    proof {
        lemma_bounds_in_text(text@, key@);
        reveal_strlit("[");
        reveal_strlit("\n]");
    }
    let n = text.len();
    assert(text@.len() == n);
    let mut line = slice(key, 0, key.len());
    push_str(&mut line, " = [");
    assert(key@.subrange(0, key@.len() as int) =~= key@);
    let start = if starts_with(text, &line) {
        0
    } else {
        let mut head: Vec<char> = Vec::new();
        head.push('\n');
        push_all(&mut head, &line);
        assert(head@ =~= seq!['\n'] + line@);
        proof { crate::text::lemma_find_from(text@, head@, 0); }
        match find_in(text, &head, 0) {
            Some(i) => {
                assert(occurs_at(text@, head@, i as int));
                assert(head@.len() >= 1);
                i + 1
            }
            None => { return None; }
        }
    };
    let open = match find_in(text, &chars_of("["), start) {
        Some(o) => o,
        None => { return None; }
    };
    proof { crate::text::lemma_find_from(text@, "["@, start as int); }
    let close = match find_in(text, &chars_of("\n]"), open) {
        Some(c) => c,
        None => { return None; }
    };
    proof { crate::text::lemma_find_from(text@, "\n]"@, open as int); }
    assert(occurs_at(text@, "\n]"@, close as int));
    assert(occurs_at(text@, "["@, open as int));
    Some((open + 1, close + 1))
}

/// How many bytes a character takes in UTF-8.
pub open spec fn utf8_width(c: char) -> nat {
    if (c as u32) < 0x80 { 1 } else if (c as u32) < 0x800 { 2 } else if (c as u32) < 0x10000 { 3 } else { 4 }
}

/// How many bytes the first `n` characters of `s` take in UTF-8.
pub open spec fn byte_offset(s: Seq<char>, n: int) -> nat
    decreases n,
{
    if n <= 0 || s.len() == 0 { 0 } else { byte_offset(s, n - 1) + utf8_width(s[n - 1]) }
}

fn byte_offset_exec(s: &Vec<char>, n: usize) -> (r: usize)
    requires
        n <= s@.len(),
        byte_offset(s@, n as int) <= usize::MAX,
    ensures
        r == byte_offset(s@, n as int),
{
    let mut i: usize = 0;
    let mut total: usize = 0;
    while i < n
        invariant
            i <= n <= s@.len(),
            total == byte_offset(s@, i as int),
            byte_offset(s@, n as int) <= usize::MAX,
        decreases n - i,
    {
        proof { lemma_byte_offset_grows(s@, i + 1, n as int); }
        let c = s[i] as u32;
        let w: usize = if c < 0x80 { 1 } else if c < 0x800 { 2 } else if c < 0x10000 { 3 } else { 4 };
        total = total + w;
        i = i + 1;
    }
    total
}

proof fn lemma_byte_offset_grows(s: Seq<char>, i: int, j: int)
    requires
        0 <= i <= j,
        s.len() > 0,
    ensures
        byte_offset(s, i) <= byte_offset(s, j),
    decreases j - i,
{
    if i < j {
        lemma_byte_offset_grows(s, i, j - 1);
    }
}

/// Find the array `<key> = [` … `]` and return the bounds of its content,
/// in bytes of the text, as string slicing takes them.
pub fn array_span(text: &str, key: &str) -> (r: Option<(usize, usize)>)
    requires
        byte_offset(text@, text@.len() as int) <= usize::MAX,
    ensures
        r matches Some((from, to)) ==> (array_bounds(text@, key@) matches Some((f, t))
            && from == byte_offset(text@, f) && to == byte_offset(text@, t)),
        r is None ==> array_bounds(text@, key@) is None,
{
    let t = chars_of(text);
    match array_bounds_exec(&t, &chars_of(key)) {
        None => None,
        Some((from, to)) => {
            proof {
                if t@.len() > 0 {
                    lemma_byte_offset_grows(t@, from as int, t@.len() as int);
                    lemma_byte_offset_grows(t@, to as int, t@.len() as int);
                }
            }
            Some((byte_offset_exec(&t, from), byte_offset_exec(&t, to)))
        }
    }
}

// ---------------------------------------------------------------------------
// The patches.

/// A line inserted just before an array closes — or, when the card has no
/// such array, the array created at the end of the card, around that line.
pub open spec fn inserted(text: Seq<char>, key: Seq<char>, line: Seq<char>) -> Seq<char> {
    match array_bounds(text, key) {
        Some((_, close)) => text.take(close) + line + "\n"@ + text.skip(close),
        None => trim_end(text) + "\n\n"@ + key + " = [\n"@ + line + "\n]\n"@,
    }
}

fn insert_chars(text: &Vec<char>, key: &Vec<char>, line: &Vec<char>) -> (r: Vec<char>)
    ensures
        r@ == inserted(text@, key@, line@),
{
    match array_bounds_exec(text, key) {
        Some((_, close)) => {
            let mut out = slice(text, 0, close);
            push_all(&mut out, line);
            push_str(&mut out, "\n");
            let rest = slice(text, close, text.len());
            push_all(&mut out, &rest);
            proof {
                assert(text@.subrange(0, close as int) =~= text@.take(close as int));
                assert(text@.subrange(close as int, text@.len() as int) =~= text@.skip(close as int));
            }
            out
        }
        None => {
            let mut out = trim_end_exec(text);
            push_str(&mut out, "\n\n");
            push_all(&mut out, key);
            push_str(&mut out, " = [\n");
            push_all(&mut out, line);
            push_str(&mut out, "\n]\n");
            out
        }
    }
}

/// Insert a line just before an array closes. If the array does not
/// exist, it is created at the end of the card.
pub fn insert_into_array(text: &str, key: &str, line: &str) -> (r: String)
    ensures
        r@ == inserted(text@, key@, line@),
{
    string_of(&insert_chars(&chars_of(text), &chars_of(key), &chars_of(line)))
}

/// The note of a line written while listening: where it comes from, and
/// since when.
pub open spec fn provenance_of(what: Seq<char>, today: Seq<char>) -> Seq<char> {
    basic_quoted(what + " while listening, "@ + today)
}

pub fn provenance(what: &str, today: &str) -> (r: String)
    ensures
        r@ == provenance_of(what@, today@),
{
    let mut note = chars_of(what);
    push_str(&mut note, " while listening, ");
    push_str(&mut note, today);
    string_of(&quote_exec(&note))
}

/// The quoted tags of a door, one after the other.
pub open spec fn quoted_all(tags: Seq<Seq<char>>) -> Seq<Seq<char>> {
    tags.map_values(|t: Seq<char>| basic_quoted(t))
}

pub open spec fn strings(v: Seq<String>) -> Seq<Seq<char>> {
    v.map_values(|s: String| s@)
}

/// A door of a card: a track, the directions it opens, and its note.
pub open spec fn door_line_of(title: Seq<char>, tags: Seq<Seq<char>>, today: Seq<char>) -> Seq<char> {
    "  { track = "@ + basic_quoted(title) + ", to = ["@ + join(quoted_all(tags), ", "@) + "], note = "@
        + provenance_of("set"@, today) + " },"@
}

fn quoted_list(tags: &Vec<String>) -> (r: Vec<Vec<char>>)
    ensures
        views(r@) == quoted_all(strings(tags@)),
{
    let mut r: Vec<Vec<char>> = Vec::new();
    let mut i: usize = 0;
    while i < tags.len()
        invariant
            i <= tags@.len(),
            views(r@) == quoted_all(strings(tags@)).take(i as int),
        decreases tags@.len() - i,
    {
        let q = quote_exec(&chars_of(tags[i].as_str()));
        let ghost before = r@;
        r.push(q);
        assert(views(r@) =~= views(before).push(q@));
        assert(quoted_all(strings(tags@)).take(i + 1) =~= quoted_all(strings(tags@)).take(i as int).push(basic_quoted(tags@[i as int]@)));
        i = i + 1;
    }
    assert(quoted_all(strings(tags@)).take(i as int) =~= quoted_all(strings(tags@)));
    r
}

pub fn door_line(title: &str, tags: &Vec<String>, today: &str) -> (r: String)
    ensures
        r@ == door_line_of(title@, strings(tags@), today@),
{
    let mut out = chars_of("  { track = ");
    push_all(&mut out, &quote_exec(&chars_of(title)));
    push_str(&mut out, ", to = [");
    push_all(&mut out, &join_of(&quoted_list(tags), &chars_of(", ")));
    push_str(&mut out, "], note = ");
    push_all(&mut out, &chars_of(provenance("set", today).as_str()));
    push_str(&mut out, " },");
    string_of(&out)
}

/// What an edit changed, said in one sentence — it is the commit message
/// and also what shows on screen.
pub struct Edit {
    pub summary: String,
    /// The detail, when an edit carries several.
    pub body: Option<String>,
    pub path: String,
    /// What else the same edit touched.
    pub also: Vec<String>,
}

/// The card of a door already holds this track as a door.
pub open spec fn already_a_door(text: Seq<char>, title: Seq<char>) -> bool {
    match array_bounds(text, "doors"@) {
        Some((from, to)) => contains(text.subrange(from, to), "track = "@ + basic_quoted(title)),
        None => false,
    }
}

// ---------------------------------------------------------------------------
// A door once added is found again.

proof fn lemma_first_at(t: Seq<char>, p: Seq<char>, from: int, i: int)
    requires
        0 <= from <= i,
        occurs_at(t, p, i),
        forall|j: int| from <= j < i ==> !occurs_at(t, p, j),
    ensures
        find_from(t, p, from) == Some(i),
{
    crate::text::lemma_find_from(t, p, from);
}

proof fn lemma_first_within(t: Seq<char>, p: Seq<char>, from: int, lo: int, k: int)
    requires
        0 <= from <= lo <= k,
        occurs_at(t, p, k),
        forall|j: int| from <= j < lo ==> !occurs_at(t, p, j),
    ensures
        find_from(t, p, from) matches Some(c) && lo <= c <= k && occurs_at(t, p, c),
{
    crate::text::lemma_find_from(t, p, from);
}

proof fn lemma_occurs_contains(s: Seq<char>, p: Seq<char>, k: int)
    requires
        occurs_at(s, p, k),
    ensures
        contains(s, p),
{
    crate::text::lemma_find_from(s, p, 0);
}

proof fn lemma_close_chars(t: Seq<char>, j: int)
    ensures
        occurs_at(t, "\n]"@, j) <==> (0 <= j && j + 2 <= t.len() && t[j] == '\n' && t[j + 1] == ']'),
{
    reveal_strlit("\n]");
    if 0 <= j && j + 2 <= t.len() && t[j] == '\n' && t[j + 1] == ']' {
        assert(t.subrange(j, j + 2) =~= "\n]"@);
    }
    if occurs_at(t, "\n]"@, j) {
        assert(t.subrange(j, j + 2)[0] == t[j]);
        assert(t.subrange(j, j + 2)[1] == t[j + 1]);
    }
}

/// The `[` of a `key = [` line that starts at `s` is the first one from `s`.
proof fn lemma_open_at(t: Seq<char>, key: Seq<char>, s: int)
    requires
        occurs_at(t, key + " = ["@, s),
        forall|i: int| 0 <= i < key.len() ==> key[i] != '[',
    ensures
        find_from(t, "["@, s) == Some(s + key.len() + 3),
{
    reveal_strlit(" = [");
    reveal_strlit("[");
    let l = key + " = ["@;
    assert(t.subrange(s, s + l.len()) == l);
    assert forall|j: int| s <= j < s + key.len() + 3 implies !occurs_at(t, "["@, j) by {
        assert(t[j] == t.subrange(s, s + l.len())[j - s]);
        if occurs_at(t, "["@, j) {
            assert(t.subrange(j, j + 1)[0] == t[j]);
        }
    }
    assert(t[s + key.len() + 3] == t.subrange(s, s + l.len())[key.len() as int + 3]);
    assert(t.subrange(s + key.len() + 3, s + key.len() + 4) =~= "["@);
    lemma_first_at(t, "["@, s, s + key.len() + 3);
}

proof fn lemma_escaped_no_newline(s: Seq<char>)
    requires
        forall|i: int| 0 <= i < s.len() ==> s[i] != '\n',
    ensures
        forall|i: int| 0 <= i < crate::text::escaped(s).len() ==> crate::text::escaped(s)[i] != '\n',
    decreases s.len(),
{
    if s.len() > 0 {
        let rest = s.drop_first();
        assert forall|i: int| 0 <= i < rest.len() implies rest[i] != '\n' by {
            assert(rest[i] == s[i + 1]);
        }
        lemma_escaped_no_newline(rest);
        let head = crate::text::escape_char(s[0]);
        let e = crate::text::escaped(s);
        assert(e == head + crate::text::escaped(rest));
        assert forall|i: int| 0 <= i < e.len() implies e[i] != '\n' by {
            if i < head.len() {
                assert(e[i] == head[i]);
            } else {
                assert(e[i] == crate::text::escaped(rest)[i - head.len()]);
            }
        }
    }
}

proof fn lemma_occurs_transfer(a: Seq<char>, b: Seq<char>, p: Seq<char>, j: int, n: int)
    requires
        n <= a.len(),
        n <= b.len(),
        forall|k: int| 0 <= k < n ==> a[k] == b[k],
        0 <= j,
        j + p.len() <= n,
    ensures
        occurs_at(a, p, j) <==> occurs_at(b, p, j),
{
    assert(a.subrange(j, j + p.len()) =~= b.subrange(j, j + p.len()));
}

/// Inside an array that already stands, the inserted line lies between the
/// array's brackets.
proof fn lemma_inserted_in_array(text: Seq<char>, key: Seq<char>, line: Seq<char>, m: int) -> (b: int)
    requires
        forall|i: int| 0 <= i < key.len() ==> key[i] != '\n' && key[i] != '[' && key[i] != ']',
        1 <= m <= line.len(),
        line[0] != ']',
        forall|i: int| 0 <= i < m ==> line[i] != '\n',
        array_bounds(text, key) is Some,
    ensures
        array_bounds(inserted(text, key, line), key) matches Some((f, t)) && f <= b && b + m <= t,
        0 <= b,
        b + line.len() <= inserted(text, key, line).len(),
        inserted(text, key, line).subrange(b, b + line.len()) == line,
{
    reveal_strlit(" = [");
    reveal_strlit("[");
    reveal_strlit("\n]");
    reveal_strlit("\n");
    let l = key + " = ["@;
    let h = seq!['\n'] + l;
    let kl = key.len() as int;
    lemma_bounds_in_text(text, key);
    let (from, to) = array_bounds(text, key).unwrap();
    let new = inserted(text, key, line);
    let ll = line.len() as int;
    assert(new == text.take(to) + line + "\n"@ + text.skip(to));
    assert(new.len() == text.len() + ll + 1);
    assert forall|j: int| 0 <= j < to implies new[j] == text[j] by {
        assert(new[j] == text.take(to)[j]);
    }
    assert forall|j: int| 0 <= j < ll implies new[to + j] == line[j] by {
        assert((text.take(to) + line)[to + j] == line[j]);
    }
    assert(new[to + ll] == '\n');
    let s: int = if l.is_prefix_of(text) { 0 } else { find_from(text, h, 0).unwrap() + 1 };
    crate::text::lemma_find_from(text, h, 0);
    if !l.is_prefix_of(text) {
        let i = find_from(text, h, 0).unwrap();
        assert(text.subrange(i + 1, i + 1 + l.len()) =~= text.subrange(i, i + h.len()).subrange(1, h.len() as int));
        assert(h.subrange(1, h.len() as int) =~= l);
    } else {
        assert(text.subrange(0, l.len() as int) =~= l);
    }
    assert(occurs_at(text, l, s));
    lemma_open_at(text, key, s);
    let open = s + kl + 3;
    crate::text::lemma_find_from(text, "\n]"@, open);
    let close = find_from(text, "\n]"@, open).unwrap();
    assert(from == open + 1 && to == close + 1);
    lemma_close_chars(text, close);
    assert(text[to] == ']');
    assert(new[to + ll + 1] == ']') by {
        assert(new[to + ll + 1] == text.skip(to)[0]);
    }
    // The start of the array is found where it was.
    if l.is_prefix_of(text) {
        assert(new.subrange(0, l.len() as int) =~= text.subrange(0, l.len() as int));
        assert(l.is_prefix_of(new));
    } else {
        let i = find_from(text, h, 0).unwrap();
        if l.is_prefix_of(new) {
            assert(new.subrange(0, l.len() as int) =~= text.subrange(0, l.len() as int));
            assert(false);
        }
        lemma_occurs_transfer(text, new, h, i, to);
        assert forall|j: int| 0 <= j < i implies !occurs_at(new, h, j) by {
            lemma_occurs_transfer(text, new, h, j, to);
        }
        lemma_first_at(new, h, 0, i);
    }
    lemma_occurs_transfer(text, new, l, s, to);
    lemma_open_at(new, key, s);
    // The first close after it is the one after the inserted line.
    assert forall|j: int| open <= j < to + m implies !occurs_at(new, "\n]"@, j) by {
        lemma_close_chars(new, j);
        if j < close {
            lemma_occurs_transfer(text, new, "\n]"@, j, to);
        } else if j == close {
            assert(new[j + 1] == line[0]);
        } else {
            assert(new[j] == line[j - to]);
        }
    }
    lemma_close_chars(new, to + ll);
    lemma_first_within(new, "\n]"@, open, to + m, to + ll);
    assert(new.subrange(to, to + ll) =~= line);
    to
}

/// Where the card has no such array yet, `inserted` appends one: the old
/// text without its trailing white space, a blank line, `key = [`, the line,
/// and the closing bracket.
proof fn lemma_new_array_layout(text: Seq<char>, key: Seq<char>, line: Seq<char>)
    requires
        array_bounds(text, key) is None,
    ensures ({
        let new = inserted(text, key, line);
        let n = trim_end(text).len() as int;
        let kl = key.len() as int;
        let ll = line.len() as int;
        let b = n + kl + 7;
        &&& n <= text.len()
        &&& new.len() == b + ll + 3
        &&& forall|j: int| 0 <= j < n ==> new[j] == text[j]
        &&& n > 0 ==> new[n - 1] != '\n'
        &&& new[n] == '\n' && new[n + 1] == '\n'
        &&& forall|j: int| 0 <= j < kl ==> new[n + 2 + j] == key[j]
        &&& new[n + 2 + kl] == ' ' && new[n + 3 + kl] == '=' && new[n + 4 + kl] == ' '
        &&& new[n + 5 + kl] == '[' && new[n + 6 + kl] == '\n'
        &&& forall|j: int| 0 <= j < ll ==> new[b + j] == line[j]
        &&& new[b + ll] == '\n' && new[b + ll + 1] == ']'
    }),
{
    reveal_strlit("\n\n");
    reveal_strlit(" = [\n");
    reveal_strlit("\n]\n");
    let kl = key.len() as int;
    let ll = line.len() as int;
    let tt = trim_end(text);
    crate::text::lemma_trim_end_shape(text);
    let n = tt.len() as int;
    let new = inserted(text, key, line);
    assert(new == tt + "\n\n"@ + key + " = [\n"@ + line + "\n]\n"@);
    let b = n + kl + 7;
    assert forall|j: int| 0 <= j < n implies new[j] == text[j] by {
        assert(new[j] == tt[j]);
        assert(tt[j] == text.take(n)[j]);
    }
    if n > 0 {
        assert(new[n - 1] == tt.last());
    }
    assert forall|j: int| 0 <= j < kl implies new[n + 2 + j] == key[j] by {
        assert((tt + "\n\n"@ + key)[n + 2 + j] == key[j]);
    }
    assert forall|j: int| 0 <= j < ll implies new[b + j] == line[j] by {
        assert((tt + "\n\n"@ + key + " = [\n"@ + line)[b + j] == line[j]);
    }
}

/// In the appended array, `key = [` stands after the blank line, and no
/// close stands from the end of the old text to the end of the line's first
/// `m` characters.
#[verifier::rlimit(60)]
#[verifier::spinoff_prover]
proof fn lemma_new_array_no_close(text: Seq<char>, key: Seq<char>, line: Seq<char>, m: int)
    requires
        forall|i: int| 0 <= i < key.len() ==> key[i] != '\n' && key[i] != '[' && key[i] != ']',
        1 <= m <= line.len(),
        line[0] != ']',
        forall|i: int| 0 <= i < m ==> line[i] != '\n',
        array_bounds(text, key) is None,
    ensures ({
        let new = inserted(text, key, line);
        let n = trim_end(text).len() as int;
        let b = n + key.len() + 7;
        &&& occurs_at(new, seq!['\n'] + (key + " = ["@), n + 1)
        &&& forall|j: int| n <= j < b + m ==> !occurs_at(new, "\n]"@, j)
    }),
{
    reveal_strlit("\n]");
    reveal_strlit("[");
    reveal_strlit(" = [");
    lemma_new_array_layout(text, key, line);
    let l = key + " = ["@;
    let h = seq!['\n'] + l;
    let kl = key.len() as int;
    let n = trim_end(text).len() as int;
    let new = inserted(text, key, line);
    let b = n + kl + 7;
    assert(new.subrange(n + 1, n + 1 + h.len()) =~= h) by {
        assert forall|j: int| 0 <= j < h.len() implies new.subrange(n + 1, n + 1 + h.len())[j] == h[j] by {
            if j == 0 {
            } else if j <= kl {
                assert(h[j] == key[j - 1]);
            } else {
                assert(h[j] == " = ["@[j - 1 - kl]);
            }
        }
    }
    assert forall|j: int| n <= j < b + m implies !occurs_at(new, "\n]"@, j) by {
        lemma_close_chars(new, j);
        if j == n {
        } else if j == n + 1 {
            if kl > 0 {
                assert(new[j + 1] == key[0]);
            }
        } else if j < n + 2 + kl {
            assert(new[j] == key[j - n - 2]);
        } else if j < n + kl + 6 {
        } else if j == n + kl + 6 {
            assert(new[j + 1] == line[0]);
        } else {
            assert(new[j] == line[j - b]);
        }
    }
}

/// The key's line of the appended array, and no close between it and the
/// end of the old text: where the card began with the key's line, that is
/// where the array opens.
#[verifier::rlimit(60)]
#[verifier::spinoff_prover]
proof fn lemma_new_array_open_at_start(text: Seq<char>, key: Seq<char>, line: Seq<char>) -> (open: int)
    requires
        forall|i: int| 0 <= i < key.len() ==> key[i] != '\n' && key[i] != '[' && key[i] != ']',
        array_bounds(text, key) is None,
        (key + " = ["@).is_prefix_of(inserted(text, key, line)),
    ensures
        0 <= open <= trim_end(text).len() + key.len() + 5,
        array_bounds(inserted(text, key, line), key) == (match find_from(inserted(text, key, line), "\n]"@, open) {
            Some(c) => Some((open + 1, c + 1)),
            None => None,
        }),
        forall|j: int| open <= j < trim_end(text).len() ==> !occurs_at(inserted(text, key, line), "\n]"@, j),
{
    reveal_strlit("\n]");
    reveal_strlit("[");
    reveal_strlit(" = [");
    lemma_new_array_layout(text, key, line);
    let l = key + " = ["@;
    let kl = key.len() as int;
    let n = trim_end(text).len() as int;
    let new = inserted(text, key, line);
    if n < l.len() {
        if n < kl {
            assert(l[n] == key[n]);
        } else {
            assert(l[n] == " = ["@[n - kl]);
        }
        assert(new.subrange(0, l.len() as int)[n] == new[n]);
        assert(false);
    }
    assert(new.subrange(0, l.len() as int) =~= text.subrange(0, l.len() as int));
    assert(occurs_at(new, l, 0));
    assert(occurs_at(text, l, 0));
    lemma_open_at(text, key, 0);
    lemma_open_at(new, key, 0);
    let open = kl + 3;
    crate::text::lemma_find_from(text, "\n]"@, open);
    assert forall|j: int| open <= j < n implies !occurs_at(new, "\n]"@, j) by {
        if j + 2 <= n {
            lemma_occurs_transfer(text, new, "\n]"@, j, n);
        } else {
            lemma_close_chars(new, j);
        }
    }
    open
}

/// The same where the card did not begin with the key's line: the first
/// `\nkey = [` is found, in the old text or where the array was appended.
#[verifier::rlimit(60)]
#[verifier::spinoff_prover]
proof fn lemma_new_array_open_found(text: Seq<char>, key: Seq<char>, line: Seq<char>) -> (open: int)
    requires
        forall|i: int| 0 <= i < key.len() ==> key[i] != '\n' && key[i] != '[' && key[i] != ']',
        array_bounds(text, key) is None,
        !(key + " = ["@).is_prefix_of(inserted(text, key, line)),
        occurs_at(inserted(text, key, line), seq!['\n'] + (key + " = ["@), trim_end(text).len() as int + 1),
    ensures
        0 <= open <= trim_end(text).len() + key.len() + 5,
        array_bounds(inserted(text, key, line), key) == (match find_from(inserted(text, key, line), "\n]"@, open) {
            Some(c) => Some((open + 1, c + 1)),
            None => None,
        }),
        forall|j: int| open <= j < trim_end(text).len() ==> !occurs_at(inserted(text, key, line), "\n]"@, j),
{
    reveal_strlit("\n]");
    reveal_strlit("[");
    reveal_strlit(" = [");
    lemma_new_array_layout(text, key, line);
    let l = key + " = ["@;
    let h = seq!['\n'] + l;
    let kl = key.len() as int;
    let n = trim_end(text).len() as int;
    let new = inserted(text, key, line);
    crate::text::lemma_find_from(new, h, 0);
    let i = find_from(new, h, 0).unwrap();
    assert(new.subrange(i + 1, i + 1 + l.len()) =~= new.subrange(i, i + h.len()).subrange(1, h.len() as int));
    assert(h.subrange(1, h.len() as int) =~= l);
    assert(occurs_at(new, l, i + 1));
    lemma_open_at(new, key, i + 1);
    let open = i + kl + 4;
    if i + h.len() <= n {
        lemma_occurs_transfer(text, new, h, i, n);
        assert forall|j: int| 0 <= j < i implies !occurs_at(text, h, j) by {
            lemma_occurs_transfer(text, new, h, j, n);
        }
        lemma_first_at(text, h, 0, i);
        if l.is_prefix_of(text) {
            assert(new.subrange(0, l.len() as int) =~= text.subrange(0, l.len() as int));
            assert(false);
        }
        lemma_occurs_transfer(text, new, l, i + 1, n);
        lemma_open_at(text, key, i + 1);
        crate::text::lemma_find_from(text, "\n]"@, open);
        assert forall|j: int| open <= j < n implies !occurs_at(new, "\n]"@, j) by {
            if j + 2 <= n {
                lemma_occurs_transfer(text, new, "\n]"@, j, n);
            } else {
                lemma_close_chars(new, j);
            }
        }
    }
    open
}

/// Where the card has no such array yet, the inserted line lies between the
/// brackets of the array that is made for it.
proof fn lemma_inserted_new_array(text: Seq<char>, key: Seq<char>, line: Seq<char>, m: int) -> (b: int)
    requires
        forall|i: int| 0 <= i < key.len() ==> key[i] != '\n' && key[i] != '[' && key[i] != ']',
        1 <= m <= line.len(),
        line[0] != ']',
        forall|i: int| 0 <= i < m ==> line[i] != '\n',
        array_bounds(text, key) is None,
    ensures
        array_bounds(inserted(text, key, line), key) matches Some((f, t)) && f <= b && b + m <= t,
        0 <= b,
        b + line.len() <= inserted(text, key, line).len(),
        inserted(text, key, line).subrange(b, b + line.len()) == line,
{
    reveal_strlit("\n]");
    lemma_new_array_layout(text, key, line);
    lemma_new_array_no_close(text, key, line, m);
    let kl = key.len() as int;
    let ll = line.len() as int;
    let n = trim_end(text).len() as int;
    let new = inserted(text, key, line);
    let b = n + kl + 7;
    let open = if (key + " = ["@).is_prefix_of(new) {
        lemma_new_array_open_at_start(text, key, line)
    } else {
        lemma_new_array_open_found(text, key, line)
    };
    assert forall|j: int| open <= j < b + m implies !occurs_at(new, "\n]"@, j) by {}
    lemma_close_chars(new, b + ll);
    lemma_first_within(new, "\n]"@, open, b + m, b + ll);
    assert(new.subrange(b, b + ll) =~= line);
    b
}

/// `line` inserted into the array of `key` lies within that array
/// afterwards, whether the array stood already or was made for it.
proof fn lemma_inserted_found(text: Seq<char>, key: Seq<char>, pre: Seq<char>, p: Seq<char>, rest: Seq<char>)
    requires
        forall|i: int| 0 <= i < key.len() ==> key[i] != '\n' && key[i] != '[' && key[i] != ']',
        pre.len() > 0,
        pre[0] != ']',
        forall|i: int| 0 <= i < pre.len() ==> pre[i] != '\n',
        forall|i: int| 0 <= i < p.len() ==> p[i] != '\n',
    ensures
        array_bounds(inserted(text, key, pre + p + rest), key) matches Some((f, t))
            && contains(inserted(text, key, pre + p + rest).subrange(f, t), p),
{
    let line = pre + p + rest;
    let m: int = (pre.len() + p.len()) as int;
    assert(line[0] == pre[0]);
    assert forall|i: int| 0 <= i < m implies line[i] != '\n' by {
        if i < pre.len() {
            assert(line[i] == pre[i]);
        } else {
            assert(line[i] == p[i - pre.len()]);
        }
    }
    let new = inserted(text, key, line);
    let b = if array_bounds(text, key) is Some {
        lemma_inserted_in_array(text, key, line, m)
    } else {
        lemma_inserted_new_array(text, key, line, m)
    };
    lemma_bounds_in_text(new, key);
    let (f, t) = array_bounds(new, key).unwrap();
    let sub = new.subrange(f, t);
    let k = b + pre.len() - f;
    assert(sub.subrange(k, k + p.len()) =~= p) by {
        assert forall|j: int| 0 <= j < p.len() implies sub.subrange(k, k + p.len())[j] == p[j] by {
            assert(sub[k + j] == new[b + pre.len() + j]);
            assert(new[b + pre.len() + j] == new.subrange(b, b + line.len())[pre.len() + j]);
            assert(line[pre.len() + j] == p[j]);
        }
    }
    lemma_occurs_contains(sub, p, k);
}

/// A door once added is found again: on the card that `add_door` gives
/// back, the same title is already a door, so a second `add_door` for it
/// is refused. (A title that holds a line break can close the array early,
/// so the titles here hold none.)
pub proof fn a_door_once_added_is_a_door(text: Seq<char>, title: Seq<char>, tags: Seq<Seq<char>>, today: Seq<char>)
    requires
        forall|i: int| 0 <= i < title.len() ==> title[i] != '\n',
    ensures
        already_a_door(inserted(text, "doors"@, door_line_of(title, tags, today)), title),
{
    reveal_strlit("doors");
    reveal_strlit("  { track = ");
    reveal_strlit("  { ");
    reveal_strlit("track = ");
    let q = basic_quoted(title);
    lemma_escaped_no_newline(title);
    let p = "track = "@ + q;
    assert forall|i: int| 0 <= i < p.len() implies p[i] != '\n' by {
        if i >= 8 {
            let e = crate::text::escaped(title);
            assert(q == seq!['"'] + e + seq!['"']);
            if i - 8 >= 1 && i - 8 < 1 + e.len() {
                assert(q[i - 8] == e[i - 9]);
            }
        }
    }
    let rest = ", to = ["@ + join(quoted_all(tags), ", "@) + "], note = "@ + provenance_of("set"@, today) + " },"@;
    assert("  { track = "@ =~= "  { "@ + "track = "@);
    assert(door_line_of(title, tags, today) =~= "  { "@ + p + rest);
    assert forall|i: int| 0 <= i < "doors"@.len() implies "doors"@[i] != '\n' && "doors"@[i] != '[' && "doors"@[i] != ']' by {}
    lemma_inserted_found(text, "doors"@, "  { "@, p, rest);
}

/// A door is refused as a duplicate only when the card's `doors` array
/// holds a door whose track is that title: a card with no `doors` array, or
/// whose doors hold no such track, takes the door — whatever its tops say.
pub proof fn only_a_door_blocks_a_door(text: Seq<char>, title: Seq<char>)
    ensures
        array_bounds(text, "doors"@) is None ==> !already_a_door(text, title),
        array_bounds(text, "doors"@) matches Some((from, to)) ==> (already_a_door(text, title)
            <==> contains(text.subrange(from, to), "track = "@ + basic_quoted(title))),
{
}

/// `td` — make a track a **door** towards a direction. `card` is the
/// card's text as it was read, or why it could not be; the answer is the
/// text to write back, and the edit to commit.
pub fn add_door(
    card: Result<String, String>,
    dir: &str,
    slug: &str,
    name: &str,
    title: &str,
    tags: &Vec<String>,
    today: &str,
) -> (r: Result<(String, Edit), String>)
    ensures
        tags@.len() == 0 ==> (r matches Err(e) && e@ == "no direction to give this door"@),
        tags@.len() > 0 && card is Ok ==> (r is Ok <==> !(array_bounds(card->Ok_0@, "doors"@) matches Some((from, to))
            && contains(card->Ok_0@.subrange(from, to), "track = "@ + basic_quoted(title@)))),
        tags@.len() > 0 ==> match card {
            Err(why) => (r matches Err(e) && e@ == why@),
            Ok(text) => if already_a_door(text@, title@) {
                (r matches Err(e) && e@ == "\""@ + title@ + "\" is already a door"@)
            } else {
                (r matches Ok((updated, edit)) && updated@ == inserted(
                    text@,
                    "doors"@,
                    door_line_of(title@, strings(tags@), today@),
                ) && edit.summary@ == name@ + " — door: "@ + title@ + " → "@ + join(strings(tags@), ", "@)
                    && edit.body is None && edit.path@ == card_path_of(dir@, slug@)
                    && edit.also@.len() == 0)
            },
        },
{
    if tags.len() == 0 {
        return Err(string_of(&chars_of("no direction to give this door")));
    }
    let text = match card {
        Ok(t) => chars_of(t.as_str()),
        Err(why) => { return Err(why); }
    };
    let doors = chars_of("doors");
    if let Some((from, to)) = array_bounds_exec(&text, &doors) {
        let inside = slice(&text, from, to);
        let mut needle = chars_of("track = ");
        push_all(&mut needle, &quote_exec(&chars_of(title)));
        if contains_in(&inside, &needle) {
            let mut e = chars_of("\"");
            push_str(&mut e, title);
            push_str(&mut e, "\" is already a door");
            return Err(string_of(&e));
        }
    }
    let line = chars_of(door_line(title, tags, today).as_str());
    let updated = insert_chars(&text, &doors, &line);
    let mut summary = chars_of(name);
    push_str(&mut summary, " — door: ");
    push_str(&mut summary, title);
    push_str(&mut summary, " → ");
    let mut list: Vec<Vec<char>> = Vec::new();
    let mut i: usize = 0;
    while i < tags.len()
        invariant
            i <= tags@.len(),
            views(list@) == strings(tags@).take(i as int),
        decreases tags@.len() - i,
    {
        let ghost before = list@;
        let item = chars_of(tags[i].as_str());
        list.push(item);
        assert(views(list@) =~= views(before).push(item@));
        assert(strings(tags@).take(i + 1) =~= strings(tags@).take(i as int).push(tags@[i as int]@));
        i = i + 1;
    }
    assert(strings(tags@).take(i as int) =~= strings(tags@));
    push_all(&mut summary, &join_of(&list, &chars_of(", ")));
    Ok((
        string_of(&updated),
        Edit { summary: string_of(&summary), body: None, path: card_path(dir, slug), also: Vec::new() },
    ))
}

/// `ae`: the card was edited by hand; what changed is the diff, the commit
/// only says who and how.
pub fn edited_by_hand(dir: &str, slug: &str, name: &str) -> (e: Edit)
    ensures
        e.summary@ == name@ + " — edited by hand"@,
        e.body is None,
        e.path@ == card_path_of(dir@, slug@),
        e.also@.len() == 0,
{
    let mut summary = chars_of(name);
    push_str(&mut summary, " — edited by hand");
    Edit { summary: string_of(&summary), body: None, path: card_path(dir, slug), also: Vec::new() }
}

// ---------------------------------------------------------------------------
// The tops of a card, in batch.

/// A line that writes this (quoted) title as an entry of an array.
pub open spec fn is_entry_line(line: Seq<char>, needle: Seq<char>) -> bool {
    needle.is_prefix_of(trim_start(line)) && ","@.is_suffix_of(trim_end(line))
}

/// The lines that are not an entry of this title.
pub open spec fn kept_lines(ls: Seq<Seq<char>>, needle: Seq<char>) -> Seq<Seq<char>>
    decreases ls.len(),
{
    if ls.len() == 0 {
        seq![]
    } else if is_entry_line(ls.last(), needle) {
        kept_lines(ls.drop_last(), needle)
    } else {
        kept_lines(ls.drop_last(), needle).push(ls.last())
    }
}

/// A top taken out of a card: every line that writes it goes. `None` when
/// no line did.
pub open spec fn without_top(text: Seq<char>, title: Seq<char>) -> Option<Seq<char>> {
    let kept = kept_lines(lines(text), basic_quoted(title));
    if kept.len() != lines(text).len() { Some(join(kept, "\n"@) + "\n"@) } else { None }
}

/// A top added to a card, at the end of its `tops` array. `None` when the
/// array already holds it.
pub open spec fn with_top(text: Seq<char>, title: Seq<char>) -> Option<Seq<char>> {
    match array_bounds(text, "tops"@) {
        Some((from, to)) if contains(text.subrange(from, to), basic_quoted(title)) => None,
        _ => Some(inserted(text, "tops"@, "  "@ + basic_quoted(title) + ","@)),
    }
}

/// The removals, in order: the text after them, and the titles that did
/// leave the card.
pub open spec fn after_removals(text: Seq<char>, titles: Seq<Seq<char>>) -> (Seq<char>, Seq<Seq<char>>)
    decreases titles.len(),
{
    if titles.len() == 0 {
        (text, seq![])
    } else {
        let (t, done) = after_removals(text, titles.drop_last());
        match without_top(t, titles.last()) {
            Some(u) => (u, done.push(titles.last())),
            None => (t, done),
        }
    }
}

/// The additions, in order: the text after them, and the titles that did
/// enter the card. A title the same batch removes does not enter.
pub open spec fn after_additions(text: Seq<char>, titles: Seq<Seq<char>>, removes: Seq<Seq<char>>) -> (Seq<char>, Seq<Seq<char>>)
    decreases titles.len(),
{
    if titles.len() == 0 {
        (text, seq![])
    } else {
        let (t, done) = after_additions(text, titles.drop_last(), removes);
        if removes.contains(titles.last()) {
            (t, done)
        } else {
            match with_top(t, titles.last()) {
                Some(u) => (u, done.push(titles.last())),
                None => (t, done),
            }
        }
    }
}

fn listed(v: &Vec<Vec<char>>, x: &Vec<char>) -> (r: bool)
    ensures
        r == views(v@).contains(x@),
{
    let mut i: usize = 0;
    while i < v.len()
        invariant
            i <= v@.len(),
            forall|k: int| 0 <= k < i ==> views(v@)[k] != x@,
        decreases v@.len() - i,
    {
        if crate::text::same(&v[i], x) {
            assert(views(v@)[i as int] == x@);
            return true;
        }
        i = i + 1;
    }
    false
}

/// The body of a batch: `+ title` for each addition, then `− title` for
/// each removal, one per line.
pub open spec fn batch_lines(added: Seq<Seq<char>>, removed: Seq<Seq<char>>) -> Seq<Seq<char>> {
    added.map_values(|t: Seq<char>| "+ "@ + t) + removed.map_values(|t: Seq<char>| "− "@ + t)
}

fn without_top_exec(text: &Vec<char>, title: &Vec<char>) -> (r: Option<Vec<char>>)
    ensures
        r matches Some(u) ==> without_top(text@, title@) == Some(u@),
        r is None ==> without_top(text@, title@) is None,
{
    let needle = quote_exec(title);
    let comma = chars_of(",");
    let all = lines_of(text);
    let mut kept: Vec<Vec<char>> = Vec::new();
    let mut i: usize = 0;
    while i < all.len()
        invariant
            i <= all@.len(),
            views(kept@) == kept_lines(views(all@).take(i as int), needle@),
            comma@ == ","@,
        decreases all@.len() - i,
    {
        let line = &all[i];
        let start = trim_start_exec(line);
        let end = trim_end_exec(line);
        let ghost before = kept@;
        let entry = starts_with(&start, &needle) && ends_with(&end, &comma);
        proof {
            assert(views(all@).take(i + 1).drop_last() =~= views(all@).take(i as int));
            assert(views(all@).take(i + 1).last() == all@[i as int]@);
        }
        if !entry {
            kept.push(slice(line, 0, line.len()));
            assert(line@.subrange(0, line@.len() as int) =~= line@);
            assert(views(kept@) =~= views(before).push(line@));
        }
        i = i + 1;
    }
    assert(views(all@).take(i as int) =~= views(all@));
    assert(views(all@) == lines(text@));
    proof {
        lemma_kept_len(views(all@), needle@);
    }
    if kept.len() != all.len() {
        let mut out = join_of(&kept, &chars_of("\n"));
        push_str(&mut out, "\n");
        Some(out)
    } else {
        None
    }
}

proof fn lemma_kept_len(ls: Seq<Seq<char>>, needle: Seq<char>)
    ensures
        kept_lines(ls, needle).len() <= ls.len(),
    decreases ls.len(),
{
    if ls.len() > 0 {
        lemma_kept_len(ls.drop_last(), needle);
    }
}

fn with_top_exec(text: &Vec<char>, title: &Vec<char>) -> (r: Option<Vec<char>>)
    ensures
        r matches Some(u) ==> with_top(text@, title@) == Some(u@),
        r is None ==> with_top(text@, title@) is None,
{
    let q = quote_exec(title);
    if let Some((from, to)) = array_bounds_exec(text, &chars_of("tops")) {
        if contains_in(&slice(text, from, to), &q) {
            return None;
        }
    }
    let mut line = chars_of("  ");
    push_all(&mut line, &q);
    push_str(&mut line, ",");
    Some(insert_chars(text, &chars_of("tops"), &line))
}

fn titles_of(v: &Vec<String>) -> (r: Vec<Vec<char>>)
    ensures
        views(r@) == strings(v@),
{
    let mut r: Vec<Vec<char>> = Vec::new();
    let mut i: usize = 0;
    while i < v.len()
        invariant
            i <= v@.len(),
            views(r@) == strings(v@).take(i as int),
        decreases v@.len() - i,
    {
        let ghost before = r@;
        let item = chars_of(v[i].as_str());
        r.push(item);
        assert(views(r@) =~= views(before).push(item@));
        assert(strings(v@).take(i + 1) =~= strings(v@).take(i as int).push(v@[i as int]@));
        i = i + 1;
    }
    assert(strings(v@).take(i as int) =~= strings(v@));
    r
}

/// Each title behind its mark, for the body of a batch.
fn marked(marker: &str, titles: &Vec<Vec<char>>, out: &mut Vec<Vec<char>>)
    ensures
        views(final(out)@) == views(old(out)@) + views(titles@).map_values(|t: Seq<char>| marker@ + t),
{
    let mut i: usize = 0;
    while i < titles.len()
        invariant
            i <= titles@.len(),
            views(out@) == views(old(out)@) + views(titles@).take(i as int).map_values(|t: Seq<char>| marker@ + t),
        decreases titles@.len() - i,
    {
        let ghost before = out@;
        let mut line = chars_of(marker);
        push_all(&mut line, &titles[i]);
        out.push(line);
        assert(views(out@) =~= views(before).push(line@));
        assert(views(titles@).take(i + 1).map_values(|t: Seq<char>| marker@ + t)
            =~= views(titles@).take(i as int).map_values(|t: Seq<char>| marker@ + t).push(marker@ + titles@[i as int]@));
        i = i + 1;
    }
    assert(views(titles@).take(i as int) =~= views(titles@));
}

/// The **batch** of the discography screen: tops fixed in a row leave in
/// one read, one write, one commit. Removals go first, and an addition the
/// same batch removes is dropped: promoting then removing the same title in
/// the same batch leaves it out.
pub fn set_tops(
    card: Result<String, String>,
    dir: &str,
    slug: &str,
    name: &str,
    adds: &Vec<String>,
    removes: &Vec<String>,
) -> (r: Result<(String, Edit), String>)
    ensures
        adds@.len() == 0 && removes@.len() == 0 ==> (r matches Err(e) && e@ == "nothing to write"@),
        adds@.len() > 0 || removes@.len() > 0 ==> match card {
            Err(why) => (r matches Err(e) && e@ == why@),
            Ok(text) => {
                let (t1, removed) = after_removals(text@, strings(removes@));
                let (t2, added) = after_additions(t1, strings(adds@), strings(removes@));
                if added.len() == 0 && removed.len() == 0 {
                    r matches Err(e) && e@ == "the card's tops already said so"@
                } else {
                    r matches Ok((updated, edit)) && updated@ == t2
                        && edit.summary@ == name@ + " — tops: +"@ + decimal(added.len()) + " −"@
                            + decimal(removed.len())
                        && (edit.body matches Some(b) && b@ == join(batch_lines(added, removed), "\n"@))
                        && edit.path@ == card_path_of(dir@, slug@) && edit.also@.len() == 0
                }
            },
        },
{
    if adds.len() == 0 && removes.len() == 0 {
        return Err(string_of(&chars_of("nothing to write")));
    }
    let mut text = match card {
        Ok(t) => chars_of(t.as_str()),
        Err(why) => { return Err(why); }
    };
    let ghost initial = text@;
    let removes_c = titles_of(removes);
    let adds_c = titles_of(adds);
    let mut removed: Vec<Vec<char>> = Vec::new();
    let mut i: usize = 0;
    while i < removes_c.len()
        invariant
            i <= removes_c@.len(),
            views(removes_c@) == strings(removes@),
            (text@, views(removed@)) == after_removals(initial, views(removes_c@).take(i as int)),
        decreases removes_c@.len() - i,
    {
        proof {
            let t = views(removes_c@).take(i + 1);
            assert(t.drop_last() =~= views(removes_c@).take(i as int));
            assert(t.last() == removes_c@[i as int]@);
        }
        let ghost before = removed@;
        match without_top_exec(&text, &removes_c[i]) {
            Some(u) => {
                text = u;
                removed.push(slice(&removes_c[i], 0, removes_c[i].len()));
                assert(removes_c@[i as int]@.subrange(0, removes_c@[i as int]@.len() as int) =~= removes_c@[i as int]@);
                assert(views(removed@) =~= views(before).push(removes_c@[i as int]@));
            }
            None => {}
        }
        i = i + 1;
    }
    assert(views(removes_c@).take(i as int) =~= views(removes_c@));
    let ghost t1 = text@;
    let mut added: Vec<Vec<char>> = Vec::new();
    let mut j: usize = 0;
    while j < adds_c.len()
        invariant
            j <= adds_c@.len(),
            views(adds_c@) == strings(adds@),
            views(removes_c@) == strings(removes@),
            (text@, views(added@)) == after_additions(t1, views(adds_c@).take(j as int), views(removes_c@)),
        decreases adds_c@.len() - j,
    {
        proof {
            let t = views(adds_c@).take(j + 1);
            assert(t.drop_last() =~= views(adds_c@).take(j as int));
            assert(t.last() == adds_c@[j as int]@);
        }
        let ghost before = added@;
        if listed(&removes_c, &adds_c[j]) {
            j = j + 1;
            continue;
        }
        match with_top_exec(&text, &adds_c[j]) {
            Some(u) => {
                text = u;
                added.push(slice(&adds_c[j], 0, adds_c[j].len()));
                assert(adds_c@[j as int]@.subrange(0, adds_c@[j as int]@.len() as int) =~= adds_c@[j as int]@);
                assert(views(added@) =~= views(before).push(adds_c@[j as int]@));
            }
            None => {}
        }
        j = j + 1;
    }
    assert(views(adds_c@).take(j as int) =~= views(adds_c@));
    if added.len() == 0 && removed.len() == 0 {
        return Err(string_of(&chars_of("the card's tops already said so")));
    }
    let mut lines: Vec<Vec<char>> = Vec::new();
    marked("+ ", &added, &mut lines);
    marked("− ", &removed, &mut lines);
    assert(views(lines@) =~= batch_lines(views(added@), views(removed@)));
    let body = join_of(&lines, &chars_of("\n"));
    let mut summary = chars_of(name);
    push_str(&mut summary, " — tops: +");
    push_all(&mut summary, &decimal_of(added.len() as u64));
    push_str(&mut summary, " −");
    push_all(&mut summary, &decimal_of(removed.len() as u64));
    Ok((
        string_of(&text),
        Edit {
            summary: string_of(&summary),
            body: Some(string_of(&body)),
            path: card_path(dir, slug),
            also: Vec::new(),
        },
    ))
}

/// The body of a generated card's commit.
pub open spec fn generated_body(tops: nat, links: nat) -> Seq<char> {
    decimal(tops) + " top(s), "@ + decimal(links) + " link(s) — MusicBrainz and Deezer.\ngenerated = true: to review."@
}

fn generated_body_exec(tops: usize, links: usize) -> (r: Vec<char>)
    ensures
        r@ == generated_body(tops as nat, links as nat),
{
    let mut b = decimal_of(tops as u64);
    push_str(&mut b, " top(s), ");
    push_all(&mut b, &decimal_of(links as u64));
    push_str(&mut b, " link(s) — MusicBrainz and Deezer.\ngenerated = true: to review.");
    b
}

/// **Generating a card**: the only edit that creates a file instead of
/// patching one. It refuses to overwrite an existing card: a generation is
/// an addition. `exists` says whether the card's file is already there;
/// the caller writes the text at the edit's path when this says yes.
pub fn create_card(exists: bool, dir: &str, slug: &str, name: &str, tops: usize, links: usize) -> (r: Result<Edit, String>)
    ensures
        exists ==> (r matches Err(e) && e@ == name@ + " already has a card"@),
        !exists ==> (r matches Ok(edit) && edit.summary@ == name@ + " — card generated"@
            && (edit.body matches Some(b) && b@ == generated_body(tops as nat, links as nat))
            && edit.path@ == card_path_of(dir@, slug@) && edit.also@.len() == 0),
{
    if exists {
        let mut e = chars_of(name);
        push_str(&mut e, " already has a card");
        return Err(string_of(&e));
    }
    let mut summary = chars_of(name);
    push_str(&mut summary, " — card generated");
    Ok(Edit {
        summary: string_of(&summary),
        body: Some(string_of(&generated_body_exec(tops, links))),
        path: card_path(dir, slug),
        also: Vec::new(),
    })
}

/// The id a card was born under: its first `mbid = ` line, quotes trimmed.
pub open spec fn old_mbid(ls: Seq<Seq<char>>) -> Seq<char>
    decreases ls.len(),
{
    if ls.len() == 0 {
        "no mbid"@
    } else if "mbid = "@.is_prefix_of(ls[0]) {
        trim_quotes(ls[0].skip(("mbid = "@).len() as int))
    } else {
        old_mbid(ls.drop_first())
    }
}

/// How many `"` a sequence starts with.
pub open spec fn lead_quotes(s: Seq<char>) -> nat
    decreases s.len(),
{
    if s.len() > 0 && s[0] == '"' { 1 + lead_quotes(s.drop_first()) } else { 0 }
}

/// How many `"` a sequence ends with.
pub open spec fn trail_quotes(s: Seq<char>) -> nat
    decreases s.len(),
{
    if s.len() > 0 && s.last() == '"' { 1 + trail_quotes(s.drop_last()) } else { 0 }
}

/// Every `"` at either end taken away, as `trim_matches('"')` does.
pub open spec fn trim_quotes(s: Seq<char>) -> Seq<char> {
    let t = s.skip(lead_quotes(s) as int);
    t.take(t.len() - trail_quotes(t))
}

proof fn lemma_lead_quotes(s: Seq<char>, i: int)
    requires
        0 <= i <= s.len(),
        forall|j: int| 0 <= j < i ==> s[j] == '"',
        i < s.len() ==> s[i] != '"',
    ensures
        lead_quotes(s) == i,
    decreases i,
{
    if i > 0 {
        assert forall|j: int| 0 <= j < i - 1 implies s.drop_first()[j] == '"' by {
            assert(s.drop_first()[j] == s[j + 1]);
        }
        if i < s.len() {
            assert(s.drop_first()[i - 1] == s[i]);
        }
        lemma_lead_quotes(s.drop_first(), i - 1);
    }
}

proof fn lemma_trail_quotes(s: Seq<char>, i: int)
    requires
        0 <= i <= s.len(),
        forall|j: int| s.len() - i <= j < s.len() ==> s[j] == '"',
        i < s.len() ==> s[s.len() - 1 - i] != '"',
    ensures
        trail_quotes(s) == i,
    decreases i,
{
    if i > 0 {
        let t = s.drop_last();
        assert forall|j: int| t.len() - (i - 1) <= j < t.len() implies t[j] == '"' by {
            assert(t[j] == s[j]);
        }
        if i < s.len() {
            assert(t[t.len() - 1 - (i - 1)] == s[s.len() - 1 - i]);
        }
        lemma_trail_quotes(t, i - 1);
    }
}

fn trim_quotes_exec(s: &Vec<char>) -> (r: Vec<char>)
    ensures
        r@ == trim_quotes(s@),
{
    let mut a: usize = 0;
    while a < s.len() && s[a] == '"'
        invariant
            a <= s@.len(),
            forall|j: int| 0 <= j < a ==> s@[j] == '"',
        decreases s@.len() - a,
    {
        a = a + 1;
    }
    proof { lemma_lead_quotes(s@, a as int); }
    let t = slice(s, a, s.len());
    let mut b: usize = 0;
    while b < t.len() && t[t.len() - 1 - b] == '"'
        invariant
            b <= t@.len(),
            forall|j: int| t@.len() - b <= j < t@.len() ==> t@[j] == '"',
        decreases t@.len() - b,
    {
        b = b + 1;
    }
    proof {
        lemma_trail_quotes(t@, b as int);
        assert(t@ =~= s@.skip(a as int));
    }
    slice(&t, 0, t.len() - b)
}

fn old_mbid_exec(ls: &Vec<Vec<char>>) -> (r: Vec<char>)
    ensures
        r@ == old_mbid(views(ls@)),
{
    let prefix = chars_of("mbid = ");
    let mut i: usize = 0;
    assert(views(ls@).skip(0) =~= views(ls@));
    while i < ls.len()
        invariant
            i <= ls@.len(),
            prefix@ == "mbid = "@,
            old_mbid(views(ls@)) == old_mbid(views(ls@).skip(i as int)),
        decreases ls@.len() - i,
    {
        assert(views(ls@).skip(i as int)[0] == ls@[i as int]@);
        assert(views(ls@).skip(i as int).drop_first() =~= views(ls@).skip(i + 1));
        if starts_with(&ls[i], &prefix) {
            assert(ls@[i as int]@.subrange(prefix@.len() as int, ls@[i as int]@.len() as int) =~= ls@[i as int]@.skip(prefix@.len() as int));
            return trim_quotes_exec(&slice(&ls[i], prefix.len(), ls[i].len()));
        }
        i = i + 1;
    }
    assert(views(ls@).skip(i as int) =~= Seq::<Seq<char>>::empty());
    chars_of("no mbid")
}

/// Rewrite an existing card from the sources. The whole text goes, hand
/// edits included; `was` names who the card used to be, for the commit,
/// with the id it carried. `exists` says whether the card's file is there,
/// `before` is its text as it was read.
pub fn regenerate_card(
    exists: bool,
    before: Result<String, String>,
    dir: &str,
    slug: &str,
    name: &str,
    tops: usize,
    links: usize,
    was: &str,
) -> (r: Result<Edit, String>)
    ensures
        !exists ==> (r matches Err(e) && e@ == name@ + " has no card to regenerate"@),
        exists ==> match before {
            Err(why) => (r matches Err(e) && e@ == why@),
            Ok(text) => (r matches Ok(edit) && edit.summary@ == name@ + " — card regenerated"@
                && (edit.body matches Some(b) && b@ == "Was "@ + was@ + " ("@ + old_mbid(lines(text@))
                    + ").\n"@ + generated_body(tops as nat, links as nat))
                && edit.path@ == card_path_of(dir@, slug@) && edit.also@.len() == 0),
        },
{
    if !exists {
        let mut e = chars_of(name);
        push_str(&mut e, " has no card to regenerate");
        return Err(string_of(&e));
    }
    let text = match before {
        Ok(t) => chars_of(t.as_str()),
        Err(why) => { return Err(why); }
    };
    let ls = lines_of(&text);
    let mbid = old_mbid_exec(&ls);

    let mut body = chars_of("Was ");
    push_str(&mut body, was);
    push_str(&mut body, " (");
    push_all(&mut body, &mbid);
    push_str(&mut body, ").\n");
    push_all(&mut body, &generated_body_exec(tops, links));
    let mut summary = chars_of(name);
    push_str(&mut summary, " — card regenerated");
    Ok(Edit {
        summary: string_of(&summary),
        body: Some(string_of(&body)),
        path: card_path(dir, slug),
        also: Vec::new(),
    })
}

} // verus!
