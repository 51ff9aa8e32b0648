//! **Generating a card on the fly**: MusicBrainz for identity, dates,
//! origin, genres and typed relations; Deezer, keyless, for the top tracks
//! and the similar artists. The calls themselves belong to the caller —
//! they block, and MusicBrainz wants one request a second — and the answers
//! come back here, where the card is decided and written.

use vstd::prelude::*;
use crate::text::{
    chars_of, string_of, slice, push_all, push_str, join, join_of, views, split, split_of, same,
    is_ascii_alnum, is_ascii_alnum_exec, is_ascii_hex, is_ascii_hex_exec, is_ascii_digit,
    is_ascii_digit_exec, ascii_lower, ascii_lower_exec, uppercase, to_uppercase, find_from, find,
    lemma_find_from, same_str, occurs_at,
    find_in, decimal, decimal_of, rfind, rfind_upto, rfind_in, contains, contains_in, lowercase,
    to_lowercase, quoted, quote_exec, is_ascii_text, ascii_lowered,
};
use crate::edit::{byte_offset, utf8_width, strings, quoted_all};

verus! {

// ---------------------------------------------------------------------------
// The catalog's slug rule: ASCII, lower case, words joined by hyphens.

/// Accented latin letters down to ASCII. Anything else stays as it is, and
/// falls out later at the slug's separators.
pub open spec fn fold_char(c: char) -> char {
    let n = c as u32;
    if (0xe0 <= n && n <= 0xe5) || (0xc0 <= n && n <= 0xc5) || n == 0xe6 || n == 0xc6 { 'a' }
    else if (0xe8 <= n && n <= 0xeb) || (0xc8 <= n && n <= 0xcb) { 'e' }
    else if (0xec <= n && n <= 0xef) || (0xcc <= n && n <= 0xcf) { 'i' }
    else if (0xf2 <= n && n <= 0xf6) || (0xd2 <= n && n <= 0xd6) || n == 0xf8 || n == 0xd8 { 'o' }
    else if (0xf9 <= n && n <= 0xfc) || (0xd9 <= n && n <= 0xdc) { 'u' }
    else if n == 0xe7 || n == 0xc7 { 'c' }
    else if n == 0xf1 || n == 0xd1 { 'n' }
    else if n == 0xfd || n == 0xff || n == 0xdd { 'y' }
    else { c }
}

pub fn fold(c: char) -> (r: char)
    ensures
        r == fold_char(c),
{
    let n = c as u32;
    if (0xe0 <= n && n <= 0xe5) || (0xc0 <= n && n <= 0xc5) || n == 0xe6 || n == 0xc6 { 'a' }
    else if (0xe8 <= n && n <= 0xeb) || (0xc8 <= n && n <= 0xcb) { 'e' }
    else if (0xec <= n && n <= 0xef) || (0xcc <= n && n <= 0xcf) { 'i' }
    else if (0xf2 <= n && n <= 0xf6) || (0xd2 <= n && n <= 0xd6) || n == 0xf8 || n == 0xd8 { 'o' }
    else if (0xf9 <= n && n <= 0xfc) || (0xd9 <= n && n <= 0xdc) { 'u' }
    else if n == 0xe7 || n == 0xc7 { 'c' }
    else if n == 0xf1 || n == 0xd1 { 'n' }
    else if n == 0xfd || n == 0xff || n == 0xdd { 'y' }
    else { c }
}

/// What one character of a name becomes before the cut into words: `&` is
/// spelled `and`, an apostrophe separates, an accent falls.
pub open spec fn prepared_char(c: char) -> Seq<char> {
    if c == '&' {
        seq![' ', 'a', 'n', 'd', ' ']
    } else if c == '\u{2019}' || c == '\u{2018}' || c == '\'' {
        seq![' ']
    } else {
        seq![fold_char(c)]
    }
}

pub open spec fn prepared(name: Seq<char>) -> Seq<char>
    decreases name.len(),
{
    if name.len() == 0 { seq![] } else { prepared(name.drop_last()) + prepared_char(name.last()) }
}

/// Does `s` end inside a word?
pub open spec fn ends_in_word(s: Seq<char>) -> bool {
    s.len() > 0 && is_ascii_alnum(s.last())
}

/// The words of `s`: its runs of ASCII letters and digits, in lower case.
pub open spec fn words(s: Seq<char>) -> Seq<Seq<char>>
    decreases s.len(),
{
    if s.len() == 0 {
        seq![]
    } else {
        let w = words(s.drop_last());
        let c = s.last();
        if !is_ascii_alnum(c) {
            w
        } else if ends_in_word(s.drop_last()) && w.len() > 0 {
            w.update(w.len() - 1, w.last().push(ascii_lower(c)))
        } else {
            w.push(seq![ascii_lower(c)])
        }
    }
}

/// The slug of a name.
pub open spec fn slug_of_name(name: Seq<char>) -> Seq<char> {
    join(words(prepared(name)), "-"@)
}

proof fn lemma_join_extend(ws: Seq<Seq<char>>, sep: Seq<char>, c: char)
    requires
        ws.len() > 0,
    ensures
        join(ws.update(ws.len() - 1, ws.last().push(c)), sep) == join(ws, sep).push(c),
{
    let u = ws.update(ws.len() - 1, ws.last().push(c));
    assert(u.drop_last() =~= ws.drop_last());
    if ws.len() == 1 {
        assert(join(u, sep) == u[0]);
    }
}

proof fn lemma_join_push(ws: Seq<Seq<char>>, sep: Seq<char>, w: Seq<char>)
    ensures
        join(ws.push(w), sep) == if ws.len() == 0 { w } else { join(ws, sep) + sep + w },
{
    assert(ws.push(w).drop_last() =~= ws);
}

proof fn lemma_words_nonempty_when_in_word(s: Seq<char>)
    requires
        ends_in_word(s),
    ensures
        words(s).len() > 0,
    decreases s.len(),
{
    let w = words(s.drop_last());
    if ends_in_word(s.drop_last()) {
        lemma_words_nonempty_when_in_word(s.drop_last());
    }
}

proof fn lemma_prepared_push(s: Seq<char>, c: char)
    ensures
        prepared(s.push(c)) == prepared(s) + prepared_char(c),
{
    assert(s.push(c).drop_last() =~= s);
}

/// The catalog's slug rule: ASCII, lower case, words joined by hyphens.
/// `&` becomes `and` so "Hall & Oates" and "Hall and Oates" land on the
/// same file.
pub fn slugify(name: &str) -> (r: String)
    ensures
        r@ == slug_of_name(name@),
{
    let chars = chars_of(name);
    let mut prep: Vec<char> = Vec::new();
    let mut i: usize = 0;
    while i < chars.len()
        invariant
            i <= chars@.len(),
            prep@ == prepared(chars@.take(i as int)),
        decreases chars@.len() - i,
    {
        let c = chars[i];
        proof {
            assert(chars@.take(i + 1) =~= chars@.take(i as int).push(c));
            lemma_prepared_push(chars@.take(i as int), c);
        }
        if c == '&' {
            prep.push(' ');
            prep.push('a');
            prep.push('n');
            prep.push('d');
            prep.push(' ');
        } else if c == '\u{2019}' || c == '\u{2018}' || c == '\'' {
            prep.push(' ');
        } else {
            prep.push(fold(c));
        }
        i = i + 1;
        assert(prep@ =~= prepared(chars@.take(i as int)));
    }
    assert(chars@.take(i as int) =~= chars@);
    let mut out: Vec<char> = Vec::new();
    let ghost mut ws: Seq<Seq<char>> = seq![];
    let mut j: usize = 0;
    proof { reveal_strlit("-"); }
    while j < prep.len()
        invariant
            j <= prep@.len(),
            ws == words(prep@.take(j as int)),
            out@ == join(ws, "-"@),
            (out@.len() == 0) == (ws.len() == 0),
            "-"@ == seq!['-'],
        decreases prep@.len() - j,
    {
        let c = prep[j];
        let ghost t = prep@.take(j as int);
        proof {
            assert(prep@.take(j + 1) =~= t.push(c));
            assert(t.push(c).drop_last() =~= t);
            assert(t.push(c).last() == c);
        }
        if is_ascii_alnum_exec(c) {
            let lower = ascii_lower_exec(c);
            if j > 0 && is_ascii_alnum_exec(prep[j - 1]) {
                proof {
                    assert(t.last() == prep@[j - 1]);
                    lemma_words_nonempty_when_in_word(t);
                    lemma_join_extend(ws, "-"@, lower);
                    ws = ws.update(ws.len() - 1, ws.last().push(lower));
                }
                out.push(lower);
            } else {
                proof {
                    if j > 0 {
                        assert(t.last() == prep@[j - 1]);
                    }
                    lemma_join_push(ws, "-"@, seq![lower]);
                }
                let ghost before = out@;
                if out.len() > 0 {
                    out.push('-');
                }
                out.push(lower);
                proof {
                    if ws.len() == 0 {
                        assert(out@ =~= seq![lower]);
                    } else {
                        assert(out@ =~= before + "-"@ + seq![lower]);
                    }
                    ws = ws.push(seq![lower]);
                }
            }
        }
        j = j + 1;
        assert(ws == words(prep@.take(j as int)));
    }
    assert(prep@.take(j as int) =~= prep@);
    string_of(&out)
}

// ---------------------------------------------------------------------------
// A slug spelled back out, and the key that makes two spellings one artist.

/// A word with its first letter in upper case.
pub open spec fn capitalized(w: Seq<char>) -> Seq<char> {
    if w.len() == 0 { seq![] } else { uppercase(w[0]) + w.drop_first() }
}

pub open spec fn pretty_of(slug: Seq<char>) -> Seq<char> {
    join(split(slug, '-').map_values(|w: Seq<char>| capitalized(w)), seq![' '])
}

/// A word with its first letter in ASCII upper case.
pub open spec fn ascii_capitalized(w: Seq<char>) -> Seq<char> {
    if w.len() == 0 { seq![] } else { seq![crate::text::ascii_upper(w[0])] + w.drop_first() }
}

/// An ASCII slug spelled back out: each word capitalized, spaces between.
pub open spec fn ascii_pretty_of(slug: Seq<char>) -> Seq<char> {
    join(split(slug, '-').map_values(|w: Seq<char>| ascii_capitalized(w)), seq![' '])
}

/// A slug spelled back out for the screen: « georges-moustaki » becomes
/// « Georges Moustaki ». It is all anyone knows of an artist without a card,
/// and it is also what MusicBrainz gets asked for.
pub fn pretty(slug: &str) -> (r: String)
    ensures
        r@ == pretty_of(slug@),
        is_ascii_text(slug@) ==> r@ == ascii_pretty_of(slug@),
{
    let pieces = split_of(&chars_of(slug), '-');
    proof {
        if is_ascii_text(slug@) {
            crate::text::lemma_split_ascii(slug@, '-', 0);
        }
    }
    let mut words: Vec<Vec<char>> = Vec::new();
    let mut i: usize = 0;
    while i < pieces.len()
        invariant
            i <= pieces@.len(),
            views(pieces@) == split(slug@, '-'),
            views(words@) == views(pieces@).take(i as int).map_values(|w: Seq<char>| capitalized(w)),
            is_ascii_text(slug@) ==> forall|k: int| 0 <= k < pieces@.len() ==> is_ascii_text(#[trigger] views(pieces@)[k]),
            is_ascii_text(slug@) ==> views(words@) == views(pieces@).take(i as int).map_values(
                |w: Seq<char>| ascii_capitalized(w),
            ),
        decreases pieces@.len() - i,
    {
        let piece = &pieces[i];
        let mut word: Vec<char> = Vec::new();
        proof {
            assert(views(pieces@)[i as int] == piece@);
        }
        if piece.len() > 0 {
            word = to_uppercase(piece[0]);
            let rest = slice(piece, 1, piece.len());
            push_all(&mut word, &rest);
            assert(word@ =~= capitalized(piece@));
            proof {
                if is_ascii_text(slug@) {
                    assert((piece@[0] as u32) < 0x80);
                    assert(word@ =~= ascii_capitalized(piece@));
                }
            }
        } else {
            assert(word@ =~= capitalized(piece@));
            assert(word@ =~= ascii_capitalized(piece@));
        }
        let ghost before = words@;
        words.push(word);
        proof {
            assert(views(pieces@).take(i + 1) =~= views(pieces@).take(i as int).push(pieces@[i as int]@));
            assert(views(words@) =~= views(before).push(word@));
            assert(views(words@) =~= views(pieces@).take(i + 1).map_values(|w: Seq<char>| capitalized(w)));
            if is_ascii_text(slug@) {
                assert(views(words@) =~= views(pieces@).take(i + 1).map_values(|w: Seq<char>| ascii_capitalized(w)));
            }
        }
        i = i + 1;
    }
    assert(views(pieces@).take(i as int) =~= views(pieces@));
    let mut sep: Vec<char> = Vec::new();
    sep.push(' ');
    string_of(&join_of(&words, &sep))
}

/// "and" and "et": the words that join two names and say nothing of them.
pub open spec fn linking(w: Seq<char>) -> bool {
    w == seq!['a', 'n', 'd'] || w == seq!['e', 't']
}

pub open spec fn unlinked(ws: Seq<Seq<char>>) -> Seq<Seq<char>>
    decreases ws.len(),
{
    if ws.len() == 0 {
        seq![]
    } else if linking(ws.last()) {
        unlinked(ws.drop_last())
    } else {
        unlinked(ws.drop_last()).push(ws.last())
    }
}

/// A slug reduced to what makes two spellings the same artist: the linking
/// words go, a leading "the" goes when something follows it, and the
/// separators go.
pub open spec fn match_key_of(slug: Seq<char>) -> Seq<char> {
    let ws = unlinked(split(slug, '-'));
    let kept = if ws.len() > 1 && ws[0] == seq!['t', 'h', 'e'] { ws.drop_first() } else { ws };
    join(kept, seq![])
}

fn is_word(w: &Vec<char>, a: char, b: char, c: char, n: usize) -> (r: bool)
    requires
        n == 2 || n == 3,
    ensures
        r == (w@ == (if n == 2 { seq![a, b] } else { seq![a, b, c] })),
{
    if w.len() != n {
        return false;
    }
    let r = w[0] == a && w[1] == b && (n == 2 || w[2] == c);
    proof {
        if n == 2 {
            if r { assert(w@ =~= seq![a, b]); }
        } else {
            if r { assert(w@ =~= seq![a, b, c]); }
        }
    }
    r
}

/// A slug reduced to what makes two spellings the same artist: "the" of the
/// head and the linking words go, separators go — so "gun-club" finds "The
/// Gun Club" and "j-p-nataf" finds "jp-nataf".
pub fn match_key(slug: &str) -> (r: String)
    ensures
        r@ == match_key_of(slug@),
{
    let pieces = split_of(&chars_of(slug), '-');
    let mut kept: Vec<Vec<char>> = Vec::new();
    let mut i: usize = 0;
    while i < pieces.len()
        invariant
            i <= pieces@.len(),
            views(kept@) == unlinked(views(pieces@).take(i as int)),
        decreases pieces@.len() - i,
    {
        let w = &pieces[i];
        proof {
            let t = views(pieces@).take(i + 1);
            assert(t.drop_last() =~= views(pieces@).take(i as int));
            assert(t.last() == w@);
        }
        let link = is_word(w, 'a', 'n', 'd', 3) || is_word(w, 'e', 't', ' ', 2);
        if !link {
            let ghost before = kept@;
            kept.push(w.clone());
            assert(views(kept@) =~= views(before).push(w@));
        }
        i = i + 1;
    }
    assert(views(pieces@).take(i as int) =~= views(pieces@));
    let mut out: Vec<char> = Vec::new();
    let mut start: usize = 0;
    if kept.len() > 1 && is_word(&kept[0], 't', 'h', 'e', 3) {
        start = 1;
    }
    let mut j: usize = start;
    while j < kept.len()
        invariant
            start <= j <= kept@.len(),
            start <= 1,
            out@ == join(views(kept@).subrange(start as int, j as int), seq![]),
        decreases kept@.len() - j,
    {
        let ghost before = out@;
        push_all(&mut out, &kept[j]);
        proof {
            let t = views(kept@).subrange(start as int, j + 1);
            assert(t.drop_last() =~= views(kept@).subrange(start as int, j as int));
            assert(t.last() == kept@[j as int]@);
            assert(out@ =~= join(t, seq![]));
        }
        j = j + 1;
    }
    proof {
        let ws = views(kept@);
        if start == 1 {
            assert(ws.subrange(1, ws.len() as int) =~= ws.drop_first());
        } else {
            assert(ws.subrange(0, ws.len() as int) =~= ws);
        }
    }
    string_of(&out)
}

// ---------------------------------------------------------------------------
// What MusicBrainz and Deezer hand back, read.

/// A MusicBrainz id as typed: 8-4-4-4-12 hex digits.
pub open spec fn mbid_shape(text: Seq<char>) -> bool {
    text.len() == 36 && forall|i: int| 0 <= i < 36 ==> {
        if i == 8 || i == 13 || i == 18 || i == 23 { text[i] == '-' } else { is_ascii_hex(#[trigger] text[i]) }
    }
}

/// A MusicBrainz id as typed: 8-4-4-4-12 hex digits.
pub fn is_mbid(text: &str) -> (r: bool)
    ensures
        r == mbid_shape(text@),
{
    let chars = chars_of(text);
    if chars.len() != 36 {
        return false;
    }
    let mut i: usize = 0;
    while i < 36
        invariant
            i <= 36,
            chars@.len() == 36,
            chars@ == text@,
            forall|k: int| 0 <= k < i ==> {
                if k == 8 || k == 13 || k == 18 || k == 23 { chars@[k] == '-' } else { is_ascii_hex(#[trigger] chars@[k]) }
            },
        decreases 36 - i,
    {
        let c = chars[i];
        let ok = if i == 8 || i == 13 || i == 18 || i == 23 { c == '-' } else { is_ascii_hex_exec(c) };
        if !ok {
            return false;
        }
        i = i + 1;
    }
    true
}

/// MusicBrainz relation → link type of the format. Anything not listed is
/// not a kinship the format knows how to say.
pub open spec fn relation_kind_of(kind: Seq<char>) -> Option<Seq<char>> {
    if kind == "member of band"@ || kind == "founder"@ {
        Some("member"@)
    } else if kind == "collaboration"@ || kind == "supporting musician"@
        || kind == "instrumental supporting musician"@ || kind == "vocal supporting musician"@ {
        Some("collab"@)
    } else if kind == "sibling"@ || kind == "parent"@ || kind == "married"@ {
        Some("family"@)
    } else {
        None
    }
}

/// MusicBrainz relation → link type of the format.
pub fn relation_kind(kind: &str) -> (r: Option<&'static str>)
    ensures
        match r {
            Some(k) => relation_kind_of(kind@) == Some(k@),
            None => relation_kind_of(kind@) is None,
        },
{
    if same_str(kind, "member of band") || same_str(kind, "founder") {
        Some("member")
    } else if same_str(kind, "collaboration") || same_str(kind, "supporting musician")
        || same_str(kind, "instrumental supporting musician") || same_str(kind, "vocal supporting musician") {
        Some("collab")
    } else if same_str(kind, "sibling") || same_str(kind, "parent") || same_str(kind, "married") {
        Some("family")
    } else {
        None
    }
}

pub open spec fn id_char(c: char, numeric: bool) -> bool {
    if numeric { is_ascii_digit(c) } else { is_ascii_alnum(c) }
}

/// Where the run of id characters that starts at `i` ends.
pub open spec fn id_end(s: Seq<char>, numeric: bool, i: int) -> int
    decreases s.len() - i,
{
    if i < 0 || i >= s.len() || !id_char(s[i], numeric) { i } else { id_end(s, numeric, i + 1) }
}

/// The id that follows the first `marker` of `url`, if there is one.
pub open spec fn id_after_of(url: Seq<char>, marker: Seq<char>, numeric: bool) -> Option<Seq<char>> {
    match find(url, marker) {
        Some(at) => {
            let rest = url.subrange(at + marker.len(), url.len() as int);
            let e = id_end(rest, numeric, 0);
            if e > 0 { Some(rest.subrange(0, e)) } else { None }
        },
        None => None,
    }
}

fn id_char_exec(c: char, numeric: bool) -> (r: bool)
    ensures
        r == id_char(c, numeric),
{
    if numeric { is_ascii_digit_exec(c) } else { is_ascii_alnum_exec(c) }
}

/// Pull an id out of an external url of the artist — Spotify and Deezer both
/// hang off MusicBrainz's url relations, which spares two searches.
pub fn id_after(url: &str, marker: &str, numeric: bool) -> (r: Option<String>)
    ensures
        match r {
            Some(id) => id_after_of(url@, marker@, numeric) == Some(id@),
            None => id_after_of(url@, marker@, numeric) is None,
        },
{
    let u = chars_of(url);
    let m = chars_of(marker);
    let ulen = u.len();
    let at = match find_in(&u, &m, 0) {
        Some(at) => at,
        None => return None,
    };
    assert(at + m@.len() <= u@.len()) by {
        lemma_find_from(u@, m@, 0);
        assert(occurs_at(u@, m@, at as int));
    }
    let rest = slice(&u, at + m.len(), u.len());
    assert(rest@ == url@.subrange(at + marker@.len(), url@.len() as int));
    let mut i: usize = 0;
    while i < rest.len() && id_char_exec(rest[i], numeric)
        invariant
            i <= rest@.len(),
            id_end(rest@, numeric, 0) == id_end(rest@, numeric, i as int),
        decreases rest@.len() - i,
    {
        i = i + 1;
    }
    assert(id_end(rest@, numeric, i as int) == i);
    if i == 0 {
        None
    } else {
        Some(string_of(&slice(&rest, 0, i)))
    }
}

// ---------------------------------------------------------------------------
// Byte offsets, as `str` slicing takes them.

/// The character of `s` that starts at byte `b`, when one does (the end of
/// `s` counts as one).
pub open spec fn char_at_byte(s: Seq<char>, b: int) -> Option<int> {
    if exists|m: int| 0 <= m <= s.len() && byte_offset(s, m) == b {
        Some(choose|m: int| 0 <= m <= s.len() && byte_offset(s, m) == b)
    } else {
        None
    }
}

proof fn lemma_byte_offset_step(s: Seq<char>, i: int)
    requires
        0 <= i < s.len(),
    ensures
        byte_offset(s, i + 1) == byte_offset(s, i) + utf8_width(s[i]),
        utf8_width(s[i]) >= 1,
{
}

proof fn lemma_byte_offset_strict(s: Seq<char>, i: int, j: int)
    requires
        0 <= i < j <= s.len(),
    ensures
        byte_offset(s, i) < byte_offset(s, j),
    decreases j - i,
{
    lemma_byte_offset_step(s, j - 1);
    if i < j - 1 {
        lemma_byte_offset_strict(s, i, j - 1);
    }
}

proof fn lemma_byte_offset_unique(s: Seq<char>, m: int, b: int)
    requires
        0 <= m <= s.len(),
        byte_offset(s, m) == b,
    ensures
        char_at_byte(s, b) == Some(m),
{
    let w = choose|k: int| 0 <= k <= s.len() && byte_offset(s, k) == b;
    assert(0 <= w <= s.len() && byte_offset(s, w) == b);
    if w < m {
        lemma_byte_offset_strict(s, w, m);
    } else if m < w {
        lemma_byte_offset_strict(s, m, w);
    }
}

proof fn lemma_no_char_at(s: Seq<char>, m: int, b: int)
    requires
        0 <= m <= s.len(),
        byte_offset(s, m) < b,
        m < s.len() ==> b < byte_offset(s, m + 1),
    ensures
        char_at_byte(s, b) is None,
{
    assert forall|k: int| 0 <= k <= s.len() implies byte_offset(s, k) != b by {
        if k < m {
            lemma_byte_offset_strict(s, k, m);
        } else if k > m + 1 {
            lemma_byte_offset_strict(s, m + 1, k);
        }
    }
}

fn width_of(c: char) -> (w: usize)
    ensures
        w == utf8_width(c),
        1 <= w <= 4,
{
    let n = c as u32;
    if n < 0x80 { 1 } else if n < 0x800 { 2 } else if n < 0x10000 { 3 } else { 4 }
}

/// Which character of `s` starts where character `k` of `t` does, counted in
/// bytes: the two are walked side by side, so no byte count is ever held.
pub(crate) fn same_boundary(s: &Vec<char>, t: &Vec<char>, k: usize) -> (r: Option<usize>)
    requires
        k <= t@.len(),
    ensures
        match r {
            Some(m) => char_at_byte(s@, byte_offset(t@, k as int) as int) == Some(m as int),
            None => char_at_byte(s@, byte_offset(t@, k as int) as int) is None,
        },
{
    let mut i: usize = 0;
    let mut m: usize = 0;
    let mut d: usize = 0;
    while i < k
        invariant
            i <= k <= t@.len(),
            m <= s@.len(),
            d <= 3,
            byte_offset(s@, m as int) + d == byte_offset(t@, i as int),
            m < s@.len() ==> d < utf8_width(s@[m as int]),
            m == s@.len() ==> d == 0,
        decreases k - i,
    {
        proof { lemma_byte_offset_step(t@, i as int); }
        d = d + width_of(t[i]);
        i = i + 1;
        while m < s.len() && width_of(s[m]) <= d
            invariant
                m <= s@.len(),
                d <= 7,
                byte_offset(s@, m as int) + d == byte_offset(t@, i as int),
            decreases s@.len() - m,
        {
            proof { lemma_byte_offset_step(s@, m as int); }
            d = d - width_of(s[m]);
            m = m + 1;
        }
        if m == s.len() && d > 0 {
            proof {
                lemma_byte_offset_grows_to(t@, i as int, k as int);
                lemma_no_char_at(s@, m as int, byte_offset(t@, k as int) as int);
            }
            return None;
        }
    }
    if d == 0 {
        proof { lemma_byte_offset_unique(s@, m as int, byte_offset(t@, k as int) as int); }
        Some(m)
    } else {
        proof {
            lemma_byte_offset_step(s@, m as int);
            lemma_no_char_at(s@, m as int, byte_offset(t@, k as int) as int);
        }
        None
    }
}

proof fn lemma_byte_offset_grows_to(s: Seq<char>, i: int, j: int)
    requires
        0 <= i <= j <= s.len(),
    ensures
        byte_offset(s, i) <= byte_offset(s, j),
{
    if i < j {
        lemma_byte_offset_strict(s, i, j);
    }
}

/// The character that starts at byte `b` of `s`, found by walking `s`.
fn char_at_byte_exec(s: &Vec<char>, b: usize) -> (r: Option<usize>)
    ensures
        match r {
            Some(m) => char_at_byte(s@, b as int) == Some(m as int),
            None => char_at_byte(s@, b as int) is None,
        },
{
    let mut m: usize = 0;
    let mut at: usize = 0;
    while m < s.len() && at < b && width_of(s[m]) <= b - at
        invariant
            m <= s@.len(),
            at <= b,
            at == byte_offset(s@, m as int),
        decreases s@.len() - m,
    {
        proof { lemma_byte_offset_step(s@, m as int); }
        at = at + width_of(s[m]);
        m = m + 1;
    }
    if at == b {
        proof { lemma_byte_offset_unique(s@, m as int, b as int); }
        Some(m)
    } else {
        proof {
            if m < s@.len() {
                lemma_byte_offset_step(s@, m as int);
            }
            lemma_no_char_at(s@, m as int, b as int);
        }
        None
    }
}

// ---------------------------------------------------------------------------
// Top tracks: the remastering suffix falls.

pub open spec fn opener(i: int) -> Seq<char> {
    if i == 0 { seq![' ', '('] } else if i == 1 { seq![' ', '['] } else { seq![' ', '-', ' '] }
}

pub open spec fn master() -> Seq<char> {
    seq!['m', 'a', 's', 't', 'e', 'r']
}

/// Where the remastering suffix of a lower-cased title starts: the last
/// `" ("`, then the last `" ["`, then the last `" - "`, the first of them
/// that "master" follows.
pub open spec fn master_cut(lower: Seq<char>, i: int) -> Option<int>
    decreases 3 - i,
{
    if i < 0 || i >= 3 {
        None
    } else {
        match rfind(lower, opener(i)) {
            Some(at) => if 0 <= at <= lower.len() && contains(lower.subrange(at, lower.len() as int), master()) {
                Some(at)
            } else {
                master_cut(lower, i + 1)
            },
            None => master_cut(lower, i + 1),
        }
    }
}

/// How many spaces and hyphens `s` ends with.
pub open spec fn dash_trail(s: Seq<char>) -> nat
    decreases s.len(),
{
    if s.len() > 0 && (s.last() == ' ' || s.last() == '-') { 1 + dash_trail(s.drop_last()) } else { 0 }
}

pub open spec fn without_dash_trail(s: Seq<char>) -> Seq<char> {
    s.take(s.len() - dash_trail(s))
}

/// The cut falls where a character of the title starts (else the title
/// cannot be sliced there).
pub open spec fn top_cut_fits(title: Seq<char>, lower: Seq<char>) -> bool {
    match master_cut(lower, 0) {
        Some(at) => char_at_byte(title, byte_offset(lower, at) as int) is Some,
        None => true,
    }
}

/// The title without its remastering suffix, the cut being found in its
/// lower-cased spelling and made at the same byte.
pub open spec fn cleaned_top(title: Seq<char>, lower: Seq<char>) -> Seq<char> {
    match master_cut(lower, 0) {
        Some(at) => match char_at_byte(title, byte_offset(lower, at) as int) {
            Some(m) => without_dash_trail(title.take(m)),
            None => title,
        },
        None => title,
    }
}

proof fn lemma_rfind_upto(s: Seq<char>, p: Seq<char>, i: int)
    ensures
        rfind_upto(s, p, i) matches Some(j) ==> occurs_at(s, p, j),
    decreases i + 1,
{
    if i >= 0 && !occurs_at(s, p, i) {
        lemma_rfind_upto(s, p, i - 1);
    }
}

proof fn lemma_dash_trail(s: Seq<char>)
    ensures
        dash_trail(s) <= s.len(),
    decreases s.len(),
{
    if s.len() > 0 {
        lemma_dash_trail(s.drop_last());
    }
}

fn without_dash_trail_exec(s: &Vec<char>) -> (r: Vec<char>)
    ensures
        r@ == without_dash_trail(s@),
{
    let mut n: usize = s.len();
    assert(s@.take(n as int) =~= s@);
    while n > 0 && (s[n - 1] == ' ' || s[n - 1] == '-')
        invariant
            n <= s@.len(),
            dash_trail(s@) == (s@.len() - n) + dash_trail(s@.take(n as int)),
        decreases n,
    {
        proof {
            assert(s@.take(n as int).drop_last() =~= s@.take(n - 1));
        }
        n = n - 1;
    }
    proof {
        assert(dash_trail(s@.take(n as int)) == 0);
        lemma_dash_trail(s@);
    }
    assert(s@.take(s@.len() as int) =~= s@);
    slice(s, 0, n)
}

/// The cut of a top track, given its title and that title in lower case:
/// `None` when the cut would not fall where a character of the title
/// starts.
pub fn cut_top(title: &str, lower: &str) -> (r: Option<String>)
    ensures
        r is Some == top_cut_fits(title@, lower@),
        r matches Some(t) ==> t@ == cleaned_top(title@, lower@),
{
    let t = chars_of(title);
    let l = chars_of(lower);
    let mut master_word: Vec<char> = Vec::new();
    push_str(&mut master_word, "master");
    proof { reveal_strlit("master"); }
    assert(master_word@ =~= master());
    let mut i: usize = 0;
    while i < 3
        invariant
            i <= 3,
            master_word@ == master(),
            t@ == title@,
            l@ == lower@,
            master_cut(l@, 0) == master_cut(l@, i as int),
        decreases 3 - i,
    {
        let mut open: Vec<char> = Vec::new();
        open.push(' ');
        if i == 0 {
            open.push('(');
        } else if i == 1 {
            open.push('[');
        } else {
            open.push('-');
            open.push(' ');
        }
        assert(open@ =~= opener(i as int));
        match rfind_in(&l, &open) {
            Some(at) => {
                proof { lemma_rfind_upto(l@, open@, l@.len() - open@.len()); }
                assert(occurs_at(l@, open@, at as int));
                let tail = slice(&l, at, l.len());
                if contains_in(&tail, &master_word) {
                    assert(master_cut(l@, i as int) == Some(at as int));
                    let cut = same_boundary(&t, &l, at);
                    assert(master_cut(l@, 0) == Some(at as int));
                    assert(t@ == title@ && l@ == lower@);
                    assert(top_cut_fits(title@, lower@) == cut.is_some());
                    return match cut {
                        Some(m) => {
                            let ghost b = byte_offset(l@, at as int) as int;
                            assert(exists|k: int| 0 <= k <= t@.len() && byte_offset(t@, k) == b);
                            assert(m <= t@.len());
                            Some(string_of(&without_dash_trail_exec(&slice(&t, 0, m))))
                        },
                        None => None,
                    };
                }
            },
            None => {},
        }
        i = i + 1;
    }
    Some(String::from_str(title))
}

/// What the remastering cut leaves of an ASCII title: the cut is found in
/// its ASCII lowering, at the same place.
pub open spec fn ascii_cleaned_top(title: Seq<char>) -> Seq<char> {
    match master_cut(ascii_lowered(title), 0) {
        Some(at) => without_dash_trail(title.take(at)),
        None => title,
    }
}

proof fn lemma_master_cut_range(lower: Seq<char>, i: int)
    ensures
        master_cut(lower, i) matches Some(at) ==> 0 <= at <= lower.len(),
    decreases 3 - i,
{
    if 0 <= i < 3 {
        lemma_master_cut_range(lower, i + 1);
    }
}

proof fn lemma_ascii_offset(s: Seq<char>, n: int)
    requires
        is_ascii_text(s),
        0 <= n <= s.len(),
    ensures
        byte_offset(s, n) == n,
    decreases n,
{
    if n > 0 {
        lemma_ascii_offset(s, n - 1);
        assert((s[n - 1] as u32) < 0x80);
    }
}

/// In an ASCII title, a place counted in its ASCII lowering is a character
/// boundary of the title, at the same place.
pub proof fn lemma_ascii_cut(title: Seq<char>, n: int)
    requires
        is_ascii_text(title),
        0 <= n <= title.len(),
    ensures
        char_at_byte(title, byte_offset(ascii_lowered(title), n) as int) == Some(n),
{
    crate::text::lemma_ascii_lowered_text(title);
    lemma_ascii_offset(ascii_lowered(title), n);
    lemma_ascii_offset(title, n);
    lemma_byte_offset_unique(title, n, n);
}

/// On an ASCII title the cut always falls between two characters.
proof fn lemma_ascii_top(title: Seq<char>)
    requires
        is_ascii_text(title),
    ensures
        top_cut_fits(title, ascii_lowered(title)),
        cleaned_top(title, ascii_lowered(title)) == ascii_cleaned_top(title),
{
    let lower = ascii_lowered(title);
    crate::text::lemma_ascii_lowered_text(title);
    lemma_master_cut_range(lower, 0);
    if let Some(at) = master_cut(lower, 0) {
        lemma_ascii_offset(lower, at);
        lemma_ascii_offset(title, at);
        lemma_byte_offset_unique(title, at, at);
    }
}

/// « Vesoul (2011 Remaster) » is still Vesoul. Only the remastering suffix
/// goes — a live or a version is a different recording and keeps its name.
pub fn clean_top(title: &str) -> (r: String)
    requires
        top_cut_fits(title@, lowercase(title@)),
    ensures
        r@ == cleaned_top(title@, lowercase(title@)),
        is_ascii_text(title@) ==> r@ == ascii_cleaned_top(title@),
{
    let lower = to_lowercase(title);
    proof {
        if is_ascii_text(title@) {
            lemma_ascii_top(title@);
        }
    }
    match cut_top(title, lower.as_str()) {
        Some(t) => t,
        None => String::from_str(title),
    }
}

/// `clean_top` for any title: `None` when its lower-cased spelling puts the
/// cut where the title itself cannot be sliced.
pub fn try_clean_top(title: &str) -> (r: Option<String>)
    ensures
        r is Some == top_cut_fits(title@, lowercase(title@)),
        r matches Some(t) ==> t@ == cleaned_top(title@, lowercase(title@)),
        is_ascii_text(title@) ==> (r matches Some(t) && t@ == ascii_cleaned_top(title@)),
{
    let lower = to_lowercase(title);
    proof {
        if is_ascii_text(title@) {
            lemma_ascii_top(title@);
        }
    }
    if cut_top(title, lower.as_str()).is_some() {
        Some(clean_top(title))
    } else {
        None
    }
}

// ---------------------------------------------------------------------------
// Tags: the genres, the country, the decade a band began in.

pub open spec fn digit_value(c: char) -> nat {
    ((c as u32) - 48) as nat
}

/// What `u32` parsing accepts of four characters: four digits, or a plus
/// sign and three.
pub open spec fn year_digits(s: Seq<char>) -> bool {
    s.len() >= 4 && is_ascii_digit(s[1]) && is_ascii_digit(s[2]) && is_ascii_digit(s[3])
        && (is_ascii_digit(s[0]) || s[0] == '+')
}

pub open spec fn year_value(s: Seq<char>) -> nat {
    let low = digit_value(s[1]) * 100 + digit_value(s[2]) * 10 + digit_value(s[3]);
    if s[0] == '+' { low } else { digit_value(s[0]) * 1000 + low }
}

/// The decade a date's first four characters fall in: « 70s » for 1977,
/// « 2000s » from 2000 on.
pub open spec fn decade_of(begin: Option<Seq<char>>) -> Option<Seq<char>> {
    match begin {
        Some(b) => if year_digits(b) {
            let y = year_value(b);
            Some(if y < 2000 { decimal(y % 100 / 10 * 10) } else { decimal(y / 10 * 10) }.push('s'))
        } else {
            None
        },
        None => None,
    }
}

/// The year four digits write.
pub open spec fn four_digit_year(b: Seq<char>) -> int {
    (b[0] as int - 48) * 1000 + (b[1] as int - 48) * 100 + (b[2] as int - 48) * 10 + (b[3] as int - 48)
}

/// A band's decade, from a date starting with four digits: from 2000 on,
/// the year rounded down to a multiple of ten (« 2010s » for 2012); before,
/// its last two digits so rounded (« 70s » for 1977). No date, or one too
/// short, has no decade.
pub proof fn decades_round_down(b: Seq<char>)
    ensures
        b.len() >= 4 && (forall|k: int| 0 <= k < 4 ==> '0' <= #[trigger] b[k] <= '9') ==> {
            let y = four_digit_year(b);
            &&& y >= 2000 ==> decade_of(Some(b)) == Some(decimal((y - y % 10) as nat) + seq!['s'])
            &&& y < 2000 ==> decade_of(Some(b)) == Some(decimal((y % 100 - y % 10) as nat) + seq!['s'])
        },
        b.len() < 4 ==> decade_of(Some(b)) is None,
        decade_of(None) is None,
{
    if b.len() >= 4 && (forall|k: int| 0 <= k < 4 ==> '0' <= #[trigger] b[k] <= '9') {
        assert('0' <= b[0] <= '9' && '0' <= b[1] <= '9' && '0' <= b[2] <= '9' && '0' <= b[3] <= '9');
        let y = year_value(b);
        assert(y == four_digit_year(b));
        assert(y / 10 * 10 == y - y % 10) by (nonlinear_arith)
            requires
                y >= 0,
        ;
        assert(y % 100 / 10 * 10 == y % 100 - y % 10) by (nonlinear_arith)
            requires
                y >= 0,
        ;
        let hi: nat = (y - y % 10) as nat;
        let lo: nat = (y % 100 - y % 10) as nat;
        assert(decimal(hi).push('s') =~= decimal(hi) + seq!['s']);
        assert(decimal(lo).push('s') =~= decimal(lo) + seq!['s']);
    }
}

fn digit_exec(c: char) -> (d: u64)
    requires
        is_ascii_digit(c),
    ensures
        d == digit_value(c),
        d <= 9,
{
    (c as u64) - 48
}

/// The decade of the *band*'s beginning. For a person `begin` is a birth
/// date, which says nothing about when they played.
pub fn decade(begin: Option<&str>) -> (r: Option<String>)
    ensures
        match r {
            Some(d) => decade_of(opt_str(begin)) == Some(d@),
            None => decade_of(opt_str(begin)) is None,
        },
{
    let b = match begin {
        Some(b) => chars_of(b),
        None => return None,
    };
    if b.len() < 4 || !is_ascii_digit_exec(b[1]) || !is_ascii_digit_exec(b[2]) || !is_ascii_digit_exec(b[3])
        || !(is_ascii_digit_exec(b[0]) || b[0] == '+') {
        return None;
    }
    let low = digit_exec(b[1]) * 100 + digit_exec(b[2]) * 10 + digit_exec(b[3]);
    let y = if b[0] == '+' { low } else { digit_exec(b[0]) * 1000 + low };
    let mut d = if y < 2000 { decimal_of(y % 100 / 10 * 10) } else { decimal_of(y / 10 * 10) };
    d.push('s');
    Some(string_of(&d))
}

pub open spec fn opt_str(o: Option<&str>) -> Option<Seq<char>> {
    match o { Some(s) => Some(s@), None => None }
}

pub open spec fn opt_view(o: Option<String>) -> Option<Seq<char>> {
    match o { Some(s) => Some(s@), None => None }
}

/// A typed relation of the format, and who it points at.
pub struct Relation {
    pub kind: String,
    pub name: String,
    pub begin: Option<String>,
    pub end: Option<String>,
}

/// What MusicBrainz says of an artist, as the card needs it.
pub struct Facts {
    pub name: String,
    pub kind: Option<String>,
    pub country: Option<String>,
    pub area: Option<String>,
    pub begin: Option<String>,
    pub end: Option<String>,
    pub genres: Vec<String>,
    pub relations: Vec<Relation>,
    pub spotify: Option<String>,
    pub deezer: Option<String>,
}

impl Facts {
    /// The card of an artist MusicBrainz would not describe: the name asked,
    /// nothing else.
    pub fn minimal(name: String) -> (f: Facts)
        ensures
            f.name@ == name@,
            f.kind is None && f.country is None && f.area is None,
            f.begin is None && f.end is None && f.spotify is None && f.deezer is None,
            f.genres@.len() == 0 && f.relations@.len() == 0,
    {
        Facts {
            name,
            kind: None,
            country: None,
            area: None,
            begin: None,
            end: None,
            genres: Vec::new(),
            relations: Vec::new(),
            spotify: None,
            deezer: None,
        }
    }
}

/// The tag a country code becomes: the one exception the catalog knows,
/// and otherwise the code in lower case.
pub open spec fn country_tag(country: Seq<char>) -> Seq<char> {
    if country == seq!['G', 'B'] { seq!['u', 'k'] } else { lowercase(country) }
}

/// The tags of a card: the first four genres as slugs, the country, and —
/// for a band, not a person — the decade it began in.
pub open spec fn tags_of(
    genres: Seq<Seq<char>>,
    country: Option<Seq<char>>,
    kind: Option<Seq<char>>,
    begin: Option<Seq<char>>,
) -> Seq<Seq<char>> {
    let g = genres.take(if genres.len() < 4 { genres.len() as int } else { 4 }).map_values(
        |n: Seq<char>| slug_of_name(n),
    );
    let c = match country { Some(code) => g.push(country_tag(code)), None => g };
    if kind != Some("Person"@) {
        match decade_of(begin) { Some(d) => c.push(d), None => c }
    } else {
        c
    }
}

pub fn compose_tags(facts: &Facts) -> (r: Vec<String>)
    ensures
        strings(r@) == tags_of(strings(facts.genres@), opt_view(facts.country), opt_view(facts.kind),
            opt_view(facts.begin)),
{
    let n: usize = if facts.genres.len() < 4 { facts.genres.len() } else { 4 };
    let ghost g = strings(facts.genres@).take(n as int).map_values(|x: Seq<char>| slug_of_name(x));
    let mut tags: Vec<String> = Vec::new();
    let mut i: usize = 0;
    while i < n
        invariant
            i <= n <= facts.genres@.len(),
            n <= 4,
            strings(tags@) == strings(facts.genres@).take(i as int).map_values(|x: Seq<char>| slug_of_name(x)),
        decreases n - i,
    {
        let ghost before = tags@;
        tags.push(slugify(facts.genres[i].as_str()));
        proof {
            assert(strings(facts.genres@).take(i + 1) =~= strings(facts.genres@).take(i as int).push(facts.genres@[i as int]@));
            assert(strings(tags@) =~= strings(before).push(tags@[i as int]@));
            assert(strings(tags@) =~= strings(facts.genres@).take(i + 1).map_values(|x: Seq<char>| slug_of_name(x)));
        }
        i = i + 1;
    }
    assert(strings(tags@) =~= g);
    let ghost after_genres = tags@;
    match &facts.country {
        Some(country) => {
            let code = if same_str(country.as_str(), "GB") {
                proof { reveal_strlit("GB"); }
                let mut uk: Vec<char> = Vec::new();
                uk.push('u');
                uk.push('k');
                assert(uk@ =~= seq!['u', 'k']);
                assert("GB"@ =~= seq!['G', 'B']);
                string_of(&uk)
            } else {
                proof { reveal_strlit("GB"); }
                assert("GB"@ =~= seq!['G', 'B']);
                to_lowercase(country.as_str())
            };
            assert(code@ == country_tag(country@));
            tags.push(code);
            assert(strings(tags@) =~= strings(after_genres).push(code@));
        },
        None => {},
    }
    let ghost after_country = tags@;
    let person = match &facts.kind {
        Some(kind) => same_str(kind.as_str(), "Person"),
        None => false,
    };
    assert(person == (opt_view(facts.kind) == Some("Person"@)));
    if !person {
        let begin = match &facts.begin {
            Some(b) => Some(b.as_str()),
            None => None,
        };
        assert(opt_str(begin) == opt_view(facts.begin));
        match decade(begin) {
            Some(d) => {
                tags.push(d);
                assert(strings(tags@) =~= strings(after_country).push(tags@.last()@));
            },
            None => {},
        }
    }
    tags
}

// ---------------------------------------------------------------------------
// The card's text.

/// A link of the card: where it goes, of which type, and a note.
pub struct Link {
    pub to: String,
    pub kind: String,
    pub note: Option<String>,
}

pub open spec fn link_view(l: Link) -> (Seq<char>, Seq<char>, Option<Seq<char>>) {
    (l.to@, l.kind@, opt_view(l.note))
}

pub open spec fn links_view(v: Seq<Link>) -> Seq<(Seq<char>, Seq<char>, Option<Seq<char>>)> {
    v.map_values(|l: Link| link_view(l))
}

/// The first four bytes of a date, when they end on a character.
pub open spec fn first4(o: Option<Seq<char>>) -> Option<Seq<char>> {
    match o {
        Some(d) => match char_at_byte(d, 4) {
            Some(m) => Some(d.take(m)),
            None => None,
        },
        None => None,
    }
}

/// A line of the card's head, when the value is there and not empty.
pub open spec fn head_line(key: Seq<char>, value: Option<Seq<char>>) -> Seq<Seq<char>> {
    match value {
        Some(v) => if v.len() > 0 { seq![key + " = "@ + quoted(v)] } else { seq![] },
        None => seq![],
    }
}

pub open spec fn link_parts(l: (Seq<char>, Seq<char>, Option<Seq<char>>)) -> Seq<Seq<char>> {
    seq!["to = "@ + quoted(l.0), "type = "@ + quoted(l.1)] + match l.2 {
        Some(n) => seq!["note = "@ + quoted(n)],
        None => seq![],
    }
}

pub open spec fn link_line(l: (Seq<char>, Seq<char>, Option<Seq<char>>)) -> Seq<char> {
    "  { "@ + join(link_parts(l), ", "@) + " },"@
}

pub open spec fn top_line(t: Seq<char>) -> Seq<char> {
    "  "@ + quoted(t) + ","@
}

/// The lines of a generated card, in the shape the catalog's cards have.
pub open spec fn card_lines(
    name: Seq<char>,
    mbid: Seq<char>,
    spotify: Option<Seq<char>>,
    begin: Option<Seq<char>>,
    end: Option<Seq<char>>,
    area: Option<Seq<char>>,
    tags: Seq<Seq<char>>,
    tops: Seq<Seq<char>>,
    links: Seq<(Seq<char>, Seq<char>, Option<Seq<char>>)>,
) -> Seq<Seq<char>> {
    seq!["format = 1"@, "generated = true"@, "name = "@ + quoted(name), "mbid = "@ + quoted(mbid)]
        + head_line("spotify"@, spotify) + head_line("begin"@, first4(begin))
        + head_line("end"@, first4(end)) + head_line("origin"@, area)
        + seq![seq![], "tags = ["@ + join(quoted_all(tags), ", "@) + "]"@]
        + (if tops.len() > 0 {
            seq![seq![], "tops = ["@] + tops.map_values(|t: Seq<char>| top_line(t)) + seq!["]"@]
        } else {
            seq![]
        })
        + (if links.len() > 0 {
            seq![seq![], "links = ["@] + links.map_values(
                |l: (Seq<char>, Seq<char>, Option<Seq<char>>)| link_line(l),
            ) + seq!["]"@]
        } else {
            seq![]
        })
}

/// The text of a generated card: its lines, each ended by a newline.
pub open spec fn card_text(
    name: Seq<char>,
    mbid: Seq<char>,
    facts: Facts,
    tags: Seq<Seq<char>>,
    tops: Seq<Seq<char>>,
    links: Seq<(Seq<char>, Seq<char>, Option<Seq<char>>)>,
) -> Seq<char> {
    join(card_lines(name, mbid, opt_view(facts.spotify), opt_view(facts.begin), opt_view(facts.end),
        opt_view(facts.area), tags, tops, links), seq!['\n']) + seq!['\n']
}

fn line_of(a: &str, value: &str) -> (r: Vec<char>)
    ensures
        r@ == a@ + quoted(value@),
{
    let mut r: Vec<char> = Vec::new();
    push_str(&mut r, a);
    let q = quote_exec(&chars_of(value));
    push_all(&mut r, &q);
    r
}

fn push_line(lines: &mut Vec<Vec<char>>, line: Vec<char>)
    ensures
        views(final(lines)@) == views(old(lines)@).push(line@),
{
    let ghost before = lines@;
    lines.push(line);
    assert(views(lines@) =~= views(before).push(line@));
}

fn push_text(lines: &mut Vec<Vec<char>>, text: &str)
    ensures
        views(final(lines)@) == views(old(lines)@).push(text@),
{
    push_line(lines, chars_of(text));
}

fn push_head(lines: &mut Vec<Vec<char>>, key: &str, value: Option<&str>)
    ensures
        views(final(lines)@) == views(old(lines)@) + head_line(key@, opt_str(value)),
{
    match value {
        Some(v) => {
            let vc = chars_of(v);
            if vc.len() > 0 {
                let mut l: Vec<char> = Vec::new();
                push_str(&mut l, key);
                push_str(&mut l, " = ");
                let q = quote_exec(&vc);
                push_all(&mut l, &q);
                push_line(lines, l);
            } else {
                assert(views(lines@) =~= views(lines@) + head_line(key@, opt_str(value)));
            }
        },
        None => {
            assert(views(lines@) =~= views(lines@) + head_line(key@, opt_str(value)));
        },
    }
}

/// The first four bytes of a date, when they end on a character.
fn first4_exec(o: &Option<String>) -> (r: Option<String>)
    ensures
        opt_view(r) == first4(opt_view(*o)),
{
    match o {
        Some(d) => {
            let c = chars_of(d.as_str());
            match char_at_byte_exec(&c, 4) {
                Some(m) => {
                    proof {
                        let b = 4int;
                        assert(exists|k: int| 0 <= k <= c@.len() && byte_offset(c@, k) == b);
                    }
                    Some(string_of(&slice(&c, 0, m)))
                },
                None => None,
            }
        },
        None => None,
    }
}

fn as_str_opt(o: &Option<String>) -> (r: Option<&str>)
    ensures
        opt_str(r) == opt_view(*o),
{
    match o {
        Some(s) => Some(s.as_str()),
        None => None,
    }
}

fn link_line_exec(l: &Link) -> (r: Vec<char>)
    ensures
        r@ == link_line(link_view(*l)),
{
    let mut parts: Vec<Vec<char>> = Vec::new();
    push_line(&mut parts, line_of("to = ", l.to.as_str()));
    push_line(&mut parts, line_of("type = ", l.kind.as_str()));
    match &l.note {
        Some(n) => {
            push_line(&mut parts, line_of("note = ", n.as_str()));
        },
        None => {},
    }
    assert(views(parts@) =~= link_parts(link_view(*l)));
    let mut r: Vec<char> = Vec::new();
    push_str(&mut r, "  { ");
    let mut sep: Vec<char> = Vec::new();
    push_str(&mut sep, ", ");
    let j = join_of(&parts, &sep);
    push_all(&mut r, &j);
    push_str(&mut r, " },");
    r
}

#[verifier::rlimit(50)]
#[verifier::spinoff_prover]
/// Compose the card's text. Written by hand rather than serialized: a card
/// is read and corrected by humans, and the shape below is the one the
/// catalog's cards already have.
pub fn compose(
    name: &str,
    mbid: &str,
    facts: &Facts,
    tags: &Vec<String>,
    tops: &Vec<String>,
    links: &Vec<Link>,
) -> (r: String)
    ensures
        r@ == card_text(name@, mbid@, *facts, strings(tags@), strings(tops@), links_view(links@)),
{
    let mut lines: Vec<Vec<char>> = Vec::new();
    push_text(&mut lines, "format = 1");
    push_text(&mut lines, "generated = true");
    push_line(&mut lines, line_of("name = ", name));
    push_line(&mut lines, line_of("mbid = ", mbid));
    let ghost l0 = views(lines@);
    let begin4 = first4_exec(&facts.begin);
    let end4 = first4_exec(&facts.end);
    push_head(&mut lines, "spotify", as_str_opt(&facts.spotify));
    push_head(&mut lines, "begin", as_str_opt(&begin4));
    push_head(&mut lines, "end", as_str_opt(&end4));
    push_head(&mut lines, "origin", as_str_opt(&facts.area));
    let ghost l1 = views(lines@);
    push_line(&mut lines, Vec::new());
    let mut tag_line: Vec<char> = Vec::new();
    push_str(&mut tag_line, "tags = [");
    let mut sep: Vec<char> = Vec::new();
    push_str(&mut sep, ", ");
    let quoted_tags = quote_each(tags);
    let j = join_of(&quoted_tags, &sep);
    push_all(&mut tag_line, &j);
    push_str(&mut tag_line, "]");
    push_line(&mut lines, tag_line);
    let ghost l2 = views(lines@);
    assert(l2 =~= l1 + seq![seq![], "tags = ["@ + join(quoted_all(strings(tags@)), ", "@) + "]"@]);
    if tops.len() > 0 {
        push_line(&mut lines, Vec::new());
        push_text(&mut lines, "tops = [");
        let ghost l2b = views(lines@);
        let mut i: usize = 0;
        while i < tops.len()
            invariant
                i <= tops@.len(),
                views(lines@) == l2b + strings(tops@).take(i as int).map_values(|t: Seq<char>| top_line(t)),
            decreases tops@.len() - i,
        {
            let mut l: Vec<char> = Vec::new();
            push_str(&mut l, "  ");
            let q = quote_exec(&chars_of(tops[i].as_str()));
            push_all(&mut l, &q);
            push_str(&mut l, ",");
            push_line(&mut lines, l);
            proof {
                assert(strings(tops@).take(i + 1) =~= strings(tops@).take(i as int).push(tops@[i as int]@));
                assert(views(lines@) =~= l2b + strings(tops@).take(i + 1).map_values(|t: Seq<char>| top_line(t)));
            }
            i = i + 1;
        }
        assert(strings(tops@).take(i as int) =~= strings(tops@));
        push_text(&mut lines, "]");
    }
    let ghost l3 = views(lines@);
    assert(l3 =~= l2 + (if strings(tops@).len() > 0 {
            seq![seq![], "tops = ["@] + strings(tops@).map_values(|t: Seq<char>| top_line(t)) + seq!["]"@]
        } else {
            seq![]
        }));
    if links.len() > 0 {
        push_line(&mut lines, Vec::new());
        push_text(&mut lines, "links = [");
        let ghost l3b = views(lines@);
        let mut i: usize = 0;
        while i < links.len()
            invariant
                i <= links@.len(),
                views(lines@) == l3b + links_view(links@).take(i as int).map_values(
                    |l: (Seq<char>, Seq<char>, Option<Seq<char>>)| link_line(l),
                ),
            decreases links@.len() - i,
        {
            push_line(&mut lines, link_line_exec(&links[i]));
            proof {
                assert(links_view(links@).take(i + 1) =~= links_view(links@).take(i as int).push(link_view(links@[i as int])));
                assert(views(lines@) =~= l3b + links_view(links@).take(i + 1).map_values(
                    |l: (Seq<char>, Seq<char>, Option<Seq<char>>)| link_line(l),
                ));
            }
            i = i + 1;
        }
        assert(links_view(links@).take(i as int) =~= links_view(links@));
        push_text(&mut lines, "]");
    }
    let ghost l4 = views(lines@);
    assert(l4 =~= l3 + (if links_view(links@).len() > 0 {
            seq![seq![], "links = ["@] + links_view(links@).map_values(
                |l: (Seq<char>, Seq<char>, Option<Seq<char>>)| link_line(l),
            ) + seq!["]"@]
        } else {
            seq![]
        }));
    assert(views(lines@) =~= card_lines(name@, mbid@, opt_view(facts.spotify), opt_view(facts.begin),
        opt_view(facts.end), opt_view(facts.area), strings(tags@), strings(tops@), links_view(links@)));
    let mut nl: Vec<char> = Vec::new();
    nl.push('\n');
    let mut text = join_of(&lines, &nl);
    text.push('\n');
    assert(nl@ =~= seq!['\n']);
    string_of(&text)
}

fn quote_each(tags: &Vec<String>) -> (r: Vec<Vec<char>>)
    ensures
        views(r@) == quoted_all(strings(tags@)),
{
    let mut r: Vec<Vec<char>> = Vec::new();
    let mut i: usize = 0;
    while i < tags.len()
        invariant
            i <= tags@.len(),
            views(r@) == quoted_all(strings(tags@).take(i as int)),
        decreases tags@.len() - i,
    {
        push_line(&mut r, quote_exec(&chars_of(tags[i].as_str())));
        proof {
            assert(strings(tags@).take(i + 1) =~= strings(tags@).take(i as int).push(tags@[i as int]@));
            assert(views(r@) =~= quoted_all(strings(tags@).take(i + 1)));
        }
        i = i + 1;
    }
    assert(strings(tags@).take(i as int) =~= strings(tags@));
    r
}

// ---------------------------------------------------------------------------
// The catalog as a generation sees it, and the links it decides.

/// The catalog, reduced to what a background job may carry: the match key of
/// every card and the slug it belongs to.
pub struct Known(Vec<(String, String)>);

/// The first slug whose key is `key`.
pub open spec fn first_slug(entries: Seq<(Seq<char>, Seq<char>)>, key: Seq<char>) -> Option<Seq<char>>
    decreases entries.len(),
{
    if entries.len() == 0 {
        None
    } else if entries[0].0 == key {
        Some(entries[0].1)
    } else {
        first_slug(entries.drop_first(), key)
    }
}

/// The card a name belongs to: the first whose key is the name's.
pub open spec fn slug_in(known: Seq<(Seq<char>, Seq<char>)>, name: Seq<char>) -> Option<Seq<char>> {
    first_slug(known, match_key_of(slug_of_name(name)))
}

impl Known {
    /// The keys and slugs, in order.
    pub closed spec fn view(&self) -> Seq<(Seq<char>, Seq<char>)> {
        self.0@.map_values(|e: (String, String)| (e.0@, e.1@))
    }

    /// The catalog's cards, each by its key.
    pub fn of(slugs: &Vec<String>) -> (k: Known)
        ensures
            k@ == strings(slugs@).map_values(|s: Seq<char>| (match_key_of(s), s)),
    {
        let mut entries: Vec<(String, String)> = Vec::new();
        let mut i: usize = 0;
        while i < slugs.len()
            invariant
                i <= slugs@.len(),
                entries@.map_values(|e: (String, String)| (e.0@, e.1@))
                    == strings(slugs@).take(i as int).map_values(|s: Seq<char>| (match_key_of(s), s)),
            decreases slugs@.len() - i,
        {
            let slug = slugs[i].as_str();
            let key = match_key(slug);
            let ghost before = entries@;
            let own = String::from_str(slug);
            entries.push((key, own));
            proof {
                assert(entries@ =~= before.push((key, own)));
                assert(entries@.map_values(|e: (String, String)| (e.0@, e.1@)) =~= before.map_values(
                    |e: (String, String)| (e.0@, e.1@),
                ).push((key@, own@)));
                assert(strings(slugs@).take(i + 1) =~= strings(slugs@).take(i as int).push(slugs@[i as int]@));
                assert(entries@.map_values(|e: (String, String)| (e.0@, e.1@)) =~= strings(slugs@).take(i + 1).map_values(
                    |s: Seq<char>| (match_key_of(s), s),
                ));
            }
            i = i + 1;
        }
        assert(strings(slugs@).take(i as int) =~= strings(slugs@));
        Known(entries)
    }

    /// The card a name belongs to, by its key.
    pub fn slug_of(&self, name: &str) -> (r: Option<String>)
        ensures
            opt_view(r) == slug_in(self@, name@),
    {
        let key = match_key(slugify(name).as_str());
        let kc = chars_of(key.as_str());
        assert(self@.skip(0) =~= self@);
        let mut i: usize = 0;
        while i < self.0.len()
            invariant
                i <= self@.len(),
                self@.len() == self.0@.len(),
                kc@ == match_key_of(slug_of_name(name@)),
                first_slug(self@, kc@) == first_slug(self@.skip(i as int), kc@),
            decreases self@.len() - i,
        {
            proof {
                assert(self@.skip(i as int).drop_first() =~= self@.skip(i + 1));
            }
            if same(&chars_of(self.0[i].0.as_str()), &kc) {
                return Some(self.0[i].1.clone());
            }
            i = i + 1;
        }
        None
    }
}

/// A relation, as the links see it: its type, who, and from when to when.
pub open spec fn relation_view(r: Relation) -> (Seq<char>, Seq<char>, Option<Seq<char>>, Option<Seq<char>>) {
    (r.kind@, r.name@, opt_view(r.begin), opt_view(r.end))
}

pub open spec fn relations_view(v: Seq<Relation>) -> Seq<(Seq<char>, Seq<char>, Option<Seq<char>>, Option<Seq<char>>)> {
    v.map_values(|r: Relation| relation_view(r))
}

pub open spec fn or_ellipsis(o: Option<Seq<char>>) -> Seq<char> {
    match o { Some(x) => x, None => seq!['\u{2026}'] }
}

/// « member (1979–1980) », an end left open as « … ».
pub open spec fn member_note(begin: Option<Seq<char>>, end: Option<Seq<char>>) -> Seq<char> {
    "member ("@ + or_ellipsis(first4(begin)) + seq!['\u{2013}'] + or_ellipsis(first4(end)) + ")"@
}

pub open spec fn has_target(links: Seq<(Seq<char>, Seq<char>, Option<Seq<char>>)>, t: Seq<char>) -> bool {
    exists|i: int| 0 <= i < links.len() && (#[trigger] links[i]).0 == t
}

/// MusicBrainz relations first: factual, typed, and pointing at cards the
/// catalog already has — a relation towards nobody is not a direction.
pub open spec fn relation_links(
    slug: Seq<char>,
    known: Seq<(Seq<char>, Seq<char>)>,
    acc: Seq<(Seq<char>, Seq<char>, Option<Seq<char>>)>,
    rels: Seq<(Seq<char>, Seq<char>, Option<Seq<char>>, Option<Seq<char>>)>,
) -> Seq<(Seq<char>, Seq<char>, Option<Seq<char>>)>
    decreases rels.len(),
{
    if rels.len() == 0 {
        acc
    } else {
        let r = rels[0];
        let next = match slug_in(known, r.1) {
            Some(t) => if t == slug || has_target(acc, t) {
                acc
            } else {
                acc.push((t, r.0, if r.0 == "member"@ { Some(member_note(r.2, r.3)) } else { None }))
            },
            None => acc,
        };
        relation_links(slug, known, next, rels.drop_first())
    }
}

pub open spec fn count_similar(links: Seq<(Seq<char>, Seq<char>, Option<Seq<char>>)>) -> nat
    decreases links.len(),
{
    if links.len() == 0 {
        0
    } else {
        count_similar(links.drop_last()) + if links.last().1 == "similar"@ { 1nat } else { 0nat }
    }
}

/// Then Deezer's neighbourhood, kept whether or not the target has a card,
/// four of them at most.
pub open spec fn similar_links(
    slug: Seq<char>,
    known: Seq<(Seq<char>, Seq<char>)>,
    acc: Seq<(Seq<char>, Seq<char>, Option<Seq<char>>)>,
    names: Seq<Seq<char>>,
) -> Seq<(Seq<char>, Seq<char>, Option<Seq<char>>)>
    decreases names.len(),
{
    if names.len() == 0 || count_similar(acc) == 4 {
        acc
    } else {
        let t = match slug_in(known, names[0]) { Some(t) => t, None => slug_of_name(names[0]) };
        let next = if t == slug || t.len() == 0 || has_target(acc, t) {
            acc
        } else {
            acc.push((t, "similar"@, None))
        };
        similar_links(slug, known, next, names.drop_first())
    }
}

/// The links of a new card.
pub open spec fn links_of(
    slug: Seq<char>,
    known: Seq<(Seq<char>, Seq<char>)>,
    rels: Seq<(Seq<char>, Seq<char>, Option<Seq<char>>, Option<Seq<char>>)>,
    similar: Seq<Seq<char>>,
) -> Seq<(Seq<char>, Seq<char>, Option<Seq<char>>)> {
    similar_links(slug, known, relation_links(slug, known, seq![], rels), similar)
}

fn has_target_exec(links: &Vec<Link>, t: &Vec<char>) -> (r: bool)
    ensures
        r == has_target(links_view(links@), t@),
{
    let mut i: usize = 0;
    while i < links.len()
        invariant
            i <= links@.len(),
            forall|k: int| 0 <= k < i ==> (#[trigger] links_view(links@)[k]).0 != t@,
        decreases links@.len() - i,
    {
        if same(&chars_of(links[i].to.as_str()), t) {
            assert(links_view(links@)[i as int].0 == t@);
            return true;
        }
        i = i + 1;
    }
    false
}

fn count_similar_exec(links: &Vec<Link>) -> (r: usize)
    ensures
        r == count_similar(links_view(links@)),
{
    let mut n: usize = 0;
    let mut i: usize = 0;
    while i < links.len()
        invariant
            i <= links@.len(),
            n == count_similar(links_view(links@).take(i as int)),
            n <= i,
        decreases links@.len() - i,
    {
        proof {
            assert(links_view(links@).take(i + 1).drop_last() =~= links_view(links@).take(i as int));
        }
        if same_str(links[i].kind.as_str(), "similar") {
            n = n + 1;
        }
        i = i + 1;
    }
    assert(links_view(links@).take(i as int) =~= links_view(links@));
    n
}

fn first4_or_ellipsis(o: &Option<String>) -> (r: Vec<char>)
    ensures
        r@ == or_ellipsis(first4(opt_view(*o))),
{
    match first4_exec(o) {
        Some(d) => chars_of(d.as_str()),
        None => {
            let mut r: Vec<char> = Vec::new();
            r.push('\u{2026}');
            assert(r@ =~= seq!['\u{2026}']);
            r
        },
    }
}

fn push_link(links: &mut Vec<Link>, link: Link)
    ensures
        links_view(final(links)@) == links_view(old(links)@).push(link_view(link)),
{
    let ghost before = links@;
    links.push(link);
    assert(links_view(links@) =~= links_view(before).push(link_view(link)));
}

/// The links of a new card: MusicBrainz relations towards cards the catalog
/// has, then Deezer's neighbours, card or not.
pub fn choose_links(slug: &str, relations: &Vec<Relation>, similar: &Vec<String>, known: &Known) -> (r: Vec<Link>)
    ensures
        links_view(r@) == links_of(slug@, known@, relations_view(relations@), strings(similar@)),
{
    let sc = chars_of(slug);
    let mut links: Vec<Link> = Vec::new();
    assert(links_view(links@) =~= seq![]);
    assert(relations_view(relations@).skip(0) =~= relations_view(relations@));
    let mut i: usize = 0;
    while i < relations.len()
        invariant
            i <= relations@.len(),
            sc@ == slug@,
            relation_links(slug@, known@, seq![], relations_view(relations@))
                == relation_links(slug@, known@, links_view(links@), relations_view(relations@).skip(i as int)),
        decreases relations@.len() - i,
    {
        let relation = &relations[i];
        proof {
            assert(relations_view(relations@).skip(i as int).drop_first() =~= relations_view(relations@).skip(i + 1));
            assert(relations_view(relations@).skip(i as int)[0] == relation_view(*relation));
        }
        let ghost acc = links_view(links@);
        let ghost r = relation_view(*relation);
        match known.slug_of(relation.name.as_str()) {
            Some(target) => {
                let tc = chars_of(target.as_str());
                if !same(&tc, &sc) && !has_target_exec(&links, &tc) {
                    let note = if same_str(relation.kind.as_str(), "member") {
                        let mut n: Vec<char> = Vec::new();
                        push_str(&mut n, "member (");
                        let b = first4_or_ellipsis(&relation.begin);
                        push_all(&mut n, &b);
                        n.push('\u{2013}');
                        let e = first4_or_ellipsis(&relation.end);
                        push_all(&mut n, &e);
                        push_str(&mut n, ")");
                        Some(string_of(&n))
                    } else {
                        None
                    };
                    let link = Link { to: target, kind: relation.kind.clone(), note };
                    assert(link_view(link) == (tc@, r.0, if r.0 == "member"@ { Some(member_note(r.2, r.3)) } else { None })) by {
                        assert(slug_in(known@, r.1) == Some(tc@));
                    }
                    push_link(&mut links, link);
                }
            },
            None => {},
        }
        i = i + 1;
    }
    assert(relations_view(relations@).skip(i as int) =~= Seq::<(Seq<char>, Seq<char>, Option<Seq<char>>, Option<Seq<char>>)>::empty());
    assert(strings(similar@).skip(0) =~= strings(similar@));
    let mut j: usize = 0;
    while j < similar.len() && count_similar_exec(&links) != 4
        invariant
            j <= similar@.len(),
            sc@ == slug@,
            links_of(slug@, known@, relations_view(relations@), strings(similar@))
                == similar_links(slug@, known@, links_view(links@), strings(similar@).skip(j as int)),
        decreases similar@.len() - j,
    {
        let name = similar[j].as_str();
        proof {
            assert(strings(similar@).skip(j as int).drop_first() =~= strings(similar@).skip(j + 1));
            assert(strings(similar@).skip(j as int)[0] == name@);
        }
        let target = match known.slug_of(name) {
            Some(t) => t,
            None => slugify(name),
        };
        let tc = chars_of(target.as_str());
        if !same(&tc, &sc) && tc.len() > 0 && !has_target_exec(&links, &tc) {
            let mut kind: Vec<char> = Vec::new();
            push_str(&mut kind, "similar");
            push_link(&mut links, Link { to: target, kind: string_of(&kind), note: None });
        }
        j = j + 1;
    }
    proof {
        if j == similar@.len() {
            assert(strings(similar@).skip(j as int) =~= Seq::<Seq<char>>::empty());
        }
    }
    links
}

// ---------------------------------------------------------------------------
// The draft: what the sources gave, decided into a card.

/// What the generation produced: the card as text, ready to be written and
/// committed, plus what a listener should be told about it.
pub struct Draft {
    pub slug: String,
    pub name: String,
    pub toml: String,
    pub tops: usize,
    pub links: usize,
    /// What the sources could not give. Said on screen, never fatal.
    pub caveats: Vec<String>,
}

/// The name MusicBrainz is asked for: the caller's, or the slug spelled
/// with spaces.
pub open spec fn asked_of(slug: Seq<char>, hint: Option<Seq<char>>) -> Seq<char> {
    match hint {
        Some(name) => name,
        None => slug.map_values(|c: char| if c == '-' { ' ' } else { c }),
    }
}

pub fn asked_name(slug: &str, hint: Option<&str>) -> (r: String)
    ensures
        r@ == asked_of(slug@, opt_str(hint)),
{
    match hint {
        Some(name) => String::from_str(name),
        None => {
            let c = chars_of(slug);
            let mut out: Vec<char> = Vec::new();
            let mut i: usize = 0;
            while i < c.len()
                invariant
                    i <= c@.len(),
                    out@ == c@.take(i as int).map_values(|c: char| if c == '-' { ' ' } else { c }),
                decreases c@.len() - i,
            {
                out.push(if c[i] == '-' { ' ' } else { c[i] });
                assert(out@ =~= c@.take(i + 1).map_values(|c: char| if c == '-' { ' ' } else { c }));
                i = i + 1;
            }
            assert(c@.take(i as int) =~= c@);
            string_of(&out)
        },
    }
}

/// Two titles that differ only by the case of ASCII letters.
pub open spec fn ascii_same(a: Seq<char>, b: Seq<char>) -> bool {
    a.len() == b.len() && forall|i: int| 0 <= i < a.len() ==> ascii_lower(#[trigger] a[i]) == ascii_lower(b[i])
}

pub open spec fn has_ascii_same(kept: Seq<Seq<char>>, t: Seq<char>) -> bool {
    exists|k: int| 0 <= k < kept.len() && ascii_same(#[trigger] kept[k], t)
}

/// The top tracks kept: in order, without a title twice (case aside), five
/// at most.
pub open spec fn tops_kept(acc: Seq<Seq<char>>, titles: Seq<Seq<char>>) -> Seq<Seq<char>>
    decreases titles.len(),
{
    if titles.len() == 0 {
        acc
    } else {
        let next = if has_ascii_same(acc, titles[0]) { acc } else { acc.push(titles[0]) };
        if next.len() == 5 { next } else { tops_kept(next, titles.drop_first()) }
    }
}

fn ascii_same_exec(a: &Vec<char>, b: &Vec<char>) -> (r: bool)
    ensures
        r == ascii_same(a@, b@),
{
    if a.len() != b.len() {
        return false;
    }
    let mut i: usize = 0;
    while i < a.len()
        invariant
            i <= a@.len() == b@.len(),
            forall|k: int| 0 <= k < i ==> ascii_lower(#[trigger] a@[k]) == ascii_lower(b@[k]),
        decreases a@.len() - i,
    {
        if ascii_lower_exec(a[i]) != ascii_lower_exec(b[i]) {
            return false;
        }
        i = i + 1;
    }
    true
}

/// The five top tracks of an artist, from the cleaned titles Deezer gave:
/// a title already kept, case aside, is not kept twice.
pub fn keep_tops(titles: &Vec<String>) -> (r: Vec<String>)
    ensures
        strings(r@) == tops_kept(seq![], strings(titles@)),
{
    let mut kept: Vec<String> = Vec::new();
    let mut seen: Vec<Vec<char>> = Vec::new();
    assert(strings(titles@).skip(0) =~= strings(titles@));
    assert(strings(kept@) =~= Seq::<Seq<char>>::empty());
    let mut i: usize = 0;
    while i < titles.len()
        invariant
            i <= titles@.len(),
            views(seen@) == strings(kept@),
            kept@.len() < 5,
            tops_kept(seq![], strings(titles@)) == tops_kept(strings(kept@), strings(titles@).skip(i as int)),
        decreases titles@.len() - i,
    {
        let t = chars_of(titles[i].as_str());
        proof {
            assert(strings(titles@).skip(i as int).drop_first() =~= strings(titles@).skip(i + 1));
            assert(strings(titles@).skip(i as int)[0] == t@);
        }
        let mut dup = false;
        let mut k: usize = 0;
        while k < seen.len()
            invariant
                k <= seen@.len(),
                dup == exists|j: int| 0 <= j < k && ascii_same(#[trigger] views(seen@)[j], t@),
            decreases seen@.len() - k,
        {
            if ascii_same_exec(&seen[k], &t) {
                assert(ascii_same(views(seen@)[k as int], t@));
                dup = true;
            }
            k = k + 1;
        }
        assert(dup == has_ascii_same(strings(kept@), t@));
        if !dup {
            let ghost before = kept@;
            let ghost seen_before = seen@;
            kept.push(titles[i].clone());
            seen.push(t);
            assert(strings(kept@) =~= strings(before).push(t@));
            assert(views(seen@) =~= views(seen_before).push(t@));
            if kept.len() == 5 {
                return kept;
            }
        }
        i = i + 1;
    }
    assert(strings(titles@).skip(i as int) =~= Seq::<Seq<char>>::empty());
    kept
}

/// A title as Deezer gives it, without its remastering suffix.
pub open spec fn clean_of(t: Seq<char>) -> Seq<char> {
    cleaned_top(t, lowercase(t))
}

pub open spec fn cleaned_all(raw: Seq<Seq<char>>) -> Seq<Seq<char>> {
    raw.map_values(|t: Seq<char>| clean_of(t))
}

/// Every title read before the fifth top is kept can be cut where its
/// suffix starts.
pub open spec fn raw_tops_fit(acc: Seq<Seq<char>>, raw: Seq<Seq<char>>) -> bool
    decreases raw.len(),
{
    raw.len() == 0 || (top_cut_fits(raw[0], lowercase(raw[0])) && {
        let t = clean_of(raw[0]);
        let next = if has_ascii_same(acc, t) { acc } else { acc.push(t) };
        next.len() == 5 || raw_tops_fit(next, raw.drop_first())
    })
}

/// The five top tracks of an artist, from Deezer's titles as they come:
/// each without its remastering suffix, a title already kept (case aside)
/// not kept twice.
pub fn deezer_tops(raw: &Vec<String>) -> (r: Vec<String>)
    requires
        raw_tops_fit(seq![], strings(raw@)),
    ensures
        strings(r@) == tops_kept(seq![], cleaned_all(strings(raw@))),
{
    let ghost rv = strings(raw@);
    let ghost cv = cleaned_all(rv);
    let mut kept: Vec<String> = Vec::new();
    let mut seen: Vec<Vec<char>> = Vec::new();
    assert(cv.skip(0) =~= cv);
    assert(rv.skip(0) =~= rv);
    assert(strings(kept@) =~= Seq::<Seq<char>>::empty());
    let mut i: usize = 0;
    while i < raw.len()
        invariant
            i <= raw@.len(),
            rv == strings(raw@),
            cv == cleaned_all(rv),
            views(seen@) == strings(kept@),
            kept@.len() < 5,
            raw_tops_fit(strings(kept@), rv.skip(i as int)),
            tops_kept(seq![], cv) == tops_kept(strings(kept@), cv.skip(i as int)),
        decreases raw@.len() - i,
    {
        proof {
            assert(rv.skip(i as int)[0] == raw@[i as int]@);
            assert(rv.skip(i as int).drop_first() =~= rv.skip(i + 1));
            assert(cv.skip(i as int)[0] == clean_of(raw@[i as int]@));
            assert(cv.skip(i as int).drop_first() =~= cv.skip(i + 1));
        }
        let c = clean_top(raw[i].as_str());
        let t = chars_of(c.as_str());
        let mut dup = false;
        let mut k: usize = 0;
        while k < seen.len()
            invariant
                k <= seen@.len(),
                dup == exists|j: int| 0 <= j < k && ascii_same(#[trigger] views(seen@)[j], t@),
            decreases seen@.len() - k,
        {
            if ascii_same_exec(&seen[k], &t) {
                assert(ascii_same(views(seen@)[k as int], t@));
                dup = true;
            }
            k = k + 1;
        }
        assert(dup == has_ascii_same(strings(kept@), t@));
        if !dup {
            let ghost before = kept@;
            let ghost seen_before = seen@;
            kept.push(c);
            seen.push(t);
            assert(strings(kept@) =~= strings(before).push(t@));
            assert(views(seen@) =~= views(seen_before).push(t@));
            if kept.len() == 5 {
                return kept;
            }
        }
        i = i + 1;
    }
    assert(cv.skip(i as int) =~= Seq::<Seq<char>>::empty());
    kept
}

/// What MusicBrainz answered for the id: the facts, nothing, or a failure.
/// An id given by hand that MusicBrainz fails to answer still makes a
/// minimal card, with a caveat; an id found by the search that it fails to
/// answer does not.
pub open spec fn settled(
    mbid: Seq<char>,
    outcome: Result<Option<Facts>, String>,
    asked: Seq<char>,
    by_hand: bool,
) -> Result<(Option<Facts>, Seq<Seq<char>>), Seq<char>> {
    match outcome {
        Ok(Some(f)) => Ok((Some(f), seq![])),
        Ok(None) => Err(if by_hand {
            "MusicBrainz does not know the id "@ + mbid
        } else {
            "MusicBrainz no longer knows the id "@ + mbid
        }),
        Err(why) => if by_hand { Ok((None, seq![why@ + ": minimal card, to review"@])) } else { Err(why@) },
    }
}

/// The text of a card MusicBrainz could not describe: its name and id, the
/// tags nothing gives (none), the tops and the links.
pub open spec fn bare_card_text(
    name: Seq<char>,
    mbid: Seq<char>,
    tops: Seq<Seq<char>>,
    links: Seq<(Seq<char>, Seq<char>, Option<Seq<char>>)>,
) -> Seq<char> {
    join(card_lines(name, mbid, None, None, None, None, tags_of(seq![], None, None, None), tops, links),
        seq!['\n']) + seq!['\n']
}

/// What a card's caveats are, from those MusicBrainz left and what the card
/// lacks.
pub open spec fn caveats_of(said: Seq<Seq<char>>, tops: nat, links: nat) -> Seq<Seq<char>> {
    let a = if tops == 0 { said.push(NO_TOPS@) } else { said };
    if links == 0 { a.push(NO_LINKS@) } else { a }
}

/// Why MusicBrainz failed, where it did.
pub open spec fn failure_of(outcome: Result<Option<Facts>, String>) -> Seq<char> {
    match outcome { Err(why) => why@, _ => seq![] }
}

/// The caveat of a card without tops.
pub const NO_TOPS: &'static str = "no tops: Deezer does not know this artist";

/// The caveat of a card without links.
pub const NO_LINKS: &'static str = "no links: this card will only branch through its tags";

/// The caveat MusicBrainz leaves is neither of the two a card's lacks give:
/// it ends otherwise.
proof fn lemma_caveats_tell(why: Seq<char>, tops: nat, links: nat)
    ensures
        caveats_of(seq![], tops, links).contains(NO_TOPS@) <==> tops == 0,
        caveats_of(seq![], tops, links).contains(NO_LINKS@) <==> links == 0,
        caveats_of(seq![why + ": minimal card, to review"@], tops, links).contains(NO_TOPS@) <==> tops == 0,
        caveats_of(seq![why + ": minimal card, to review"@], tops, links).contains(NO_LINKS@) <==> links == 0,
{
    reveal_strlit("no tops: Deezer does not know this artist");
    reveal_strlit("no links: this card will only branch through its tags");
    reveal_strlit(": minimal card, to review");
    let m = why + ": minimal card, to review"@;
    assert(m.last() == 'w');
    assert(NO_TOPS@.last() == 't');
    assert(NO_LINKS@.last() == 's');
    assert(NO_TOPS@ != NO_LINKS@);
    let c0 = caveats_of(seq![], tops, links);
    let c1 = caveats_of(seq![m], tops, links);
    if tops == 0 {
        assert(c0.contains(NO_TOPS@) && c1.contains(NO_TOPS@)) by {
            assert(c0[0] == NO_TOPS@);
            assert(c1[1] == NO_TOPS@);
        }
    } else {
        assert(!c0.contains(NO_TOPS@));
        assert(!c1.contains(NO_TOPS@)) by {
            if c1.contains(NO_TOPS@) {
                let k = choose|k: int| 0 <= k < c1.len() && c1[k] == NO_TOPS@;
                assert(k == 0 ==> c1[k] == m);
            }
        }
    }
    if links == 0 {
        assert(c0.contains(NO_LINKS@) && c1.contains(NO_LINKS@)) by {
            assert(c0[c0.len() - 1] == NO_LINKS@);
            assert(c1[c1.len() - 1] == NO_LINKS@);
        }
    } else {
        assert(!c0.contains(NO_LINKS@));
        assert(!c1.contains(NO_LINKS@)) by {
            if c1.contains(NO_LINKS@) {
                let k = choose|k: int| 0 <= k < c1.len() && c1[k] == NO_LINKS@;
                assert(k == 0 ==> c1[k] == m);
            }
        }
    }
}

fn push_string(v: &mut Vec<String>, s: String)
    ensures
        strings(final(v)@) == strings(old(v)@).push(s@),
{
    let ghost before = v@;
    v.push(s);
    assert(strings(v@) =~= strings(before).push(s@));
}

/// What a draft says of itself, whatever the sources gave: five tops at
/// most, and a caveat of missing tops (links) exactly when there are none.
pub open spec fn draft_is_sound(r: Result<Draft, String>) -> bool {
    r matches Ok(d) ==> {
        &&& d.tops <= 5
        &&& (strings(d.caveats@).contains(NO_TOPS@) <==> d.tops == 0)
        &&& (strings(d.caveats@).contains(NO_LINKS@) <==> d.links == 0)
    }
}

/// The draft of `slug` from what the sources answered: the error MusicBrainz's
/// answer settles on, or the card its facts (or the name asked) make with
/// the tops kept from Deezer's titles and the links decided.
pub open spec fn drafted(
    r: Result<Draft, String>,
    slug: Seq<char>,
    mbid: Seq<char>,
    outcome: Result<Option<Facts>, String>,
    asked: Seq<char>,
    by_hand: bool,
    raw_tops: Seq<Seq<char>>,
    similar: Seq<Seq<char>>,
    known: Seq<(Seq<char>, Seq<char>)>,
) -> bool {
    match settled(mbid, outcome, asked, by_hand) {
        Err(e) => r matches Err(why) && why@ == e,
        Ok((found, said)) => r matches Ok(d) && {
            let name = match found { Some(f) => f.name@, None => asked };
            let tops = tops_kept(seq![], cleaned_all(raw_tops));
            &&& d.slug@ == slug
            &&& d.name@ == name
            &&& d.tops == tops.len()
            &&& (match found {
                Some(f) => {
                    let links = links_of(slug, known, relations_view(f.relations@), similar);
                    &&& d.toml@ == card_text(f.name@, mbid, f,
                        tags_of(strings(f.genres@), opt_view(f.country), opt_view(f.kind), opt_view(f.begin)),
                        tops, links)
                    &&& d.links == links.len()
                    &&& strings(d.caveats@) == caveats_of(said, tops.len(), links.len())
                },
                None => {
                    let links = links_of(slug, known, seq![], similar);
                    &&& d.toml@ == bare_card_text(asked, mbid, tops, links)
                    &&& d.links == links.len()
                    &&& strings(d.caveats@) == caveats_of(said, tops.len(), links.len())
                },
            })
        },
    }
}

/// Whether every title read before the fifth top is kept can be cut where
/// its suffix starts.
pub fn tops_can_be_cut(raw: &Vec<String>) -> (r: bool)
    ensures
        r == raw_tops_fit(seq![], strings(raw@)),
{
    let ghost rv = strings(raw@);
    let mut kept: Vec<String> = Vec::new();
    let mut seen: Vec<Vec<char>> = Vec::new();
    assert(rv.skip(0) =~= rv);
    assert(strings(kept@) =~= Seq::<Seq<char>>::empty());
    let mut i: usize = 0;
    while i < raw.len()
        invariant
            i <= raw@.len(),
            rv == strings(raw@),
            views(seen@) == strings(kept@),
            kept@.len() < 5,
            raw_tops_fit(seq![], rv) == raw_tops_fit(strings(kept@), rv.skip(i as int)),
        decreases raw@.len() - i,
    {
        proof {
            assert(rv.skip(i as int)[0] == raw@[i as int]@);
            assert(rv.skip(i as int).drop_first() =~= rv.skip(i + 1));
        }
        let c = match try_clean_top(raw[i].as_str()) {
            Some(c) => c,
            None => {
                return false;
            },
        };
        let t = chars_of(c.as_str());
        let mut dup = false;
        let mut k: usize = 0;
        while k < seen.len()
            invariant
                k <= seen@.len(),
                dup == exists|j: int| 0 <= j < k && ascii_same(#[trigger] views(seen@)[j], t@),
            decreases seen@.len() - k,
        {
            if ascii_same_exec(&seen[k], &t) {
                assert(ascii_same(views(seen@)[k as int], t@));
                dup = true;
            }
            k = k + 1;
        }
        assert(dup == has_ascii_same(strings(kept@), t@));
        if !dup {
            let ghost before = kept@;
            let ghost seen_before = seen@;
            kept.push(c);
            seen.push(t);
            assert(strings(kept@) =~= strings(before).push(t@));
            assert(views(seen@) =~= views(seen_before).push(t@));
            if kept.len() == 5 {
                return true;
            }
        }
        i = i + 1;
    }
    assert(rv.skip(i as int) =~= Seq::<Seq<char>>::empty());
    true
}

/// `draft` for any titles Deezer gives: `None` when one of those read before
/// the fifth top is kept cannot be cut where its lower-cased spelling puts
/// its suffix.
pub fn try_draft(
    slug: &str,
    mbid: &str,
    outcome: Result<Option<Facts>, String>,
    asked: String,
    by_hand: bool,
    raw_tops: Vec<String>,
    similar: Vec<String>,
    known: &Known,
) -> (r: Option<Result<Draft, String>>)
    ensures
        r is Some == raw_tops_fit(seq![], strings(raw_tops@)),
        r matches Some(x) ==> draft_is_sound(x)
            && drafted(x, slug@, mbid@, outcome, asked@, by_hand, strings(raw_tops@), strings(similar@), known@),
{
    if tops_can_be_cut(&raw_tops) {
        Some(draft(slug, mbid, outcome, asked, by_hand, raw_tops, similar, known))
    } else {
        None
    }
}

/// Generate the card of `slug` from what the two sources answered:
/// MusicBrainz's answer for the id (`by_hand` when the id was given rather
/// than found by the search; `asked` names a minimal card), Deezer's top
/// titles as they come and its similar artists. The tops are kept here,
/// the links decided here, then the tags, then the text.
pub fn draft(
    slug: &str,
    mbid: &str,
    outcome: Result<Option<Facts>, String>,
    asked: String,
    by_hand: bool,
    raw_tops: Vec<String>,
    similar: Vec<String>,
    known: &Known,
) -> (r: Result<Draft, String>)
    requires
        raw_tops_fit(seq![], strings(raw_tops@)),
    ensures
        draft_is_sound(r),
        drafted(r, slug@, mbid@, outcome, asked@, by_hand, strings(raw_tops@), strings(similar@), known@),
{
    let ghost outcome_seen = outcome;
    let (facts, mut caveats): (Facts, Vec<String>) = match outcome {
        Ok(Some(f)) => (f, Vec::new()),
        Ok(None) => {
            return Err(if by_hand {
                let mut e: Vec<char> = Vec::new();
                push_str(&mut e, "MusicBrainz does not know the id ");
                push_str(&mut e, mbid);
                string_of(&e)
            } else {
                forgotten(mbid)
            });
        },
        Err(why) => {
            if by_hand {
                let mut c: Vec<char> = Vec::new();
                push_str(&mut c, why.as_str());
                push_str(&mut c, ": minimal card, to review");
                let mut said: Vec<String> = Vec::new();
                push_string(&mut said, string_of(&c));
                (Facts::minimal(asked), said)
            } else {
                return Err(why);
            }
        },
    };
    let ghost said: Seq<Seq<char>> = match outcome_seen {
        Err(w) => seq![w@ + ": minimal card, to review"@],
        _ => seq![],
    };
    assert(strings(caveats@) =~= said);
    let tops = deezer_tops(&raw_tops);
    if tops.len() == 0 {
        push_string(&mut caveats, String::from_str(NO_TOPS));
    }
    let links = choose_links(slug, &facts.relations, &similar, known);
    if links.len() == 0 {
        push_string(&mut caveats, String::from_str(NO_LINKS));
    }
    let tags = compose_tags(&facts);
    let toml = compose(facts.name.as_str(), mbid, &facts, &tags, &tops, &links);
    let n_tops = tops.len();
    let n_links = links.len();
    proof {
        tops_are_few_and_distinct(cleaned_all(strings(raw_tops@)));
        lemma_caveats_tell(failure_of(outcome_seen), n_tops as nat, n_links as nat);
        assert(strings(tops@).len() == tops@.len());
        assert(strings(caveats@) == caveats_of(said, n_tops as nat, n_links as nat));
    }
    Ok(Draft { slug: String::from_str(slug), name: facts.name, toml, tops: n_tops, links: n_links, caveats })
}

// ---------------------------------------------------------------------------
// The searches: which answer is the artist asked for.

/// The key two spellings of one artist share.
pub open spec fn name_key(name: Seq<char>) -> Seq<char> {
    match_key_of(slug_of_name(name))
}

fn name_key_exec(name: &str) -> (r: Vec<char>)
    ensures
        r@ == name_key(name@),
{
    chars_of(match_key(slugify(name).as_str()).as_str())
}

/// One answer of a MusicBrainz artist search: its score, its name and its
/// id, as far as they are there.
pub struct MbHit {
    pub score: u64,
    pub name: Option<String>,
    pub id: Option<String>,
}

pub open spec fn mb_hit_view(h: MbHit) -> (u64, Option<Seq<char>>, Option<Seq<char>>) {
    (h.score, opt_view(h.name), opt_view(h.id))
}

/// The score alone is not enough — "destinys child" must land on
/// "Destiny's Child" — so the keys are compared too; below 90 the search
/// has given up.
pub open spec fn mb_pick(wanted: Seq<char>, hits: Seq<(u64, Option<Seq<char>>, Option<Seq<char>>)>) -> Option<Seq<char>>
    decreases hits.len(),
{
    if hits.len() == 0 || hits[0].0 < 90 {
        None
    } else {
        match hits[0].1 {
            Some(n) => if name_key(n) == wanted { hits[0].2 } else { mb_pick(wanted, hits.drop_first()) },
            None => mb_pick(wanted, hits.drop_first()),
        }
    }
}

/// The id of the artist among the answers of a MusicBrainz search for `name`.
pub fn pick_mbid(name: &str, hits: &Vec<MbHit>) -> (r: Option<String>)
    ensures
        opt_view(r) == mb_pick(name_key(name@), hits@.map_values(|h: MbHit| mb_hit_view(h))),
{
    let wanted = name_key_exec(name);
    let ghost hv = hits@.map_values(|h: MbHit| mb_hit_view(h));
    assert(hv.skip(0) =~= hv);
    let mut i: usize = 0;
    while i < hits.len()
        invariant
            i <= hits@.len(),
            hv == hits@.map_values(|h: MbHit| mb_hit_view(h)),
            wanted@ == name_key(name@),
            mb_pick(wanted@, hv) == mb_pick(wanted@, hv.skip(i as int)),
        decreases hits@.len() - i,
    {
        let hit = &hits[i];
        proof {
            assert(hv.skip(i as int).drop_first() =~= hv.skip(i + 1));
            assert(hv.skip(i as int)[0] == mb_hit_view(*hit));
        }
        if hit.score < 90 {
            return None;
        }
        match &hit.name {
            Some(found) => {
                if same(&name_key_exec(found.as_str()), &wanted) {
                    return hit.id.clone();
                }
            },
            None => {},
        }
        i = i + 1;
    }
    None
}

pub open spec fn opt_views(v: Seq<Option<String>>) -> Seq<Option<Seq<char>>> {
    v.map_values(|o: Option<String>| opt_view(o))
}

/// The first other spelling of `name` that has its key.
pub open spec fn respelled(name: Seq<char>, hits: Seq<Option<Seq<char>>>) -> Option<Seq<char>>
    decreases hits.len(),
{
    if hits.len() == 0 {
        None
    } else {
        match hits[0] {
            Some(h) => if h != name && name_key(h) == name_key(name) { Some(h) } else { respelled(name, hits.drop_first()) },
            None => respelled(name, hits.drop_first()),
        }
    }
}

/// A slug spelled back out lost its apostrophes and accents — « Lojo » for
/// Lo’Jo — and MusicBrainz's search does not bridge that gap; Deezer's
/// does, so among the names Deezer answers for `name`, the first other
/// spelling with the same key is the one to ask MusicBrainz again.
pub fn respelling(name: &str, hits: &Vec<Option<String>>) -> (r: Option<String>)
    ensures
        opt_view(r) == respelled(name@, opt_views(hits@)),
{
    let wanted = name_key_exec(name);
    let own = chars_of(name);
    let ghost hv = opt_views(hits@);
    assert(hv.skip(0) =~= hv);
    let mut i: usize = 0;
    while i < hits.len()
        invariant
            i <= hits@.len(),
            hv == opt_views(hits@),
            wanted@ == name_key(name@),
            own@ == name@,
            respelled(name@, hv) == respelled(name@, hv.skip(i as int)),
        decreases hits@.len() - i,
    {
        proof {
            assert(hv.skip(i as int).drop_first() =~= hv.skip(i + 1));
            assert(hv.skip(i as int)[0] == opt_view(hits@[i as int]));
        }
        match &hits[i] {
            Some(hit) => {
                let hc = chars_of(hit.as_str());
                if !same(&hc, &own) && same(&name_key_exec(hit.as_str()), &wanted) {
                    return Some(hit.clone());
                }
            },
            None => {},
        }
        i = i + 1;
    }
    None
}

pub open spec fn dz_hit_view(h: (Option<String>, Option<u64>)) -> (Option<Seq<char>>, Option<u64>) {
    (opt_view(h.0), h.1)
}

/// The Deezer id of the artist among the answers of a search for `name`: an
/// answer without a name ends the search, as does the right one without a
/// numeric id.
pub open spec fn dz_pick(wanted: Seq<char>, hits: Seq<(Option<Seq<char>>, Option<u64>)>) -> Option<Seq<char>>
    decreases hits.len(),
{
    if hits.len() == 0 {
        None
    } else {
        match hits[0].0 {
            Some(n) => if name_key(n) == wanted {
                match hits[0].1 { Some(id) => Some(decimal(id as nat)), None => None }
            } else {
                dz_pick(wanted, hits.drop_first())
            },
            None => None,
        }
    }
}

pub fn pick_deezer_id(name: &str, hits: &Vec<(Option<String>, Option<u64>)>) -> (r: Option<String>)
    ensures
        opt_view(r) == dz_pick(name_key(name@), hits@.map_values(|h: (Option<String>, Option<u64>)| dz_hit_view(h))),
{
    let wanted = name_key_exec(name);
    let ghost hv = hits@.map_values(|h: (Option<String>, Option<u64>)| dz_hit_view(h));
    assert(hv.skip(0) =~= hv);
    let mut i: usize = 0;
    while i < hits.len()
        invariant
            i <= hits@.len(),
            hv == hits@.map_values(|h: (Option<String>, Option<u64>)| dz_hit_view(h)),
            wanted@ == name_key(name@),
            dz_pick(wanted@, hv) == dz_pick(wanted@, hv.skip(i as int)),
        decreases hits@.len() - i,
    {
        let hit = &hits[i];
        proof {
            assert(hv.skip(i as int).drop_first() =~= hv.skip(i + 1));
            assert(hv.skip(i as int)[0] == dz_hit_view(*hit));
        }
        match &hit.0 {
            Some(n) => {
                if same(&name_key_exec(n.as_str()), &wanted) {
                    return match hit.1 {
                        Some(id) => Some(string_of(&decimal_of(id))),
                        None => None,
                    };
                }
            },
            None => {
                return None;
            },
        }
        i = i + 1;
    }
    None
}

// ---------------------------------------------------------------------------
// An artist's page, read into facts.

/// A relation of the artist's MusicBrainz page, as far as it is there: the
/// url it points at, the artist it names, its type and its dates.
pub struct RawRelation {
    pub url: Option<String>,
    pub artist: Option<String>,
    pub kind: Option<String>,
    pub begin: Option<String>,
    pub end: Option<String>,
}

/// The artist's MusicBrainz page, as far as it is there.
pub struct RawArtist {
    pub name: Option<String>,
    pub kind: Option<String>,
    pub country: Option<String>,
    pub area: Option<String>,
    pub begin: Option<String>,
    pub end: Option<String>,
    pub ended: bool,
    /// The genres with their vote counts, in the page's order.
    pub genres: Vec<(String, u64)>,
    pub relations: Vec<RawRelation>,
}

pub open spec fn genre_view(g: Seq<(String, u64)>) -> Seq<(Seq<char>, u64)> {
    g.map_values(|e: (String, u64)| (e.0@, e.1))
}

/// Where an entry with count `c` goes in a list sorted by count, most first:
/// after every entry with as many votes or more.
pub open spec fn first_below(sorted: Seq<(Seq<char>, u64)>, c: u64, i: int) -> int
    decreases sorted.len() - i,
{
    if i < 0 || i >= sorted.len() || sorted[i].1 < c { i } else { first_below(sorted, c, i + 1) }
}

/// The genres sorted by votes, most first; equal counts keep the page's
/// order.
pub open spec fn by_votes(g: Seq<(Seq<char>, u64)>) -> Seq<(Seq<char>, u64)>
    decreases g.len(),
{
    if g.len() == 0 {
        seq![]
    } else {
        let s = by_votes(g.drop_last());
        s.insert(first_below(s, g.last().1, 0), g.last())
    }
}

pub open spec fn ranked_genres(g: Seq<(Seq<char>, u64)>) -> Seq<Seq<char>> {
    by_votes(g).map_values(|e: (Seq<char>, u64)| e.0)
}

proof fn lemma_first_below(sorted: Seq<(Seq<char>, u64)>, c: u64, i: int)
    requires
        0 <= i <= sorted.len(),
    ensures
        i <= first_below(sorted, c, i) <= sorted.len(),
    decreases sorted.len() - i,
{
    if i < sorted.len() && sorted[i].1 >= c {
        lemma_first_below(sorted, c, i + 1);
    }
}

pub open spec fn raw_relation_view(r: RawRelation) -> (Option<Seq<char>>, Option<Seq<char>>, Option<Seq<char>>, Option<Seq<char>>, Option<Seq<char>>) {
    (opt_view(r.url), opt_view(r.artist), opt_view(r.kind), opt_view(r.begin), opt_view(r.end))
}

pub open spec fn or_empty(o: Option<Seq<char>>) -> Seq<char> {
    match o { Some(s) => s, None => seq![] }
}

/// The Spotify id the first url relation that holds one gives.
pub open spec fn spotify_id_in(rels: Seq<(Option<Seq<char>>, Option<Seq<char>>, Option<Seq<char>>, Option<Seq<char>>, Option<Seq<char>>)>) -> Option<Seq<char>>
    decreases rels.len(),
{
    if rels.len() == 0 {
        None
    } else {
        let url = or_empty(rels[0].0);
        let here = if contains(url, "open.spotify.com/artist/"@) {
            id_after_of(url, "open.spotify.com/artist/"@, false)
        } else {
            None
        };
        match here { Some(id) => Some(id), None => spotify_id_in(rels.drop_first()) }
    }
}

/// The Deezer id the first url relation that holds one gives.
pub open spec fn deezer_id_in(rels: Seq<(Option<Seq<char>>, Option<Seq<char>>, Option<Seq<char>>, Option<Seq<char>>, Option<Seq<char>>)>) -> Option<Seq<char>>
    decreases rels.len(),
{
    if rels.len() == 0 {
        None
    } else {
        let url = or_empty(rels[0].0);
        let here = if contains(url, "deezer.com"@) && contains(url, "/artist/"@) {
            id_after_of(url, "/artist/"@, true)
        } else {
            None
        };
        match here { Some(id) => Some(id), None => deezer_id_in(rels.drop_first()) }
    }
}

/// The relations towards artists whose type the format knows, typed as the
/// format says.
pub open spec fn typed_relations(rels: Seq<(Option<Seq<char>>, Option<Seq<char>>, Option<Seq<char>>, Option<Seq<char>>, Option<Seq<char>>)>) -> Seq<(Seq<char>, Seq<char>, Option<Seq<char>>, Option<Seq<char>>)>
    decreases rels.len(),
{
    if rels.len() == 0 {
        seq![]
    } else {
        let r = rels.last();
        let before = typed_relations(rels.drop_last());
        match (r.1, relation_kind_of(or_empty(r.2))) {
            (Some(target), Some(kind)) => before.push((kind, target, r.3, r.4)),
            _ => before,
        }
    }
}

fn or_empty_exec(o: &Option<String>) -> (r: Vec<char>)
    ensures
        r@ == or_empty(opt_view(*o)),
{
    match o {
        Some(s) => chars_of(s.as_str()),
        None => Vec::new(),
    }
}

fn text_contains(hay: &Vec<char>, needle: &str) -> (r: bool)
    ensures
        r == contains(hay@, needle@),
{
    contains_in(hay, &chars_of(needle))
}

/// The genres, most voted first.
pub fn rank_genres(genres: &Vec<(String, u64)>) -> (r: Vec<String>)
    ensures
        strings(r@) == ranked_genres(genre_view(genres@)),
{
    let mut sorted: Vec<(String, u64)> = Vec::new();
    let mut i: usize = 0;
    while i < genres.len()
        invariant
            i <= genres@.len(),
            genre_view(sorted@) == by_votes(genre_view(genres@).take(i as int)),
            sorted@.len() == i,
        decreases genres@.len() - i,
    {
        let count = genres[i].1;
        let ghost s0 = genre_view(sorted@);
        proof { lemma_first_below(s0, count, 0); }
        let mut j: usize = 0;
        while j < sorted.len() && sorted[j].1 >= count
            invariant
                j <= sorted@.len(),
                s0 == genre_view(sorted@),
                first_below(s0, count, 0) == first_below(s0, count, j as int),
            decreases sorted@.len() - j,
        {
            j = j + 1;
        }
        let entry = (genres[i].0.clone(), count);
        let ghost before = sorted@;
        sorted.insert(j, entry);
        proof {
            let g = genre_view(genres@).take(i + 1);
            assert(g.drop_last() =~= genre_view(genres@).take(i as int));
            assert(g.last() == (genres@[i as int].0@, count));
            assert(genre_view(sorted@) =~= s0.insert(j as int, (genres@[i as int].0@, count)));
        }
        i = i + 1;
    }
    assert(genre_view(genres@).take(i as int) =~= genre_view(genres@));
    let mut names: Vec<String> = Vec::new();
    let mut k: usize = 0;
    while k < sorted.len()
        invariant
            k <= sorted@.len(),
            strings(names@) == genre_view(sorted@).take(k as int).map_values(|e: (Seq<char>, u64)| e.0),
        decreases sorted@.len() - k,
    {
        push_string(&mut names, sorted[k].0.clone());
        assert(strings(names@) =~= genre_view(sorted@).take(k + 1).map_values(|e: (Seq<char>, u64)| e.0));
        k = k + 1;
    }
    assert(genre_view(sorted@).take(k as int) =~= genre_view(sorted@));
    names
}

pub open spec fn raw_relations_view(v: Seq<RawRelation>) -> Seq<(Option<Seq<char>>, Option<Seq<char>>, Option<Seq<char>>, Option<Seq<char>>, Option<Seq<char>>)> {
    v.map_values(|r: RawRelation| raw_relation_view(r))
}

/// Read an artist's page into facts: `None` when it has no name. The
/// genres come most voted first; the relations keep those the format can
/// type; the Spotify and Deezer ids come from the first url relations that
/// hold them; an end date counts only for an artist that ended.
pub fn facts_from(raw: &RawArtist) -> (r: Option<Facts>)
    ensures
        r is Some == raw.name is Some,
        r matches Some(f) ==> {
            &&& f.name@ == raw.name->0@
            &&& opt_view(f.kind) == opt_view(raw.kind)
            &&& opt_view(f.country) == opt_view(raw.country)
            &&& opt_view(f.area) == opt_view(raw.area)
            &&& opt_view(f.begin) == opt_view(raw.begin)
            &&& opt_view(f.end) == (if raw.ended { opt_view(raw.end) } else { None })
            &&& strings(f.genres@) == ranked_genres(genre_view(raw.genres@))
            &&& relations_view(f.relations@) == typed_relations(raw_relations_view(raw.relations@))
            &&& opt_view(f.spotify) == spotify_id_in(raw_relations_view(raw.relations@))
            &&& opt_view(f.deezer) == deezer_id_in(raw_relations_view(raw.relations@))
        },
{
    let ghost rv = raw_relations_view(raw.relations@);
    let mut relations: Vec<Relation> = Vec::new();
    let mut spotify: Option<String> = None;
    let mut deezer: Option<String> = None;
    assert(rv.skip(0) =~= rv);
    assert(relations_view(relations@) =~= seq![]);
    let mut i: usize = 0;
    while i < raw.relations.len()
        invariant
            i <= raw.relations@.len(),
            rv == raw_relations_view(raw.relations@),
            relations_view(relations@) == typed_relations(rv.take(i as int)),
            spotify_id_in(rv) == match opt_view(spotify) { Some(id) => Some(id), None => spotify_id_in(rv.skip(i as int)) },
            deezer_id_in(rv) == match opt_view(deezer) { Some(id) => Some(id), None => deezer_id_in(rv.skip(i as int)) },
        decreases raw.relations@.len() - i,
    {
        let relation = &raw.relations[i];
        proof {
            assert(rv.skip(i as int).drop_first() =~= rv.skip(i + 1));
            assert(rv.skip(i as int)[0] == raw_relation_view(*relation));
            assert(rv.take(i + 1).drop_last() =~= rv.take(i as int));
            assert(rv.take(i + 1).last() == raw_relation_view(*relation));
        }
        let url = or_empty_exec(&relation.url);
        let url_s = string_of(&url);
        if text_contains(&url, "open.spotify.com/artist/") {
            if spotify.is_none() {
                spotify = id_after(url_s.as_str(), "open.spotify.com/artist/", false);
            }
        }
        if text_contains(&url, "deezer.com") && text_contains(&url, "/artist/") {
            if deezer.is_none() {
                deezer = id_after(url_s.as_str(), "/artist/", true);
            }
        }
        let kind_text = or_empty_exec(&relation.kind);
        let kind_s = string_of(&kind_text);
        match (&relation.artist, relation_kind(kind_s.as_str())) {
            (Some(target), Some(kind)) => {
                let ghost before = relations@;
                relations.push(Relation {
                    kind: String::from_str(kind),
                    name: target.clone(),
                    begin: relation.begin.clone(),
                    end: relation.end.clone(),
                });
                assert(relations_view(relations@) =~= relations_view(before).push(relation_view(relations@.last())));
            },
            _ => {},
        }
        i = i + 1;
    }
    assert(rv.take(i as int) =~= rv);
    assert(rv.skip(i as int) =~= seq![]);
    let name = match &raw.name {
        Some(n) => n.clone(),
        None => return None,
    };
    let end = if raw.ended { raw.end.clone() } else { None };
    Some(Facts {
        name,
        kind: raw.kind.clone(),
        country: raw.country.clone(),
        area: raw.area.clone(),
        begin: raw.begin.clone(),
        end,
        genres: rank_genres(&raw.genres),
        relations,
        spotify,
        deezer,
    })
}

// ---------------------------------------------------------------------------
// When MusicBrainz does not say.

/// The facts of an artist given by its id: MusicBrainz's answer, `outcome`,
/// decides. An unknown id is an error; a MusicBrainz that would not answer
/// gives a minimal card under the name asked, and a caveat says why.
pub fn settle_by_id(mbid: &str, outcome: Result<Option<Facts>, String>, asked: String) -> (r: Result<(Facts, Vec<String>), String>)
    ensures
        match outcome {
            Ok(Some(f)) => r matches Ok((g, c)) && g == f && c@.len() == 0,
            Ok(None) => r matches Err(e) && e@ == "MusicBrainz does not know the id "@ + mbid@,
            Err(why) => r matches Ok((g, c)) && g.name@ == asked@ && g.genres@.len() == 0
                && g.relations@.len() == 0 && g.spotify is None && g.deezer is None && g.begin is None
                && g.kind is None && g.country is None && g.area is None && g.end is None
                && strings(c@) == seq![why@ + ": minimal card, to review"@],
        },
{
    match outcome {
        Ok(Some(f)) => Ok((f, Vec::new())),
        Ok(None) => {
            let mut e: Vec<char> = Vec::new();
            push_str(&mut e, "MusicBrainz does not know the id ");
            push_str(&mut e, mbid);
            Err(string_of(&e))
        },
        Err(why) => {
            let mut c: Vec<char> = Vec::new();
            push_str(&mut c, why.as_str());
            push_str(&mut c, ": minimal card, to review");
            let mut caveats: Vec<String> = Vec::new();
            push_string(&mut caveats, string_of(&c));
            assert(strings(caveats@) =~= seq![why@ + ": minimal card, to review"@]);
            Ok((Facts::minimal(asked), caveats))
        },
    }
}

/// What is said when a search by name finds nobody.
pub fn not_found(asked: &str) -> (r: String)
    ensures
        r@ == "\""@ + asked@ + "\" not found on MusicBrainz \u{2014} :generate "@ + asked@
            + " <mbid> with an id found by hand"@,
{
    let mut e: Vec<char> = Vec::new();
    push_str(&mut e, "\"");
    push_str(&mut e, asked);
    push_str(&mut e, "\" not found on MusicBrainz \u{2014} :generate ");
    push_str(&mut e, asked);
    push_str(&mut e, " <mbid> with an id found by hand");
    string_of(&e)
}

/// What is said when the id a search found is no longer known.
pub fn forgotten(mbid: &str) -> (r: String)
    ensures
        r@ == "MusicBrainz no longer knows the id "@ + mbid@,
{
    let mut e: Vec<char> = Vec::new();
    push_str(&mut e, "MusicBrainz no longer knows the id ");
    push_str(&mut e, mbid);
    string_of(&e)
}

/// A stale or duplicate MusicBrainz id points at an empty Deezer page: when
/// the id came from MusicBrainz and gave no tops, Deezer is asked by name
/// before giving up on the tops.
pub fn worth_asking_by_name(tops_found: usize, id_from_musicbrainz: bool) -> (r: bool)
    ensures
        r == (tops_found == 0 && id_from_musicbrainz),
{
    tops_found == 0 && id_from_musicbrainz
}

/// The id Deezer gives by name, when it is another one than the stale id.
pub fn other_id(by_name: Option<String>, id: &str) -> (r: Option<String>)
    ensures
        opt_view(r) == match opt_view(by_name) {
            Some(o) => if o != id@ { Some(o) } else { None },
            None => None,
        },
{
    match by_name {
        Some(o) => if same_str(o.as_str(), id) { None } else { Some(o) },
        None => None,
    }
}

// ---------------------------------------------------------------------------
// What the slug rule guarantees.

/// A character a slug may hold: a lower-case ASCII letter, a digit, a
/// hyphen.
pub open spec fn is_slug_char(c: char) -> bool {
    crate::text::is_ascii_lower(c) || is_ascii_digit(c) || c == '-'
}

/// A slug: slug characters only, hyphens between words and nowhere else.
pub open spec fn is_slug(s: Seq<char>) -> bool {
    &&& forall|i: int| 0 <= i < s.len() ==> is_slug_char(#[trigger] s[i])
    &&& s.len() > 0 ==> s[0] != '-' && s.last() != '-'
    &&& forall|i: int| 0 <= i < s.len() - 1 ==> !(#[trigger] s[i] == '-' && s[i + 1] == '-')
}

/// A word of a slug: not empty, lower-case letters and digits.
pub open spec fn slug_word(w: Seq<char>) -> bool {
    w.len() > 0 && forall|i: int| 0 <= i < w.len() ==> (crate::text::is_ascii_lower(#[trigger] w[i]) || is_ascii_digit(w[i]))
}

proof fn lemma_lower_word_char(c: char)
    requires
        is_ascii_alnum(c),
    ensures
        crate::text::is_ascii_lower(ascii_lower(c)) || is_ascii_digit(ascii_lower(c)),
{
    if crate::text::is_ascii_upper(c) {
        assert((((c as u32) + 32) as char) as u32 == (c as u32) + 32);
    }
}

proof fn lemma_words_are_words(s: Seq<char>)
    ensures
        forall|k: int| 0 <= k < words(s).len() ==> slug_word(#[trigger] words(s)[k]),
    decreases s.len(),
{
    if s.len() > 0 {
        lemma_words_are_words(s.drop_last());
        let w = words(s.drop_last());
        let c = s.last();
        if is_ascii_alnum(c) {
            lemma_lower_word_char(c);
            if ends_in_word(s.drop_last()) && w.len() > 0 {
                let last = w.last().push(ascii_lower(c));
                assert(slug_word(w[w.len() - 1]));
                assert(slug_word(last));
                assert forall|k: int| 0 <= k < words(s).len() implies slug_word(#[trigger] words(s)[k]) by {
                    if k < w.len() - 1 {
                        assert(words(s)[k] == w[k]);
                    }
                }
            } else {
                assert(slug_word(seq![ascii_lower(c)]));
                assert forall|k: int| 0 <= k < words(s).len() implies slug_word(#[trigger] words(s)[k]) by {
                    if k < w.len() {
                        assert(words(s)[k] == w[k]);
                    }
                }
            }
        }
    }
}

proof fn lemma_join_is_slug(ws: Seq<Seq<char>>)
    requires
        forall|k: int| 0 <= k < ws.len() ==> slug_word(#[trigger] ws[k]),
    ensures
        is_slug(join(ws, seq!['-'])),
        ws.len() > 0 ==> join(ws, seq!['-']).len() > 0,
    decreases ws.len(),
{
    if ws.len() == 1 {
        assert(slug_word(ws[0]));
        assert(join(ws, seq!['-']) == ws[0]);
    } else if ws.len() > 1 {
        let init = ws.drop_last();
        assert forall|k: int| 0 <= k < init.len() implies slug_word(#[trigger] init[k]) by {
            assert(init[k] == ws[k]);
        }
        lemma_join_is_slug(init);
        let a = join(init, seq!['-']);
        let w = ws.last();
        assert(slug_word(ws[ws.len() - 1]));
        let j = a + seq!['-'] + w;
        assert(join(ws, seq!['-']) == j);
        assert forall|i: int| 0 <= i < j.len() implies is_slug_char(#[trigger] j[i]) by {
            if i < a.len() {
                assert(j[i] == a[i]);
            } else if i > a.len() {
                assert(j[i] == w[i - a.len() - 1]);
            }
        }
        assert forall|i: int| 0 <= i < j.len() - 1 implies !(#[trigger] j[i] == '-' && j[i + 1] == '-') by {
            if i < a.len() - 1 {
                assert(j[i] == a[i] && j[i + 1] == a[i + 1]);
            } else if i == a.len() - 1 {
                assert(j[i] == a.last());
            } else if i == a.len() {
                assert(j[i + 1] == w[0]);
            } else {
                assert(j[i] == w[i - a.len() - 1]);
            }
        }
        assert(j[0] == a[0]);
        assert(j.last() == w.last());
    }
}

/// Whatever the name, its slug follows the catalog's rule: lower-case ASCII
/// letters and digits, in words joined by single hyphens, none at either
/// end.
pub proof fn slugs_follow_the_rule(name: Seq<char>)
    ensures
        is_slug(slug_of_name(name)),
{
    lemma_words_are_words(prepared(name));
    lemma_join_is_slug(words(prepared(name)));
    reveal_strlit("-");
    assert("-"@ =~= seq!['-']);
}

proof fn lemma_prepared_slug(s: Seq<char>)
    requires
        forall|i: int| 0 <= i < s.len() ==> is_slug_char(#[trigger] s[i]),
    ensures
        prepared(s) == s,
    decreases s.len(),
{
    if s.len() > 0 {
        let t = s.drop_last();
        assert forall|i: int| 0 <= i < t.len() implies is_slug_char(#[trigger] t[i]) by {
            assert(t[i] == s[i]);
        }
        lemma_prepared_slug(t);
        assert(is_slug_char(s[s.len() - 1]));
        assert(prepared_char(s.last()) == seq![s.last()]);
        assert(t + seq![s.last()] =~= s);
    }
}

/// How a text made of slug characters, not starting with a hyphen and
/// without two in a row, falls into words: they give it back, a trailing
/// hyphen aside.
proof fn lemma_words_of_slug(s: Seq<char>)
    requires
        forall|i: int| 0 <= i < s.len() ==> is_slug_char(#[trigger] s[i]),
        s.len() > 0 ==> s[0] != '-',
        forall|i: int| 0 <= i < s.len() - 1 ==> !(#[trigger] s[i] == '-' && s[i + 1] == '-'),
    ensures
        s.len() == 0 ==> words(s).len() == 0,
        s.len() > 0 && s.last() != '-' ==> join(words(s), seq!['-']) == s && words(s).len() > 0,
        s.len() > 0 && s.last() == '-' ==> join(words(s), seq!['-']) + seq!['-'] == s && words(s).len() > 0,
    decreases s.len(),
{
    if s.len() > 0 {
        let t = s.drop_last();
        let c = s.last();
        assert forall|i: int| 0 <= i < t.len() implies is_slug_char(#[trigger] t[i]) by {
            assert(t[i] == s[i]);
        }
        assert forall|i: int| 0 <= i < t.len() - 1 implies !(#[trigger] t[i] == '-' && t[i + 1] == '-') by {
            assert(t[i] == s[i] && t[i + 1] == s[i + 1]);
        }
        if t.len() > 0 {
            assert(t[0] == s[0]);
        }
        lemma_words_of_slug(t);
        assert(is_slug_char(s[s.len() - 1]));
        if c != '-' {
            assert(is_ascii_alnum(c));
            assert(ascii_lower(c) == c);
            if t.len() == 0 {
                assert(words(s) == seq![seq![c]]);
                assert(seq![c] =~= s);
            } else if t.last() != '-' {
                assert(is_slug_char(t[t.len() - 1]));
                assert(ends_in_word(t));
                lemma_join_extend(words(t), seq!['-'], c);
                assert(t.push(c) =~= s);
            } else {
                assert(!ends_in_word(t));
                lemma_join_push(words(t), seq!['-'], seq![c]);
                assert(join(words(t), seq!['-']) + seq!['-'] + seq![c] =~= s);
            }
        } else {
            assert(t.len() > 0);
            assert(s[s.len() - 2] == t.last());
            assert(t.last() != '-');
            assert(words(s) == words(t));
            assert(t + seq!['-'] =~= s);
        }
    }
}

/// A slug is its own slug: the rule, applied twice, changes nothing.
pub proof fn slugs_are_fixed_points(name: Seq<char>)
    ensures
        slug_of_name(slug_of_name(name)) == slug_of_name(name),
{
    let s = slug_of_name(name);
    slugs_follow_the_rule(name);
    lemma_prepared_slug(s);
    lemma_words_of_slug(s);
    reveal_strlit("-");
    assert("-"@ =~= seq!['-']);
    if s.len() == 0 {
        assert(join(words(s), seq!['-']) =~= s);
    }
}

// ---------------------------------------------------------------------------
// What the links of a new card are.

/// No link at the card itself, and none twice at the same card.
pub open spec fn links_sound(slug: Seq<char>, links: Seq<(Seq<char>, Seq<char>, Option<Seq<char>>)>) -> bool {
    &&& forall|i: int| 0 <= i < links.len() ==> (#[trigger] links[i]).0 != slug
    &&& forall|i: int, j: int| 0 <= i < j < links.len() ==> (#[trigger] links[i]).0 != (#[trigger] links[j]).0
}

proof fn lemma_push_sound(
    slug: Seq<char>,
    acc: Seq<(Seq<char>, Seq<char>, Option<Seq<char>>)>,
    l: (Seq<char>, Seq<char>, Option<Seq<char>>),
)
    requires
        links_sound(slug, acc),
        l.0 != slug,
        !has_target(acc, l.0),
    ensures
        links_sound(slug, acc.push(l)),
{
    let n = acc.push(l);
    assert forall|i: int| 0 <= i < n.len() implies (#[trigger] n[i]).0 != slug by {
        if i < acc.len() {
            assert(n[i] == acc[i]);
        }
    }
    assert forall|i: int, j: int| 0 <= i < j < n.len() implies (#[trigger] n[i]).0 != (#[trigger] n[j]).0 by {
        assert(n[i] == acc[i]);
        if j < acc.len() {
            assert(n[j] == acc[j]);
        } else {
            assert(n[j] == l);
            if acc[i].0 == l.0 {
                assert(has_target(acc, l.0));
            }
        }
    }
}

proof fn lemma_count_similar_push(
    links: Seq<(Seq<char>, Seq<char>, Option<Seq<char>>)>,
    l: (Seq<char>, Seq<char>, Option<Seq<char>>),
)
    ensures
        count_similar(links.push(l)) == count_similar(links) + if l.1 == "similar"@ { 1nat } else { 0nat },
{
    assert(links.push(l).drop_last() =~= links);
}

proof fn lemma_relation_links(
    slug: Seq<char>,
    known: Seq<(Seq<char>, Seq<char>)>,
    acc: Seq<(Seq<char>, Seq<char>, Option<Seq<char>>)>,
    rels: Seq<(Seq<char>, Seq<char>, Option<Seq<char>>, Option<Seq<char>>)>,
)
    requires
        links_sound(slug, acc),
    ensures
        links_sound(slug, relation_links(slug, known, acc, rels)),
        (forall|k: int| 0 <= k < rels.len() ==> (#[trigger] rels[k]).0 != "similar"@)
            ==> count_similar(relation_links(slug, known, acc, rels)) == count_similar(acc),
    decreases rels.len(),
{
    if rels.len() > 0 {
        let r = rels[0];
        let next = match slug_in(known, r.1) {
            Some(t) => if t == slug || has_target(acc, t) {
                acc
            } else {
                acc.push((t, r.0, if r.0 == "member"@ { Some(member_note(r.2, r.3)) } else { None }))
            },
            None => acc,
        };
        match slug_in(known, r.1) {
            Some(t) => if !(t == slug || has_target(acc, t)) {
                let l = (t, r.0, if r.0 == "member"@ { Some(member_note(r.2, r.3)) } else { None });
                lemma_push_sound(slug, acc, l);
                lemma_count_similar_push(acc, l);
            },
            None => {},
        }
        assert forall|k: int| 0 <= k < rels.drop_first().len() implies rels.drop_first()[k] == rels[k + 1] by {}
        lemma_relation_links(slug, known, next, rels.drop_first());
        if forall|k: int| 0 <= k < rels.len() ==> (#[trigger] rels[k]).0 != "similar"@ {
            assert(rels[0].0 != "similar"@);
            assert forall|k: int| 0 <= k < rels.drop_first().len() implies (#[trigger] rels.drop_first()[k]).0 != "similar"@ by {
                assert(rels.drop_first()[k] == rels[k + 1]);
            }
        }
    }
}

proof fn lemma_similar_links(
    slug: Seq<char>,
    known: Seq<(Seq<char>, Seq<char>)>,
    acc: Seq<(Seq<char>, Seq<char>, Option<Seq<char>>)>,
    names: Seq<Seq<char>>,
)
    requires
        links_sound(slug, acc),
    ensures
        links_sound(slug, similar_links(slug, known, acc, names)),
        count_similar(acc) <= 4 ==> count_similar(similar_links(slug, known, acc, names)) <= 4,
    decreases names.len(),
{
    if names.len() > 0 && count_similar(acc) != 4 {
        let t = match slug_in(known, names[0]) { Some(t) => t, None => slug_of_name(names[0]) };
        let next = if t == slug || t.len() == 0 || has_target(acc, t) { acc } else { acc.push((t, "similar"@, None)) };
        if !(t == slug || t.len() == 0 || has_target(acc, t)) {
            lemma_push_sound(slug, acc, (t, "similar"@, None));
            lemma_count_similar_push(acc, (t, "similar"@, None));
        }
        lemma_similar_links(slug, known, next, names.drop_first());
    }
}

/// The links of a new card never point at the card itself nor twice at the
/// same card; and when no MusicBrainz relation is typed "similar", Deezer's
/// neighbourhood adds four similar links at most.
pub proof fn links_stay_sound(
    slug: Seq<char>,
    known: Seq<(Seq<char>, Seq<char>)>,
    rels: Seq<(Seq<char>, Seq<char>, Option<Seq<char>>, Option<Seq<char>>)>,
    similar: Seq<Seq<char>>,
)
    ensures
        links_sound(slug, links_of(slug, known, rels, similar)),
        (forall|k: int| 0 <= k < rels.len() ==> (#[trigger] rels[k]).0 != "similar"@)
            ==> count_similar(links_of(slug, known, rels, similar)) <= 4,
{
    let empty: Seq<(Seq<char>, Seq<char>, Option<Seq<char>>)> = seq![];
    assert(links_sound(slug, empty));
    lemma_relation_links(slug, known, empty, rels);
    lemma_similar_links(slug, known, relation_links(slug, known, empty, rels), similar);
}

/// No two of the titles are the same title, case aside.
pub open spec fn distinct_titles(v: Seq<Seq<char>>) -> bool {
    forall|i: int, j: int| 0 <= i < j < v.len() ==> !ascii_same(#[trigger] v[i], #[trigger] v[j])
}

proof fn lemma_tops_kept(acc: Seq<Seq<char>>, titles: Seq<Seq<char>>)
    requires
        acc.len() < 5,
        distinct_titles(acc),
    ensures
        tops_kept(acc, titles).len() <= 5,
        distinct_titles(tops_kept(acc, titles)),
    decreases titles.len(),
{
    if titles.len() > 0 {
        let t = titles[0];
        let next = if has_ascii_same(acc, t) { acc } else { acc.push(t) };
        if !has_ascii_same(acc, t) {
            assert forall|i: int, j: int| 0 <= i < j < next.len() implies !ascii_same(#[trigger] next[i], #[trigger] next[j]) by {
                assert(next[i] == acc[i]);
                if j < acc.len() {
                    assert(next[j] == acc[j]);
                } else {
                    assert(next[j] == t);
                    if ascii_same(acc[i], t) {
                        assert(has_ascii_same(acc, t));
                    }
                }
            }
        }
        if next.len() != 5 {
            lemma_tops_kept(next, titles.drop_first());
        }
    }
}

/// The tops kept are five at most, and no title comes twice, case aside.
pub proof fn tops_are_few_and_distinct(titles: Seq<Seq<char>>)
    ensures
        tops_kept(seq![], titles).len() <= 5,
        distinct_titles(tops_kept(seq![], titles)),
{
    lemma_tops_kept(seq![], titles);
}


// ---------------------------------------------------------------------------
// " & " and " and " slug alike.

/// `name` with each " & " written " and ", from the left, as
/// `str::replace` does.
pub open spec fn and_spelled(name: Seq<char>) -> Seq<char>
    decreases name.len(),
{
    if name.len() >= 3 && name[0] == ' ' && name[1] == '&' && name[2] == ' ' {
        seq![' ', 'a', 'n', 'd', ' '] + and_spelled(name.skip(3))
    } else if name.len() == 0 {
        seq![]
    } else {
        seq![name[0]] + and_spelled(name.skip(1))
    }
}

/// No letter or digit in it.
pub open spec fn blank(p: Seq<char>) -> bool {
    forall|i: int| 0 <= i < p.len() ==> !is_ascii_alnum(#[trigger] p[i])
}

proof fn lemma_prepared_concat(a: Seq<char>, b: Seq<char>)
    ensures
        prepared(a + b) == prepared(a) + prepared(b),
    decreases b.len(),
{
    if b.len() == 0 {
        assert(a + b =~= a);
        assert(prepared(a) + prepared(b) =~= prepared(a));
    } else {
        lemma_prepared_concat(a, b.drop_last());
        assert((a + b).drop_last() =~= a + b.drop_last());
        assert((a + b).last() == b.last());
        assert(prepared(a + b) =~= prepared(a) + prepared(b));
    }
}

proof fn lemma_words_blank_tail(x: Seq<char>, p: Seq<char>)
    requires
        blank(p),
    ensures
        words(x + p) == words(x),
    decreases p.len(),
{
    if p.len() == 0 {
        assert(x + p =~= x);
    } else {
        lemma_words_blank_tail(x, p.drop_last());
        assert((x + p).drop_last() =~= x + p.drop_last());
        assert(!is_ascii_alnum(p[p.len() - 1]));
    }
}

/// Two runs of blanks between the same sides give the same words.
proof fn lemma_words_blanks(x: Seq<char>, p: Seq<char>, q: Seq<char>, y: Seq<char>)
    requires
        p.len() > 0,
        q.len() > 0,
        blank(p),
        blank(q),
    ensures
        words(x + p + y) == words(x + q + y),
    decreases y.len(),
{
    if y.len() == 0 {
        assert(x + p + y =~= x + p);
        assert(x + q + y =~= x + q);
        lemma_words_blank_tail(x, p);
        lemma_words_blank_tail(x, q);
    } else {
        let y1 = y.drop_last();
        lemma_words_blanks(x, p, q, y1);
        assert((x + p + y).drop_last() =~= x + p + y1);
        assert((x + q + y).drop_last() =~= x + q + y1);
        assert((x + p + y).last() == y.last());
        assert((x + q + y).last() == y.last());
        if y1.len() == 0 {
            assert(x + p + y1 =~= x + p);
            assert(x + q + y1 =~= x + q);
            assert(!is_ascii_alnum(p[p.len() - 1]));
            assert(!is_ascii_alnum(q[q.len() - 1]));
        } else {
            assert((x + p + y1).last() == y1.last());
            assert((x + q + y1).last() == y1.last());
        }
    }
}

proof fn lemma_prepared_one(c: char)
    ensures
        prepared(seq![c]) == prepared_char(c),
{
    assert(seq![c].drop_last() =~= Seq::<char>::empty());
    assert(seq![c].last() == c);
    assert(prepared(Seq::<char>::empty()) == Seq::<char>::empty());
    assert(Seq::<char>::empty() + prepared_char(c) =~= prepared_char(c));
    assert(prepared(seq![c]) == prepared(seq![c].drop_last()) + prepared_char(seq![c].last()));
}

proof fn lemma_prepared_pair(a: Seq<char>, c: char)
    ensures
        prepared(a.push(c)) == prepared(a) + prepared_char(c),
{
    assert(a.push(c).drop_last() =~= a);
}

/// How " and " and " & " are prepared.
proof fn lemma_prepared_and()
    ensures
        prepared(seq![' ', 'a', 'n', 'd', ' ']) == seq![' ', 'a', 'n', 'd', ' '],
        prepared(seq![' ', '&', ' ']) == seq![' ', ' ', 'a', 'n', 'd', ' ', ' '],
{
    lemma_prepared_one(' ');
    lemma_prepared_pair(seq![' '], 'a');
    assert(seq![' '].push('a') =~= seq![' ', 'a']);
    lemma_prepared_pair(seq![' ', 'a'], 'n');
    assert(seq![' ', 'a'].push('n') =~= seq![' ', 'a', 'n']);
    lemma_prepared_pair(seq![' ', 'a', 'n'], 'd');
    assert(seq![' ', 'a', 'n'].push('d') =~= seq![' ', 'a', 'n', 'd']);
    lemma_prepared_pair(seq![' ', 'a', 'n', 'd'], ' ');
    assert(seq![' ', 'a', 'n', 'd'].push(' ') =~= seq![' ', 'a', 'n', 'd', ' ']);
    assert(prepared(seq![' ', 'a', 'n', 'd', ' ']) =~= seq![' ', 'a', 'n', 'd', ' ']);
    lemma_prepared_pair(seq![' '], '&');
    assert(seq![' '].push('&') =~= seq![' ', '&']);
    lemma_prepared_pair(seq![' ', '&'], ' ');
    assert(seq![' ', '&'].push(' ') =~= seq![' ', '&', ' ']);
    assert(prepared(seq![' ', '&', ' ']) =~= seq![' ', ' ', 'a', 'n', 'd', ' ', ' ']);
}

/// One blank or two on each side of "and" make the same words.
proof fn lemma_and_blanks(a: Seq<char>, r: Seq<char>)
    ensures
        words(a + (seq![' ', 'a', 'n', 'd', ' '] + r)) == words(a + (seq![' ', ' ', 'a', 'n', 'd', ' ', ' '] + r)),
{
    let one = seq![' '];
    let two = seq![' ', ' '];
    let word = seq!['a', 'n', 'd'];
    assert(blank(one) && blank(two));
    lemma_words_blanks(a, one, two, word + one + r);
    lemma_words_blanks(a + two + word, one, two, r);
    assert(a + (seq![' ', 'a', 'n', 'd', ' '] + r) =~= a + one + (word + one + r));
    assert(a + two + (word + one + r) =~= a + two + word + one + r);
    assert(a + (seq![' ', ' ', 'a', 'n', 'd', ' ', ' '] + r) =~= a + two + word + two + r);
}

proof fn lemma_and_spelled_words(a: Seq<char>, n: Seq<char>)
    ensures
        words(a + prepared(and_spelled(n))) == words(a + prepared(n)),
    decreases n.len(),
{
    if n.len() >= 3 && n[0] == ' ' && n[1] == '&' && n[2] == ' ' {
        let rest = n.skip(3);
        let and = seq![' ', 'a', 'n', 'd', ' '];
        let amp = seq![' ', '&', ' '];
        lemma_and_spelled_words(a + and, rest);
        lemma_prepared_and();
        lemma_prepared_concat(and, and_spelled(rest));
        lemma_prepared_concat(amp, rest);
        assert(n =~= amp + rest);
        lemma_and_blanks(a, prepared(rest));
        assert(a + prepared(and_spelled(n)) =~= (a + and) + prepared(and_spelled(rest)));
        assert((a + and) + prepared(rest) =~= a + (and + prepared(rest)));
        assert(a + prepared(n) =~= a + (seq![' ', ' ', 'a', 'n', 'd', ' ', ' '] + prepared(rest)));
    } else if n.len() == 0 {
    } else {
        let rest = n.skip(1);
        let head = seq![n[0]];
        let pc = prepared_char(n[0]);
        lemma_and_spelled_words(a + pc, rest);
        lemma_prepared_concat(head, and_spelled(rest));
        lemma_prepared_concat(head, rest);
        lemma_prepared_one(n[0]);
        assert(n =~= head + rest);
        assert(and_spelled(n) == head + and_spelled(rest));
        assert(a + prepared(and_spelled(n)) =~= (a + pc) + prepared(and_spelled(rest)));
        assert(a + prepared(n) =~= (a + pc) + prepared(rest));
    }
}

/// A name with " & " written " and " slugs as the name does: "Hall & Oates"
/// and "Hall and Oates" land on the same card.
pub proof fn and_slugs_alike(name: Seq<char>)
    ensures
        slug_of_name(and_spelled(name)) == slug_of_name(name),
{
    lemma_and_spelled_words(seq![], name);
    assert(Seq::<char>::empty() + prepared(and_spelled(name)) =~= prepared(and_spelled(name)));
    assert(Seq::<char>::empty() + prepared(name) =~= prepared(name));
}

} // verus!
