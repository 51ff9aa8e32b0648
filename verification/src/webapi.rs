//! Query strings for the Spotify Web API: the few characters a name can
//! carry, percent-encoded.

use vstd::prelude::*;
use crate::text::string_of;
use vstd::string::StringSliceAdditionalSpecFns;

verus! {

/// A byte that goes into a query as it is.
pub open spec fn unreserved(b: u8) -> bool {
    (65 <= b <= 90) || (97 <= b <= 122) || (48 <= b <= 57) || b == 45 || b == 95 || b == 46 || b == 126
}

pub open spec fn hex_upper(n: u8) -> char {
    if n < 10 { ((n + 48) as u8) as char } else { ((n + 55) as u8) as char }
}

/// A byte in a query: itself, or `%` and its two hex digits.
pub open spec fn encoded_byte(b: u8) -> Seq<char> {
    if unreserved(b) { seq![b as char] } else { seq!['%', hex_upper(b / 16), hex_upper(b % 16)] }
}

pub open spec fn encoded(bytes: Seq<u8>) -> Seq<char>
    decreases bytes.len(),
{
    if bytes.len() == 0 { seq![] } else { encoded(bytes.drop_last()) + encoded_byte(bytes.last()) }
}

fn hex_exec(n: u8) -> (c: char)
    requires
        n < 16,
    ensures
        c == hex_upper(n),
{
    if n < 10 { (n + 48) as char } else { (n + 55) as char }
}

/// Minimal percent-encoding for a query string: the bytes of the text, the
/// letters, digits and `-_.~` as they are, every other as `%XX`.
pub fn urlencoding(s: &str) -> (r: String)
    ensures
        r@ == encoded(s.spec_bytes()),
{
    let bytes = s.as_bytes();
    let mut out: Vec<char> = Vec::new();
    let mut i: usize = 0;
    while i < bytes.len()
        invariant
            i <= bytes@.len(),
            bytes@ == s.spec_bytes(),
            out@ == encoded(bytes@.take(i as int)),
        decreases bytes@.len() - i,
    {
        let b = bytes[i];
        proof {
            assert(bytes@.take(i + 1).drop_last() =~= bytes@.take(i as int));
            assert(bytes@.take(i + 1).last() == b);
        }
        if (65 <= b && b <= 90) || (97 <= b && b <= 122) || (48 <= b && b <= 57) || b == 45 || b == 95 || b == 46
            || b == 126 {
            out.push(b as char);
        } else {
            out.push('%');
            out.push(hex_exec(b / 16));
            out.push(hex_exec(b % 16));
        }
        assert(out@ =~= encoded(bytes@.take(i + 1)));
        i = i + 1;
    }
    assert(bytes@.take(i as int) =~= bytes@);
    string_of(&out)
}

} // verus!
