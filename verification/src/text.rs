//! Byte/character conversions for ASCII text, case folding for header
//! names, and character-level string equality.

use vstd::prelude::*;

verus! {

/// The bytes of a character sequence, one byte per character; meaningful
/// for ASCII characters, whose code points fit in a byte.
pub open spec fn ascii_of(s: Seq<char>) -> Seq<u8> {
    s.map_values(|c: char| c as u8)
}

/// The characters spelled by a byte sequence, one character per byte.
pub open spec fn chars_of(b: Seq<u8>) -> Seq<char> {
    b.map_values(|x: u8| x as char)
}

/// Every byte is an ASCII code point.
pub open spec fn all_ascii(b: Seq<u8>) -> bool {
    forall|i: int| 0 <= i < b.len() ==> b[i] < 128
}

/// ASCII case folding of one byte: upper-case letters move to lower case,
/// everything else is unchanged.
pub open spec fn lower_byte(b: u8) -> u8 {
    if 65 <= b <= 90 {
        (b + 32) as u8
    } else {
        b
    }
}

/// ASCII case folding of a byte sequence.
pub open spec fn lower_bytes(b: Seq<u8>) -> Seq<u8> {
    b.map_values(|x: u8| lower_byte(x))
}

/// ASCII case folding of a character sequence.
pub open spec fn lower_chars(s: Seq<char>) -> Seq<char> {
    chars_of(lower_bytes(ascii_of(s)))
}

/// Relies on String::from_utf8: a byte below 128 is the one-byte UTF-8
/// encoding of the code point with the same value, so ASCII input always
/// decodes, one character per byte.
#[verifier::external_body]
pub(crate) fn ascii_to_string(v: Vec<u8>) -> (r: String)
    requires
        all_ascii(v@),
    ensures
        r@ == chars_of(v@),
{
    String::from_utf8(v).unwrap_or_default()
}

/// Character-for-character equality of two string slices.
pub fn str_eq(a: &str, b: &str) -> (r: bool)
    ensures
        r == (a@ == b@),
{
    let alen = a.unicode_len();
    let blen = b.unicode_len();
    if alen != blen {
        return false;
    }
    let mut i: usize = 0;
    while i < alen
        invariant
            alen == a@.len(),
            blen == b@.len(),
            alen == blen,
            0 <= i <= alen,
            forall|j: int| 0 <= j < i ==> a@[j] == b@[j],
        decreases alen - i,
    {
        if a.get_char(i) != b.get_char(i) {
            return false;
        }
        i = i + 1;
    }
    proof {
        assert(a@ =~= b@);
    }
    true
}

/// ASCII case folding of a string slice, as header-name normalization
/// demands.
pub fn lower_ascii(s: &str) -> (r: String)
    requires
        s.is_ascii(),
    ensures
        r@ == lower_chars(s@),
        r@.len() == s@.len(),
{
    let len = s.unicode_len();
    let mut out: Vec<u8> = Vec::new();
    let mut i: usize = 0;
    while i < len
        invariant
            s.is_ascii(),
            len == s@.len(),
            0 <= i <= len,
            out@.len() == i,
            forall|j: int| 0 <= j < i ==> out@[j] == lower_byte(s@[j] as u8),
            forall|j: int| 0 <= j < i ==> out@[j] < 128,
        decreases len - i,
    {
        let b = s.get_ascii(i);
        proof {
            assert('\0' <= s@[i as int] <= '\u{7f}');
        }
        if 65 <= b && b <= 90 {
            out.push(b + 32);
        } else {
            out.push(b);
        }
        i = i + 1;
    }
    let r = ascii_to_string(out);
    proof {
        assert(r@ =~= lower_chars(s@));
    }
    r
}

/// The reply of the plain echo server: the received text, acknowledged.
pub fn echo_reply(data: &str) -> (r: String)
    ensures
        r@ == "Received: "@ + data@,
{
    let mut s = "Received: ".to_owned();
    s.append(data);
    s
}

} // verus!
