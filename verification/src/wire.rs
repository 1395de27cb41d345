//! The response wire format: a status line with a hardcoded `OK` reason
//! phrase, a single `Content-Length` header computed from the byte
//! length of the body, a blank line, and the body.

use vstd::prelude::*;
use vstd::utf8::encode_utf8;
use crate::model::Response;
use crate::text::{ascii_of, chars_of};

verus! {

/// The shortest decimal spelling of `n`, as ASCII digit bytes.
pub open spec fn dec_bytes(n: nat) -> Seq<u8>
    decreases n,
{
    if n < 10 {
        seq![(48 + n) as u8]
    } else {
        dec_bytes(n / 10) + seq![(48 + n % 10) as u8]
    }
}

/// The decimal spelling of `n`, as characters.
pub open spec fn dec_chars(n: nat) -> Seq<char> {
    chars_of(dec_bytes(n))
}

/// The serialized response for status `code` and body bytes `body`.
pub open spec fn wire_bytes(code: u16, body: Seq<u8>) -> Seq<u8> {
    ascii_of("HTTP/1.1 "@) + dec_bytes(code as nat) + ascii_of(" OK\r\nContent-Length: "@)
        + dec_bytes(body.len()) + ascii_of("\r\n\r\n"@) + body
}

/// The fixed response for a request whose path no handler matches.
pub open spec fn not_found_bytes() -> Seq<u8> {
    wire_bytes(404, ascii_of("404 Not Found"@))
}

/// Appends the decimal spelling of `n`.
fn push_dec(out: &mut Vec<u8>, n: usize)
    ensures
        final(out)@ == old(out)@ + dec_bytes(n as nat),
    decreases n,
{
    if n < 10 {
        out.push(48 + n as u8);
        proof {
            assert(out@ =~= old(out)@ + dec_bytes(n as nat));
        }
    } else {
        push_dec(out, n / 10);
        out.push(48 + (n % 10) as u8);
        proof {
            assert(out@ =~= old(out)@ + dec_bytes(n as nat));
        }
    }
}

/// The decimal spelling of `n` as a string.
pub fn dec_string(n: usize) -> (r: String)
    ensures
        r@ == dec_chars(n as nat),
{
    let mut digits: Vec<u8> = Vec::new();
    push_dec(&mut digits, n);
    proof {
        lemma_dec_bytes_ascii(n as nat);
    }
    crate::text::ascii_to_string(digits)
}

/// Decimal digit bytes are ASCII.
pub proof fn lemma_dec_bytes_ascii(n: nat)
    ensures
        crate::text::all_ascii(dec_bytes(n)),
    decreases n,
{
    if n < 10 {
    } else {
        lemma_dec_bytes_ascii(n / 10);
    }
}

/// Appends the characters of an ASCII string slice, one byte each.
fn push_ascii(out: &mut Vec<u8>, s: &str)
    requires
        s.is_ascii(),
    ensures
        final(out)@ == old(out)@ + ascii_of(s@),
{
    let len = s.unicode_len();
    let mut i: usize = 0;
    while i < len
        invariant
            s.is_ascii(),
            len == s@.len(),
            0 <= i <= len,
            out@.len() == old(out)@.len() + i,
            out@ =~= old(out)@ + ascii_of(s@).take(i as int),
        decreases len - i,
    {
        let b = s.get_ascii(i);
        out.push(b);
        proof {
            assert(ascii_of(s@).take(i + 1) =~= ascii_of(s@).take(i as int).push(
                s@[i as int] as u8,
            ));
            assert(out@ =~= old(out)@ + ascii_of(s@).take(i + 1));
        }
        i = i + 1;
    }
    proof {
        assert(ascii_of(s@).take(len as int) =~= ascii_of(s@));
    }
}

/// Serializes a response: the status line, the `Content-Length` header
/// computed from the byte length of the body, a blank line, and the
/// body. Headers the response carries beyond that are not written.
pub fn serialize_response(resp: &Response) -> (r: Vec<u8>)
    ensures
        r@ == wire_bytes(resp.response_code, encode_utf8(resp.body@)),
{
    let mut out: Vec<u8> = Vec::new();
    proof {
        reveal_strlit("HTTP/1.1 ");
        reveal_strlit(" OK\r\nContent-Length: ");
        reveal_strlit("\r\n\r\n");
        assert(vstd::utf8::is_ascii_chars("HTTP/1.1 "@));
        assert(vstd::utf8::is_ascii_chars(" OK\r\nContent-Length: "@));
        assert(vstd::utf8::is_ascii_chars("\r\n\r\n"@));
    }
    push_ascii(&mut out, "HTTP/1.1 ");
    push_dec(&mut out, resp.response_code as usize);
    push_ascii(&mut out, " OK\r\nContent-Length: ");
    let body_bytes = resp.body.as_str().as_bytes();
    push_dec(&mut out, body_bytes.len());
    push_ascii(&mut out, "\r\n\r\n");
    let mut i: usize = 0;
    let n = body_bytes.len();
    let ghost head = out@;
    while i < n
        invariant
            n == body_bytes@.len(),
            0 <= i <= n,
            out@ =~= head + body_bytes@.take(i as int),
        decreases n - i,
    {
        out.push(body_bytes[i]);
        proof {
            assert(body_bytes@.take(i + 1) =~= body_bytes@.take(i as int).push(
                body_bytes@[i as int],
            ));
        }
        i = i + 1;
    }
    proof {
        assert(body_bytes@.take(n as int) =~= body_bytes@);
        assert(out@ =~= wire_bytes(resp.response_code, encode_utf8(resp.body@)));
    }
    out
}

/// The fixed response written when no handler matches: status 404 with
/// the thirteen-byte body `404 Not Found`.
pub fn not_found_response() -> (r: Vec<u8>)
    ensures
        r@ == not_found_bytes(),
{
    let mut resp = Response::new(404);
    resp.with_text("404 Not Found");
    let r = serialize_response(&resp);
    proof {
        reveal_strlit("404 Not Found");
        assert(vstd::utf8::is_ascii_chars("404 Not Found"@));
        vstd::utf8::is_ascii_chars_encode_utf8("404 Not Found"@);
        assert(encode_utf8("404 Not Found"@) =~= ascii_of("404 Not Found"@));
    }
    r
}

/// The not-found response is exactly these forty-nine ASCII characters:
/// status 404 with the hardcoded `OK` reason phrase, `Content-Length:
/// 13`, and the thirteen-byte body `404 Not Found`.
pub proof fn lemma_not_found_literal()
    ensures
        not_found_bytes() == ascii_of(
            "HTTP/1.1 404 OK\r\nContent-Length: 13\r\n\r\n404 Not Found"@,
        ),
{
    reveal_strlit("HTTP/1.1 ");
    reveal_strlit(" OK\r\nContent-Length: ");
    reveal_strlit("\r\n\r\n");
    reveal_strlit("404 Not Found");
    reveal_strlit("HTTP/1.1 404 OK\r\nContent-Length: 13\r\n\r\n404 Not Found");
    assert(dec_bytes(4) =~= seq![52u8]);
    assert(dec_bytes(40) =~= dec_bytes(4) + seq![48u8]);
    assert(dec_bytes(404) =~= seq![52u8, 48u8, 52u8]);
    assert(dec_bytes(1) =~= seq![49u8]);
    assert(dec_bytes(13) =~= seq![49u8, 51u8]);
    assert(ascii_of("404 Not Found"@).len() == 13);
    assert(not_found_bytes() =~= ascii_of(
        "HTTP/1.1 404 OK\r\nContent-Length: 13\r\n\r\n404 Not Found"@,
    ));
}

} // verus!
