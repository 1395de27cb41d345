//! Line-oriented HTTP request parsing: a request line of three
//! whitespace-separated tokens, `Name: Value` header lines up to an empty
//! line, and a body of at most `content-length` bytes.
//!
//! Lines are ASCII; a line with a byte outside ASCII is rejected as
//! malformed rather than decoded leniently.

use vstd::prelude::*;
use crate::headers::{header_get, header_insert, hget, hinsert, views_of};
use crate::model::Request;
use crate::text::{all_ascii, ascii_to_string, chars_of, lower_ascii, lower_chars};

verus! {

/// Why a byte stream did not yield a request.
#[derive(Clone, Copy, Debug, PartialEq, Eq, Structural)]
pub enum ParseError {
    /// The peer closed before a full request could be read.
    ConnectionClosed,
    /// The request line does not hold three tokens, or is not ASCII.
    MalformedRequestLine,
    /// A header line is not ASCII.
    MalformedHeader,
}

/// The mathematical content of a parsed request.
pub ghost struct ParsedRequest {
    pub method: Seq<char>,
    pub path: Seq<char>,
    pub version: Seq<char>,
    pub headers: Seq<(Seq<char>, Seq<char>)>,
    pub body: Seq<u8>,
}

/// Whitespace, as line trimming and token splitting see it.
pub open spec fn ws_char(c: char) -> bool {
    c == ' ' || c == '\t' || c == '\n' || c == '\r' || c == '\u{b}' || c == '\u{c}'
}

/// The index of the first line feed, or the length when there is none.
pub open spec fn nl_pos(s: Seq<u8>) -> nat
    decreases s.len(),
{
    if s.len() == 0 {
        0
    } else if s[0] == 10 {
        0
    } else {
        1 + nl_pos(s.drop_first())
    }
}

/// The first line feed stands where nothing before it is one.
proof fn lemma_nl_pos_at(s: Seq<u8>, i: int)
    requires
        0 <= i <= s.len(),
        forall|j: int| 0 <= j < i ==> s[j] != 10,
        i < s.len() ==> s[i] == 10,
    ensures
        nl_pos(s) == i,
    decreases i,
{
    if s.len() == 0 {
    } else if i == 0 {
    } else {
        lemma_nl_pos_at(s.drop_first(), i - 1);
    }
}

/// The bytes of the first line, the line feed left out.
pub open spec fn first_line(s: Seq<u8>) -> Seq<u8> {
    s.take(nl_pos(s) as int)
}

/// What follows the first line, its line feed consumed.
pub open spec fn after_line(s: Seq<u8>) -> Seq<u8> {
    if nl_pos(s) + 1 <= s.len() {
        s.skip((nl_pos(s) + 1) as int)
    } else {
        s.skip(s.len() as int)
    }
}

/// Leading whitespace dropped.
pub open spec fn trim_front(s: Seq<char>) -> Seq<char>
    decreases s.len(),
{
    if s.len() > 0 && ws_char(s[0]) {
        trim_front(s.drop_first())
    } else {
        s
    }
}

/// Trailing whitespace dropped.
pub open spec fn trim_back(s: Seq<char>) -> Seq<char>
    decreases s.len(),
{
    if s.len() > 0 && ws_char(s.last()) {
        trim_back(s.drop_last())
    } else {
        s
    }
}

/// Leading and trailing whitespace dropped.
pub open spec fn trim_chars(s: Seq<char>) -> Seq<char> {
    trim_back(trim_front(s))
}

/// The length of the leading run of non-whitespace characters.
pub open spec fn tok_end(s: Seq<char>) -> nat
    decreases s.len(),
{
    if s.len() == 0 {
        0
    } else if ws_char(s[0]) {
        0
    } else {
        1 + tok_end(s.drop_first())
    }
}

proof fn lemma_tok_end_le(s: Seq<char>)
    ensures
        tok_end(s) <= s.len(),
    decreases s.len(),
{
    if s.len() == 0 || ws_char(s[0]) {
    } else {
        lemma_tok_end_le(s.drop_first());
    }
}

/// A token ends where the first whitespace after it stands.
proof fn lemma_tok_end_at(s: Seq<char>, i: int)
    requires
        0 <= i <= s.len(),
        forall|j: int| 0 <= j < i ==> !ws_char(s[j]),
        i < s.len() ==> ws_char(s[i]),
    ensures
        tok_end(s) == i,
    decreases i,
{
    if s.len() == 0 {
    } else if i == 0 {
    } else {
        lemma_tok_end_at(s.drop_first(), i - 1);
    }
}

/// The maximal runs of non-whitespace characters, in order.
pub open spec fn tokens_of(s: Seq<char>) -> Seq<Seq<char>>
    decreases s.len(),
    via tokens_of_dec
{
    if s.len() == 0 {
        Seq::empty()
    } else if ws_char(s[0]) {
        tokens_of(s.drop_first())
    } else {
        seq![s.take(tok_end(s) as int)] + tokens_of(s.skip(tok_end(s) as int))
    }
}

#[via_fn]
proof fn tokens_of_dec(s: Seq<char>) {
    if s.len() > 0 && !ws_char(s[0]) {
        lemma_tok_end_le(s);
    }
}

/// A line with tokens starts them with a nonempty one.
proof fn lemma_first_token_nonempty(s: Seq<char>)
    ensures
        tokens_of(s).len() > 0 ==> tokens_of(s)[0].len() > 0,
    decreases s.len(),
{
    if s.len() == 0 {
    } else if ws_char(s[0]) {
        lemma_first_token_nonempty(s.drop_first());
    } else {
        lemma_tok_end_le(s);
        assert(tokens_of(s)[0] == s.take(tok_end(s) as int));
        assert(tok_end(s) > 0);
    }
}

/// The index of the first `": "` separator, past the end when there is
/// none.
pub open spec fn sep_pos(s: Seq<char>) -> int
    decreases s.len(),
{
    if s.len() < 2 {
        s.len() as int
    } else if s[0] == ':' && s[1] == ' ' {
        0
    } else {
        1 + sep_pos(s.drop_first())
    }
}

/// A header line split once on `": "`: the whole line with an empty value
/// when no separator occurs.
pub open spec fn split_header(s: Seq<char>) -> (Seq<char>, Seq<char>) {
    if sep_pos(s) + 2 <= s.len() {
        (s.take(sep_pos(s)), s.skip(sep_pos(s) + 2))
    } else {
        (s, Seq::empty())
    }
}

proof fn lemma_sep_pos_at(s: Seq<char>, i: int)
    requires
        0 <= i,
        i + 2 <= s.len(),
        s[i] == ':',
        s[i + 1] == ' ',
        forall|j: int| 0 <= j < i ==> !(#[trigger] s[j] == ':' && s[j + 1] == ' '),
    ensures
        sep_pos(s) == i,
    decreases i,
{
    if i == 0 {
    } else {
        lemma_sep_pos_at(s.drop_first(), i - 1);
    }
}

proof fn lemma_sep_pos_none(s: Seq<char>)
    requires
        forall|j: int| 0 <= j && j + 2 <= s.len() ==> !(#[trigger] s[j] == ':' && s[j + 1] == ' '),
    ensures
        sep_pos(s) + 2 > s.len(),
    decreases s.len(),
{
    if s.len() < 2 {
    } else {
        lemma_sep_pos_none(s.drop_first());
    }
}

/// A decimal digit.
pub open spec fn is_digit(c: char) -> bool {
    '0' <= c && c <= '9'
}

/// What follows an optional leading plus sign.
pub open spec fn digits_part(t: Seq<char>) -> Seq<char> {
    if t.len() > 0 && t[0] == '+' {
        t.drop_first()
    } else {
        t
    }
}

/// The value of a digit string read in base ten.
pub open spec fn dec_val(s: Seq<char>) -> int
    decreases s.len(),
{
    if s.len() == 0 {
        0
    } else {
        dec_val(s.drop_last()) * 10 + (s.last() as u8 - 48)
    }
}

/// The strings that read as a machine-sized unsigned number: an optional
/// plus sign, one or more digits, and a value within bounds.
pub open spec fn valid_usize_chars(t: Seq<char>) -> bool {
    let d = digits_part(t);
    d.len() > 0 && (forall|i: int| 0 <= i < d.len() ==> is_digit(#[trigger] d[i])) && dec_val(d)
        <= usize::MAX as int
}

/// The body length a header value calls for: its number when it reads as
/// one after trimming, zero otherwise.
pub open spec fn content_length_value(v: Seq<char>) -> int {
    if valid_usize_chars(trim_chars(v)) {
        dec_val(digits_part(trim_chars(v)))
    } else {
        0
    }
}

/// The body length a header map calls for, zero without a
/// `content-length` entry.
pub open spec fn content_length_of(m: Seq<(Seq<char>, Seq<char>)>) -> int {
    match hget(m, "content-length"@) {
        None => 0,
        Some(v) => content_length_value(v),
    }
}

/// Header lines folded into `acc` until an empty line; what follows the
/// empty line comes back as the rest. Running out of lines first means
/// the peer closed early.
pub open spec fn parse_headers(
    rest: Seq<u8>,
    acc: Seq<(Seq<char>, Seq<char>)>,
) -> Result<(Seq<(Seq<char>, Seq<char>)>, Seq<u8>), ParseError>
    decreases rest.len(),
{
    if rest.len() == 0 {
        Err(ParseError::ConnectionClosed)
    } else {
        let lb = first_line(rest);
        if !all_ascii(lb) {
            Err(ParseError::MalformedHeader)
        } else {
            let t = trim_chars(chars_of(lb));
            if t.len() == 0 {
                Ok((acc, after_line(rest)))
            } else {
                let kv = split_header(t);
                parse_headers(after_line(rest), hinsert(acc, lower_chars(kv.0), kv.1))
            }
        }
    }
}

/// What a byte stream parses to: the request, or why it yields none.
pub open spec fn spec_parse(input: Seq<u8>) -> Result<ParsedRequest, ParseError> {
    if input.len() == 0 {
        Err(ParseError::ConnectionClosed)
    } else {
        let lb = first_line(input);
        if !all_ascii(lb) {
            Err(ParseError::MalformedRequestLine)
        } else {
            let toks = tokens_of(trim_chars(chars_of(lb)));
            if toks.len() < 3 {
                Err(ParseError::MalformedRequestLine)
            } else {
                match parse_headers(after_line(input), Seq::empty()) {
                    Err(e) => Err(e),
                    Ok((hs, rest)) => {
                        let cl = content_length_of(hs);
                        let take = if cl <= rest.len() {
                            cl
                        } else {
                            rest.len() as int
                        };
                        Ok(
                            ParsedRequest {
                                method: toks[0],
                                path: toks[1],
                                version: toks[2],
                                headers: hs,
                                body: rest.take(take),
                            },
                        )
                    },
                }
            }
        }
    }
}

/// Whitespace, decided one character at a time.
fn is_ws(c: char) -> (r: bool)
    ensures
        r == ws_char(c),
{
    c == ' ' || c == '\t' || c == '\n' || c == '\r' || c == '\u{b}' || c == '\u{c}'
}

/// The slice with leading and trailing whitespace dropped.
pub fn str_trim<'a>(s: &'a str) -> (r: &'a str)
    ensures
        r@ == trim_chars(s@),
{
    let len = s.unicode_len();
    let mut lo: usize = 0;
    while lo < len && is_ws(s.get_char(lo))
        invariant
            len == s@.len(),
            0 <= lo <= len,
            forall|j: int| 0 <= j < lo ==> ws_char(s@[j]),
        decreases len - lo,
    {
        lo = lo + 1;
    }
    proof {
        lemma_trim_front_at(s@, lo as int);
    }
    let mut hi: usize = len;
    while hi > lo && is_ws(s.get_char(hi - 1))
        invariant
            len == s@.len(),
            lo <= hi <= len,
            forall|j: int| hi <= j < len ==> ws_char(s@[j]),
        decreases hi,
    {
        hi = hi - 1;
    }
    let r = s.substring_char(lo, hi);
    proof {
        let f = s@.skip(lo as int);
        assert(forall|j: int| hi - lo <= j < f.len() ==> ws_char(#[trigger] f[j]));
        if hi > lo {
            assert(!ws_char(f[hi - lo - 1]));
        }
        lemma_trim_back_at(f, hi - lo);
        assert(r@ =~= f.take(hi - lo));
    }
    r
}

/// Dropping a leading whitespace run is all `trim_front` does.
proof fn lemma_trim_front_at(s: Seq<char>, k: int)
    requires
        0 <= k <= s.len(),
        forall|j: int| 0 <= j < k ==> ws_char(s[j]),
        k < s.len() ==> !ws_char(s[k]),
    ensures
        trim_front(s) =~= s.skip(k),
    decreases k,
{
    if k == 0 {
        assert(s.skip(0) =~= s);
    } else {
        lemma_trim_front_at(s.drop_first(), k - 1);
        assert(s.drop_first().skip(k - 1) =~= s.skip(k));
    }
}

/// Dropping a trailing whitespace run is all `trim_back` does.
proof fn lemma_trim_back_at(s: Seq<char>, k: int)
    requires
        0 <= k <= s.len(),
        forall|j: int| k <= j < s.len() ==> ws_char(s[j]),
        k > 0 ==> !ws_char(s[k - 1]),
    ensures
        trim_back(s) =~= s.take(k),
    decreases s.len(),
{
    if k == s.len() {
        if s.len() == 0 || !ws_char(s.last()) {
            assert(s.take(k) =~= s);
        } else {
            assert(!ws_char(s[k - 1]));
            assert(s.take(k) =~= s);
        }
    } else {
        lemma_trim_back_at(s.drop_last(), k);
        assert(s.drop_last().take(k) =~= s.take(k));
    }
}

/// The request line split into its three tokens; fewer than three
/// whitespace-separated tokens yield three empty strings.
pub fn parse_method_path_version(line: &str) -> (r: (String, String, String))
    ensures
        tokens_of(line@).len() >= 3 ==> r.0@ == tokens_of(line@)[0] && r.1@ == tokens_of(
            line@,
        )[1] && r.2@ == tokens_of(line@)[2],
        tokens_of(line@).len() < 3 ==> r.0@ == Seq::<char>::empty() && r.1@
            == Seq::<char>::empty() && r.2@ == Seq::<char>::empty(),
{
    let toks = split_ws_tokens(line);
    if toks.len() >= 3 {
        proof {
            assert(toks@[0]@ == tokens_of(line@)[0]);
            assert(toks@[1]@ == tokens_of(line@)[1]);
            assert(toks@[2]@ == tokens_of(line@)[2]);
        }
        let m = toks[0].clone();
        let p = toks[1].clone();
        let v = toks[2].clone();
        (m, p, v)
    } else {
        (String::new(), String::new(), String::new())
    }
}

/// The whitespace-separated tokens of a line, in order.
fn split_ws_tokens(line: &str) -> (r: Vec<String>)
    ensures
        r@.len() == tokens_of(line@).len(),
        forall|i: int| 0 <= i < r@.len() ==> #[trigger] r@[i]@ == tokens_of(line@)[i],
{
    let len = line.unicode_len();
    let mut out: Vec<String> = Vec::new();
    let mut i: usize = 0;
    proof {
        assert(line@.skip(0) =~= line@);
        assert(str_views(out@) =~= Seq::<Seq<char>>::empty());
        assert(str_views(out@) + tokens_of(line@.skip(0)) =~= tokens_of(line@));
    }
    while i < len
        invariant
            len == line@.len(),
            0 <= i <= len,
            tokens_of(line@) =~= str_views(out@) + tokens_of(line@.skip(i as int)),
        decreases len - i,
    {
        let c = line.get_char(i);
        if is_ws(c) {
            proof {
                assert(line@.skip(i as int).drop_first() =~= line@.skip(i + 1));
            }
            i = i + 1;
        } else {
            let start = i;
            let mut j = i + 1;
            while j < len && !is_ws(line.get_char(j))
                invariant
                    len == line@.len(),
                    start < j <= len,
                    forall|m: int| start <= m < j ==> !ws_char(line@[m]),
                decreases len - j,
            {
                j = j + 1;
            }
            let tok = line.substring_char(start, j).to_owned();
            proof {
                let suf = line@.skip(start as int);
                lemma_tok_end_at(suf, j - start);
                assert(suf.take(j - start) =~= line@.subrange(start as int, j as int));
                assert(suf.skip(j - start) =~= line@.skip(j as int));
                assert(tokens_of(suf) == seq![tok@] + tokens_of(line@.skip(j as int)));
                assert(str_views(out@.push(tok)) =~= str_views(out@).push(tok@));
                assert(str_views(out@).push(tok@) + tokens_of(line@.skip(j as int)) =~= str_views(
                    out@,
                ) + tokens_of(suf));
            }
            out.push(tok);
            i = j;
        }
    }
    proof {
        assert(line@.skip(len as int) =~= Seq::<char>::empty());
        assert(tokens_of(line@) =~= str_views(out@));
    }
    out
}

/// The views of a list of strings.
pub open spec fn str_views(ss: Seq<String>) -> Seq<Seq<char>> {
    ss.map_values(|s: String| s@)
}

/// A header line split once on `": "` into name and value; a line
/// without the separator is all name, with an empty value.
pub fn parse_header(line: &str) -> (r: (String, String))
    ensures
        r.0@ == split_header(line@).0,
        r.1@ == split_header(line@).1,
{
    let len = line.unicode_len();
    let mut i: usize = 0;
    while i < len && i + 1 < len
        invariant
            len == line@.len(),
            0 <= i,
            i <= len,
            forall|j: int| 0 <= j < i ==> !(#[trigger] line@[j] == ':' && line@[j + 1] == ' '),
        decreases len - i,
    {
        if line.get_char(i) == ':' && line.get_char(i + 1) == ' ' {
            proof {
                lemma_sep_pos_at(line@, i as int);
            }
            let name = line.substring_char(0, i).to_owned();
            let value = line.substring_char(i + 2, len).to_owned();
            proof {
                assert(name@ =~= line@.take(i as int));
                assert(value@ =~= line@.skip(i + 2));
            }
            return (name, value);
        }
        i = i + 1;
    }
    proof {
        lemma_sep_pos_none(line@);
    }
    (line.to_owned(), String::new())
}

/// The number a string reads as, when it reads as one.
fn parse_usize_str(s: &str) -> (r: Option<usize>)
    ensures
        valid_usize_chars(s@) ==> (r matches Some(v) && v == dec_val(digits_part(s@))),
        !valid_usize_chars(s@) ==> r is None,
{
    let len = s.unicode_len();
    let start: usize = if len > 0 && s.get_char(0) == '+' {
        1
    } else {
        0
    };
    proof {
        if start == 1 {
            assert(digits_part(s@) =~= s@.skip(1));
        } else {
            assert(digits_part(s@) =~= s@.skip(0));
            assert(s@.skip(0) =~= s@);
        }
    }
    let ghost d = digits_part(s@);
    if start == len {
        return None;
    }
    let mut acc: usize = 0;
    let mut i = start;
    while i < len
        invariant
            len == s@.len(),
            start <= i <= len,
            d == digits_part(s@),
            d =~= s@.skip(start as int),
            forall|m: int| 0 <= m < i - start ==> is_digit(#[trigger] d[m]),
            acc == dec_val(d.take(i - start)),
        decreases len - i,
    {
        let c = s.get_char(i);
        if c < '0' || c > '9' {
            proof {
                assert(!is_digit(d[i - start]));
            }
            return None;
        }
        let dv = digit_value(c);
        proof {
            assert(d.take(i - start + 1).drop_last() =~= d.take(i - start));
            assert(d.take(i - start + 1).last() == d[i - start]);
            assert(dec_val(d.take(i - start + 1)) == acc * 10 + dv);
        }
        let m = match acc.checked_mul(10) {
            Some(m) => m,
            None => {
                proof {
                    overflow_means_invalid(s@, d, i as int - start as int, acc * 10 + dv);
                }
                return None;
            },
        };
        acc = match m.checked_add(dv) {
            Some(a) => a,
            None => {
                proof {
                    overflow_means_invalid(s@, d, i as int - start as int, acc * 10 + dv);
                }
                return None;
            },
        };
        i = i + 1;
    }
    proof {
        assert(d.take(len - start) =~= d);
        assert(forall|m: int| 0 <= m < d.len() ==> is_digit(#[trigger] d[m]));
    }
    Some(acc)
}

/// The numeric value of a digit character.
fn digit_value(c: char) -> (r: usize)
    requires
        is_digit(c),
    ensures
        r == c as u8 - 48,
        r <= 9,
{
    match c {
        '0' => 0,
        '1' => 1,
        '2' => 2,
        '3' => 3,
        '4' => 4,
        '5' => 5,
        '6' => 6,
        '7' => 7,
        '8' => 8,
        _ => 9,
    }
}

/// A digit string's value never shrinks as it grows to the right.
proof fn lemma_dec_val_nonneg(d: Seq<char>)
    requires
        forall|m: int| 0 <= m < d.len() ==> is_digit(#[trigger] d[m]),
    ensures
        dec_val(d) >= 0,
    decreases d.len(),
{
    if d.len() == 0 {
    } else {
        lemma_dec_val_nonneg(d.drop_last());
    }
}

/// The value of a digit prefix bounds the value of the whole.
proof fn lemma_dec_val_prefix(d: Seq<char>, k: int)
    requires
        0 <= k <= d.len(),
        forall|m: int| 0 <= m < d.len() ==> is_digit(#[trigger] d[m]),
    ensures
        dec_val(d.take(k)) <= dec_val(d),
    decreases d.len() - k,
{
    if k == d.len() {
        assert(d.take(k) =~= d);
    } else {
        assert(forall|m: int| 0 <= m < k ==> is_digit(#[trigger] d.take(k)[m]));
        lemma_dec_val_nonneg(d.take(k));
        assert(d.take(k + 1).drop_last() =~= d.take(k));
        assert(dec_val(d.take(k + 1)) == dec_val(d.take(k)) * 10 + (d[k] as u8 - 48));
        lemma_dec_val_prefix(d, k + 1);
    }
}

/// A prefix already past the bound leaves no valid number.
proof fn overflow_means_invalid(s: Seq<char>, d: Seq<char>, upto: int, value: int)
    requires
        d == digits_part(s),
        0 <= upto,
        upto + 1 <= d.len(),
        value > usize::MAX as int,
        dec_val(d.take(upto + 1)) == value,
    ensures
        !valid_usize_chars(s),
{
    if valid_usize_chars(s) {
        lemma_dec_val_prefix(d, upto + 1);
    }
}

/// Parsing is a function of the bytes alone: two streams with the same
/// content parse to the same result, so reading the same content off two
/// connections yields structurally equal requests.
pub proof fn lemma_parse_deterministic(b1: Seq<u8>, b2: Seq<u8>)
    requires
        b1 == b2,
    ensures
        spec_parse(b1) == spec_parse(b2),
{
}

/// Header names are case-folded before insertion, so a header line whose
/// name folds to `content-length` decides the body length whatever case
/// the peer wrote the name in.
pub proof fn lemma_content_length_any_case(
    m: Seq<(Seq<char>, Seq<char>)>,
    name: Seq<char>,
    v: Seq<char>,
)
    requires
        lower_chars(name) == "content-length"@,
    ensures
        content_length_of(hinsert(m, lower_chars(name), v)) == content_length_value(v),
{
    crate::headers::lemma_hget_hinsert_same(m, lower_chars(name), v);
}

/// ASCII bytes decode to ASCII characters.
proof fn lemma_chars_of_ascii(b: Seq<u8>)
    requires
        all_ascii(b),
    ensures
        vstd::utf8::is_ascii_chars(chars_of(b)),
{
    assert forall|i: int| 0 <= i < chars_of(b).len() implies '\0' <= #[trigger] chars_of(b)[i]
        <= '\u{7f}' by {
        assert(chars_of(b)[i] == b[i] as char);
        assert(b[i] < 128);
    }
}

proof fn lemma_trim_front_ascii(s: Seq<char>)
    requires
        vstd::utf8::is_ascii_chars(s),
    ensures
        vstd::utf8::is_ascii_chars(trim_front(s)),
    decreases s.len(),
{
    if s.len() > 0 && ws_char(s[0]) {
        assert(vstd::utf8::is_ascii_chars(s.drop_first()));
        lemma_trim_front_ascii(s.drop_first());
    }
}

proof fn lemma_trim_back_ascii(s: Seq<char>)
    requires
        vstd::utf8::is_ascii_chars(s),
    ensures
        vstd::utf8::is_ascii_chars(trim_back(s)),
    decreases s.len(),
{
    if s.len() > 0 && ws_char(s.last()) {
        assert(vstd::utf8::is_ascii_chars(s.drop_last()));
        lemma_trim_back_ascii(s.drop_last());
    }
}

proof fn lemma_sep_pos_bounds(s: Seq<char>)
    ensures
        0 <= sep_pos(s) <= s.len(),
    decreases s.len(),
{
    if s.len() < 2 {
    } else if s[0] == ':' && s[1] == ' ' {
    } else {
        lemma_sep_pos_bounds(s.drop_first());
    }
}

/// Both halves of a split header line stay ASCII.
proof fn lemma_split_header_ascii(s: Seq<char>)
    requires
        vstd::utf8::is_ascii_chars(s),
    ensures
        vstd::utf8::is_ascii_chars(split_header(s).0),
        vstd::utf8::is_ascii_chars(split_header(s).1),
{
    lemma_sep_pos_bounds(s);
}

/// Every byte is ASCII, decided by a scan.
fn is_all_ascii(v: &Vec<u8>) -> (r: bool)
    ensures
        r == all_ascii(v@),
{
    let n = v.len();
    let mut i: usize = 0;
    while i < n
        invariant
            n == v@.len(),
            0 <= i <= n,
            forall|j: int| 0 <= j < i ==> v@[j] < 128,
        decreases n - i,
    {
        if v[i] >= 128 {
            return false;
        }
        i = i + 1;
    }
    true
}

/// One line taken out of `input` at `start`: its bytes without the line
/// feed, and where the stream continues.
fn take_line(input: &[u8], start: usize) -> (r: (Vec<u8>, usize))
    requires
        start < input@.len(),
    ensures
        r.0@ == first_line(input@.skip(start as int)),
        input@.skip(r.1 as int) == after_line(input@.skip(start as int)),
        start < r.1 <= input@.len(),
{
    let n = input.len();
    let mut line: Vec<u8> = Vec::new();
    let mut i = start;
    while i < n && input[i] != 10
        invariant
            n == input@.len(),
            start <= i <= n,
            line@ =~= input@.subrange(start as int, i as int),
            forall|j: int| start <= j < i ==> input@[j] != 10,
        decreases n - i,
    {
        line.push(input[i]);
        i = i + 1;
    }
    let ghost suf = input@.skip(start as int);
    proof {
        assert forall|j: int| 0 <= j < i - start implies suf[j] != 10 by {
            assert(suf[j] == input@[start + j]);
        }
        if i < n {
            assert(suf[i - start] == input@[i as int]);
        }
        lemma_nl_pos_at(suf, i - start);
        assert(line@ =~= suf.take(i - start));
    }
    let end = if i < n {
        i + 1
    } else {
        i
    };
    proof {
        if i < n {
            assert(input@.skip(end as int) =~= suf.skip(i - start + 1));
        } else {
            assert(input@.skip(end as int) =~= suf.skip(suf.len() as int));
        }
    }
    (line, end)
}

/// Header lines folded into `headers` until an empty line, as
/// `parse_headers` describes; the result says where the body starts.
fn read_headers(
    input: &[u8],
    start: usize,
    headers: &mut Vec<(String, String)>,
) -> (r: Result<usize, ParseError>)
    requires
        start <= input@.len(),
    ensures
        match r {
            Ok(pos) => start <= pos <= input@.len() && parse_headers(
                input@.skip(start as int),
                views_of(old(headers)@),
            ) == Ok::<_, ParseError>((views_of(final(headers)@), input@.skip(pos as int))),
            Err(e) => parse_headers(input@.skip(start as int), views_of(old(headers)@))
                == Err::<(Seq<(Seq<char>, Seq<char>)>, Seq<u8>), ParseError>(e),
        },
    decreases input@.len() - start,
{
    let n = input.len();
    if start == n {
        proof {
            assert(input@.skip(start as int) =~= Seq::<u8>::empty());
        }
        return Err(ParseError::ConnectionClosed);
    }
    let (lineb, newpos) = take_line(input, start);
    if !is_all_ascii(&lineb) {
        return Err(ParseError::MalformedHeader);
    }
    let lines = ascii_to_string(lineb);
    let trimmed = str_trim(lines.as_str());
    if trimmed.is_empty() {
        return Ok(newpos);
    }
    let (k, val) = parse_header(trimmed);
    proof {
        lemma_chars_of_ascii(first_line(input@.skip(start as int)));
        lemma_trim_front_ascii(chars_of(first_line(input@.skip(start as int))));
        lemma_trim_back_ascii(trim_front(chars_of(first_line(input@.skip(start as int)))));
        lemma_split_header_ascii(trimmed@);
    }
    let kl = lower_ascii(k.as_str());
    header_insert(headers, kl, val);
    read_headers(input, newpos, headers)
}

/// The body length the header map calls for, zero without a readable
/// `content-length`.
fn content_length(headers: &Vec<(String, String)>) -> (r: usize)
    ensures
        r as int == content_length_of(views_of(headers@)),
{
    match header_get(headers, "content-length") {
        None => 0,
        Some(v) => {
            let t = str_trim(v.as_str());
            match parse_usize_str(t) {
                Some(x) => x,
                None => 0,
            }
        },
    }
}

/// Parses one request out of a byte stream, as `spec_parse` describes:
/// the request line, the header lines, and at most `content-length`
/// bytes of body, of which a shorter stream yields what it holds.
pub fn parse_request_bytes(input: &[u8]) -> (r: Result<Request, ParseError>)
    ensures
        match spec_parse(input@) {
            Ok(m) => r matches Ok(req) && req.method@ == m.method && req.path@ == m.path
                && req.version@ == m.version && views_of(req.headers@) == m.headers && req.body@
                == m.body,
            Err(e) => r matches Err(p) && p == e,
        },
{
    let n = input.len();
    if n == 0 {
        return Err(ParseError::ConnectionClosed);
    }
    let (line1, pos) = take_line(input, 0);
    proof {
        assert(input@.skip(0) =~= input@);
    }
    if !is_all_ascii(&line1) {
        return Err(ParseError::MalformedRequestLine);
    }
    let line1s = ascii_to_string(line1);
    let trimmed = str_trim(line1s.as_str());
    let (m, p, v) = parse_method_path_version(trimmed);
    if m.as_str().is_empty() {
        proof {
            lemma_first_token_nonempty(trimmed@);
        }
        return Err(ParseError::MalformedRequestLine);
    }
    proof {
        lemma_first_token_nonempty(trimmed@);
        assert(tokens_of(trimmed@).len() >= 3);
    }
    let mut headers: Vec<(String, String)> = Vec::new();
    proof {
        assert(views_of(headers@) =~= Seq::<(Seq<char>, Seq<char>)>::empty());
    }
    let body_start = match read_headers(input, pos, &mut headers) {
        Ok(bs) => bs,
        Err(e) => {
            return Err(e);
        },
    };
    let cl = content_length(&headers);
    let avail = n - body_start;
    let take_n = if cl < avail {
        cl
    } else {
        avail
    };
    let body = vstd::slice::slice_to_vec(
        vstd::slice::slice_subrange(input, body_start, body_start + take_n),
    );
    proof {
        let rest = input@.skip(body_start as int);
        assert(body@ =~= rest.take(take_n as int));
    }
    Ok(Request { path: p, method: m, version: v, headers, body })
}

} // verus!
