//! The data carriers of the dispatch pipeline: a parsed request and a
//! handler-produced response, with the response-building helpers.

use vstd::prelude::*;
use vstd::string::StringExecFns;
use crate::headers::{hinsert, hinsert_all, views_of};
use crate::wire::dec_chars;

verus! {

/// A parsed HTTP request. Header names are ASCII-case-folded to lower
/// case; the body holds exactly the bytes the parser read for it.
#[derive(Debug)]
pub struct Request {
    pub path: String,
    pub method: String,
    pub version: String,
    pub headers: Vec<(String, String)>,
    pub body: Vec<u8>,
}

/// A handler-produced HTTP response.
pub struct Response {
    pub response_code: u16,
    pub body: String,
    pub headers: Vec<(String, String)>,
}

/// The serde_json value type, which response bodies can be rendered from.
#[verifier::external_type_specification]
#[verifier::external_body]
pub struct ExJsonValue(serde_json::Value);

/// The JSON text that a serde_json value renders to. With serde_json's
/// default object representation (a sorted map) the text depends on the
/// value alone.
pub uninterp spec fn json_text(v: serde_json::Value) -> Seq<char>;

/// Relies on the Display implementation of serde_json::Value, through
/// ToString: it writes the value as compact JSON text, a function of the
/// value alone.
#[verifier::external_body]
fn json_to_string(v: &serde_json::Value) -> (r: String)
    ensures
        r@ == json_text(*v),
{
    v.to_string()
}

/// Relies on chrono's Utc::now and DateTime::format: the current UTC
/// time, written in RFC-1123 form. The result depends on the clock, so
/// nothing is promised of it.
#[verifier::external_body]
fn now_rfc1123() -> String {
    chrono::Utc::now().format("%a, %d %b %Y %H:%M:%S GMT").to_string()
}

impl Response {
    /// A response with the given status code, an empty body, and the
    /// fixed server identification header.
    pub fn new(response_code: u16) -> (r: Response)
        ensures
            r.response_code == response_code,
            r.body@ == Seq::<char>::empty(),
            views_of(r.headers@) == seq![("Server"@, "Rust"@)],
    {
        let mut headers: Vec<(String, String)> = Vec::new();
        headers.push(("Server".to_owned(), "Rust".to_owned()));
        let r = Response { response_code, headers, body: String::new() };
        proof {
            assert(views_of(r.headers@) =~= seq![("Server"@, "Rust"@)]);
        }
        r
    }

    /// Sets the body to the given text and marks it as plain text.
    pub fn with_text(&mut self, text: &str)
        ensures
            final(self).response_code == old(self).response_code,
            final(self).body@ == text@,
            views_of(final(self).headers@) == hinsert(
                views_of(old(self).headers@),
                "Content-Type"@,
                "text/plain"@,
            ),
    {
        self.body = text.to_owned();
        self.with_header("Content-Type", "text/plain");
    }

    /// Sets the body to the given markup and marks it as HTML.
    pub fn with_html(&mut self, html: &str)
        ensures
            final(self).response_code == old(self).response_code,
            final(self).body@ == html@,
            views_of(final(self).headers@) == hinsert(
                views_of(old(self).headers@),
                "Content-Type"@,
                "text/html"@,
            ),
    {
        self.body = html.to_owned();
        self.with_header("Content-Type", "text/html");
    }

    /// Renders the value as JSON text into the body and marks it as JSON.
    pub fn with_json(&mut self, json: serde_json::Value)
        ensures
            final(self).response_code == old(self).response_code,
            final(self).body@ == json_text(json),
            views_of(final(self).headers@) == hinsert(
                views_of(old(self).headers@),
                "Content-Type"@,
                "application/json"@,
            ),
    {
        self.body = json_to_string(&json);
        self.with_header("Content-Type", "application/json");
    }

    /// Maps the header `key` to `value`, replacing any earlier value.
    pub fn with_header(&mut self, key: &str, value: &str)
        ensures
            final(self).response_code == old(self).response_code,
            final(self).body == old(self).body,
            views_of(final(self).headers@) == hinsert(
                views_of(old(self).headers@),
                key@,
                value@,
            ),
    {
        crate::headers::header_insert(&mut self.headers, key.to_owned(), value.to_owned());
    }

    /// Applies every pair of `headers` in order, each as `with_header`.
    pub fn with_headers(&mut self, headers: Vec<(String, String)>)
        ensures
            final(self).response_code == old(self).response_code,
            final(self).body == old(self).body,
            views_of(final(self).headers@) == hinsert_all(
                views_of(old(self).headers@),
                views_of(headers@),
            ),
    {
        let n = headers.len();
        let mut i: usize = 0;
        while i < n
            invariant
                n == headers@.len(),
                0 <= i <= n,
                self.response_code == old(self).response_code,
                self.body == old(self).body,
                views_of(self.headers@) == hinsert_all(
                    views_of(old(self).headers@),
                    views_of(headers@).take(i as int),
                ),
            decreases n - i,
        {
            let key = headers[i].0.clone();
            let value = headers[i].1.clone();
            proof {
                assert(key@ == headers@[i as int].0@);
                assert(value@ == headers@[i as int].1@);
            }
            crate::headers::header_insert(&mut self.headers, key, value);
            proof {
                let ps = views_of(headers@);
                assert(ps.take(i + 1) =~= ps.take(i as int).push(ps[i as int]));
                crate::headers::lemma_hinsert_all_push(
                    views_of(old(self).headers@),
                    ps.take(i as int),
                    ps[i as int],
                );
            }
            i = i + 1;
        }
        proof {
            assert(views_of(headers@).take(n as int) =~= views_of(headers@));
        }
    }

    /// Maps the `Date` header to the current UTC time in RFC-1123 form.
    /// The clock decides the value, so only the shape of the change is
    /// promised.
    pub fn date_header(&mut self)
        ensures
            final(self).response_code == old(self).response_code,
            final(self).body == old(self).body,
            exists|v: Seq<char>|
                views_of(final(self).headers@) == hinsert(
                    views_of(old(self).headers@),
                    "Date"@,
                    v,
                ),
    {
        let stamp = now_rfc1123();
        self.with_header("Date", stamp.as_str());
    }

    /// Takes over the content of a served file: the body becomes
    /// `content`, the content type follows the extension of `file_path`,
    /// and the content length is recorded as a header. The caller reads
    /// the file and hands its text in.
    pub fn with_file_content(&mut self, file_path: &str, content: String)
        ensures
            final(self).response_code == old(self).response_code,
            final(self).body@ == content@,
            views_of(final(self).headers@) == hinsert(
                hinsert(
                    views_of(old(self).headers@),
                    "Content-Type"@,
                    content_type_spec(extension_spec(file_path@)),
                ),
                "Content-Length"@,
                dec_chars(vstd::utf8::encode_utf8(content@).len()),
            ),
    {
        let length = content.as_str().as_bytes().len();
        self.body = content;
        let ext = file_extension(file_path);
        let ctype = content_type_for_extension(ext.as_str());
        self.with_header("Content-Type", ctype);
        let digits = crate::wire::dec_string(length);
        self.with_header("Content-Length", digits.as_str());
    }
}

/// What follows the last occurrence of `c`, or all of `s` when `c` does
/// not occur.
pub open spec fn segment_after(s: Seq<char>, c: char) -> Seq<char>
    decreases s.len(),
{
    if s.len() == 0 {
        s
    } else if s.last() == c {
        Seq::empty()
    } else {
        segment_after(s.drop_last(), c).push(s.last())
    }
}

/// The extension of the file a path names: what follows the last `.` of
/// the final `/`-separated segment. A segment without a `.` past its
/// first character has no extension, so a name that only starts with a
/// `.` stays extensionless.
pub open spec fn extension_spec(p: Seq<char>) -> Seq<char> {
    let seg = segment_after(p, '/');
    if exists|j: int| 1 <= j < seg.len() && seg[j] == '.' {
        segment_after(seg, '.')
    } else {
        Seq::empty()
    }
}

/// `segment_after` names the suffix past the last occurrence.
proof fn lemma_segment_after_at(s: Seq<char>, c: char, i: int)
    requires
        0 <= i < s.len(),
        s[i] == c,
        forall|j: int| i < j < s.len() ==> s[j] != c,
    ensures
        segment_after(s, c) =~= s.skip(i + 1),
    decreases s.len(),
{
    if i == s.len() - 1 {
    } else {
        lemma_segment_after_at(s.drop_last(), c, i);
    }
}

/// Without an occurrence, `segment_after` keeps the whole sequence.
proof fn lemma_segment_after_absent(s: Seq<char>, c: char)
    requires
        forall|j: int| 0 <= j < s.len() ==> s[j] != c,
    ensures
        segment_after(s, c) =~= s,
    decreases s.len(),
{
    if s.len() == 0 {
    } else {
        lemma_segment_after_absent(s.drop_last(), c);
    }
}

/// The index just past the last occurrence of `c` in `s`, or 0 when `c`
/// does not occur.
fn after_last(s: &str, len: usize, c: char) -> (r: usize)
    requires
        len == s@.len(),
    ensures
        r == 0 ==> forall|j: int| 0 <= j < s@.len() ==> s@[j] != c,
        r > 0 ==> r <= s@.len() && s@[r - 1] == c && forall|j: int|
            r <= j < s@.len() ==> s@[j] != c,
{
    let mut i: usize = len;
    while i > 0
        invariant
            len == s@.len(),
            0 <= i <= len,
            forall|j: int| i <= j < s@.len() ==> s@[j] != c,
        decreases i,
    {
        if s.get_char(i - 1) == c {
            return i;
        }
        i = i - 1;
    }
    0
}

/// The extension of the file `path` names, as `extension_spec` defines
/// it.
pub fn file_extension(path: &str) -> (r: String)
    ensures
        r@ == extension_spec(path@),
{
    let len = path.unicode_len();
    let slash = after_last(path, len, '/');
    let seg = path.substring_char(slash, len);
    proof {
        if slash == 0 {
            lemma_segment_after_absent(path@, '/');
        } else {
            lemma_segment_after_at(path@, '/', slash - 1);
        }
        assert(seg@ =~= segment_after(path@, '/'));
    }
    let seg_len = len - slash;
    let dot = after_last(seg, seg_len, '.');
    if dot >= 2 {
        proof {
            lemma_segment_after_at(seg@, '.', dot - 1);
            assert(seg@[dot - 1] == '.' && dot - 1 >= 1);
        }
        let ext = seg.substring_char(dot, seg_len);
        proof {
            assert(ext@ =~= segment_after(seg@, '.'));
        }
        ext.to_owned()
    } else {
        proof {
            if dot == 0 {
                assert(forall|j: int| 1 <= j < seg@.len() ==> seg@[j] != '.');
            } else {
                assert(seg@[0] == '.');
                assert(forall|j: int| 1 <= j < seg@.len() ==> seg@[j] != '.');
            }
        }
        String::new()
    }
}

/// The media type that a file extension stands for, defaulting to an
/// opaque byte stream.
pub open spec fn content_type_spec(ext: Seq<char>) -> Seq<char> {
    if ext == "html"@ {
        "text/html"@
    } else if ext == "css"@ {
        "text/css"@
    } else if ext == "js"@ {
        "application/javascript"@
    } else if ext == "png"@ {
        "image/png"@
    } else if ext == "jpg"@ {
        "image/jpeg"@
    } else if ext == "jpeg"@ {
        "image/jpeg"@
    } else if ext == "gif"@ {
        "image/gif"@
    } else if ext == "svg"@ {
        "image/svg+xml"@
    } else if ext == "ico"@ {
        "image/x-icon"@
    } else {
        "application/octet-stream"@
    }
}

/// The media type for a file extension, as `content_type_spec` defines
/// it.
pub fn content_type_for_extension(ext: &str) -> (r: &'static str)
    ensures
        r@ == content_type_spec(ext@),
{
    if crate::text::str_eq(ext, "html") {
        "text/html"
    } else if crate::text::str_eq(ext, "css") {
        "text/css"
    } else if crate::text::str_eq(ext, "js") {
        "application/javascript"
    } else if crate::text::str_eq(ext, "png") {
        "image/png"
    } else if crate::text::str_eq(ext, "jpg") {
        "image/jpeg"
    } else if crate::text::str_eq(ext, "jpeg") {
        "image/jpeg"
    } else if crate::text::str_eq(ext, "gif") {
        "image/gif"
    } else if crate::text::str_eq(ext, "svg") {
        "image/svg+xml"
    } else if crate::text::str_eq(ext, "ico") {
        "image/x-icon"
    } else {
        "application/octet-stream"
    }
}

} // verus!
