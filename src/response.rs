//! Responses and their wire form:
//! `HTTP/1.1 <code> <message>\r\n`, one `<name>: <value>\r\n` per header,
//! an empty line, then the body.

use vstd::prelude::*;
use vstd::string::StringSliceAdditionalSpecFns;
use crate::bytes::{append_bytes, crlf, text, COLON, CR, LF, SP};

verus! {

/// The decimal digits of `n`, most significant first.
pub open spec fn decimal_of(n: nat) -> Seq<u8>
    decreases n,
{
    if n < 10 {
        seq![(48 + n) as u8]
    } else {
        decimal_of(n / 10).push((48 + n % 10) as u8)
    }
}

/// Writes `n` in decimal.
pub fn decimal(n: usize) -> (r: Vec<u8>)
    ensures
        r@ == decimal_of(n as nat),
    decreases n,
{
    if n < 10 {
        let mut v: Vec<u8> = Vec::new();
        v.push((48 + n) as u8);
        v
    } else {
        let mut v = decimal(n / 10);
        v.push((48 + n % 10) as u8);
        v
    }
}

/// What a response holds.
pub struct ResponseView {
    pub code: u16,
    pub message: Seq<u8>,
    pub headers: Seq<(Seq<u8>, Seq<u8>)>,
    pub body: Seq<u8>,
}

/// An HTTP/1.1 response.
pub struct Response {
    pub code: u16,
    pub message: Vec<u8>,
    pub headers: Vec<(Vec<u8>, Vec<u8>)>,
    pub body: Vec<u8>,
}

impl View for Response {
    type V = ResponseView;

    open spec fn view(&self) -> ResponseView {
        ResponseView {
            code: self.code,
            message: self.message@,
            headers: self.headers@.map_values(|h: (Vec<u8>, Vec<u8>)| (h.0@, h.1@)),
            body: self.body@,
        }
    }
}

/// The header lines for `hs`, in order.
pub open spec fn header_block(hs: Seq<(Seq<u8>, Seq<u8>)>) -> Seq<u8>
    decreases hs.len(),
{
    if hs.len() == 0 {
        seq![]
    } else {
        hs[0].0 + seq![COLON, SP] + hs[0].1 + crlf() + header_block(hs.drop_first())
    }
}

/// The status line of a response with `code` and `message`.
pub open spec fn status_line(code: u16, message: Seq<u8>) -> Seq<u8> {
    "HTTP/1.1".spec_bytes() + seq![SP] + decimal_of(code as nat) + seq![SP] + message + crlf()
}

/// The bytes that go on the wire for `r`.
pub open spec fn serialize(r: ResponseView) -> Seq<u8> {
    status_line(r.code, r.message) + header_block(r.headers) + crlf() + r.body
}

/// No two headers share a name.
pub open spec fn names_unique(hs: Seq<(Seq<u8>, Seq<u8>)>) -> bool {
    forall|i: int, j: int| 0 <= i < j < hs.len() ==> hs[i].0 != hs[j].0
}

/// A response whose headers have unique names and which, when it has a body,
/// says what type of content it is and exactly how long it is.
pub open spec fn well_formed(r: ResponseView) -> bool {
    &&& names_unique(r.headers)
    &&& r.body.len() > 0 ==> r.headers.contains(
        ("Content-Length".spec_bytes(), decimal_of(r.body.len())),
    )
    &&& r.body.len() > 0 ==> exists|i: int|
        0 <= i < r.headers.len() && (#[trigger] r.headers[i]).0 == "Content-Type".spec_bytes()
}

impl Response {
    /// The bytes to send: status line, headers, an empty line and the body.
    pub fn to_bytes(&self) -> (r: Vec<u8>)
        ensures
            r@ == serialize(self@),
    {
        let mut out = text("HTTP/1.1");
        out.push(SP);
        let code = decimal(self.code as usize);
        append_bytes(&mut out, code.as_slice());
        out.push(SP);
        append_bytes(&mut out, self.message.as_slice());
        out.push(CR);
        out.push(LF);
        let ghost head = out@;
        let ghost hs = self@.headers;
        let mut i: usize = 0;
        assert(hs.subrange(0, hs.len() as int) =~= hs);
        while i < self.headers.len()
            invariant
                i <= hs.len(),
                hs == self@.headers,
                out@ + header_block(hs.subrange(i as int, hs.len() as int)) == head + header_block(hs),
            decreases hs.len() - i,
        {
            let ghost before = out@;
            let ghost rest = hs.subrange(i as int, hs.len() as int);
            assert(rest.drop_first() =~= hs.subrange(i + 1, hs.len() as int));
            append_bytes(&mut out, self.headers[i].0.as_slice());
            out.push(COLON);
            out.push(SP);
            append_bytes(&mut out, self.headers[i].1.as_slice());
            out.push(CR);
            out.push(LF);
            assert(out@ =~= before + (hs[i as int].0 + seq![COLON, SP] + hs[i as int].1 + crlf()));
            i = i + 1;
        }
        assert(hs.subrange(hs.len() as int, hs.len() as int) =~= Seq::<(Seq<u8>, Seq<u8>)>::empty());
        out.push(CR);
        out.push(LF);
        append_bytes(&mut out, self.body.as_slice());
        assert(out@ =~= serialize(self@));
        out
    }
}

/// A response with no headers and no body.
fn bare(code: u16, message: &str) -> (r: Response)
    ensures
        r@.code == code,
        r@.message == message.spec_bytes(),
        r@.headers.len() == 0,
        r@.body.len() == 0,
{
    let r = Response { code, message: text(message), headers: Vec::new(), body: Vec::new() };
    assert(r@.headers =~= Seq::<(Seq<u8>, Seq<u8>)>::empty());
    r
}

/// `404 Not Found`, with no headers and an empty body.
pub fn not_found() -> (r: Response)
    ensures
        r@.code == 404,
        r@.message == "Not Found".spec_bytes(),
        r@.headers.len() == 0,
        r@.body.len() == 0,
        well_formed(r@),
{
    bare(404, "Not Found")
}

/// `405 Method Not Allowed`, with no headers and an empty body.
pub fn method_not_allowed() -> (r: Response)
    ensures
        r@.code == 405,
        r@.message == "Method Not Allowed".spec_bytes(),
        r@.headers.len() == 0,
        r@.body.len() == 0,
        well_formed(r@),
{
    bare(405, "Method Not Allowed")
}

/// `500 Internal Server Error`, for a file that could not be read.
pub fn internal_error() -> (r: Response)
    ensures
        r@.code == 500,
        r@.message == "Internal Server Error".spec_bytes(),
        r@.headers.len() == 0,
        r@.body.len() == 0,
        well_formed(r@),
{
    bare(500, "Internal Server Error")
}

/// The bytes of an ASCII string are its characters, one each.
pub proof fn lemma_ascii_len(s: &str)
    requires
        vstd::string::is_ascii(s),
    ensures
        s.spec_bytes().len() == s@.len(),
{
    vstd::string::is_ascii_spec_bytes(s);
}

/// The header names of file responses are four different byte strings.
pub proof fn lemma_header_names()
    ensures
        "Content-Type".spec_bytes().len() == 12,
        "Content-Length".spec_bytes().len() == 14,
        "Content-Encoding".spec_bytes().len() == 16,
        "Content-Disposition".spec_bytes().len() == 19,
{
    reveal_strlit("Content-Type");
    reveal_strlit("Content-Length");
    reveal_strlit("Content-Encoding");
    reveal_strlit("Content-Disposition");
    lemma_ascii_len("Content-Type");
    lemma_ascii_len("Content-Length");
    lemma_ascii_len("Content-Encoding");
    lemma_ascii_len("Content-Disposition");
}

} // verus!
