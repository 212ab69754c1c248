//! The wire parser: raw request bytes to a structured request.
//!
//! A single pass records, from offset 0 on, the offset of every carriage
//! return and the offset just past every line feed. Consecutive offsets
//! are paired into lines; an unpaired final offset starts the body.
//! The first line is the request line; the lines after it, up to the first
//! empty one, are headers.

use vstd::prelude::*;
use crate::bytes::{append_bytes, bytes_eq, copy_range, COLON, CR, LF, SP};

verus! {

/// The recorded offsets of the bytes `b`, without the leading 0.
pub open spec fn marks(b: Seq<u8>) -> Seq<int>
    decreases b.len(),
{
    if b.len() == 0 {
        seq![]
    } else {
        let p = marks(b.drop_last());
        let i = b.len() - 1;
        if b[i] == CR {
            p.push(i)
        } else if b[i] == LF {
            p.push(i + 1)
        } else {
            p
        }
    }
}

/// All line-boundary offsets of `b`, starting with 0.
#[verifier::opaque]
pub open spec fn offsets(b: Seq<u8>) -> Seq<int> {
    seq![0int] + marks(b)
}

/// How many (start, end) pairs the offsets of `b` form.
pub open spec fn line_count(b: Seq<u8>) -> int {
    offsets(b).len() as int / 2
}

/// The `k`-th line of `b`.
pub open spec fn line_at(b: Seq<u8>, k: int) -> Seq<u8> {
    b.subrange(offsets(b)[2 * k], offsets(b)[2 * k + 1])
}

/// The bytes from the unpaired final offset on, if there is one.
pub open spec fn body_of(b: Seq<u8>) -> Seq<u8> {
    let o = offsets(b);
    if o.len() % 2 == 1 {
        b.subrange(o.last(), b.len() as int)
    } else {
        seq![]
    }
}

/// The index of the first line at or after `k` that is empty, or the line count.
pub open spec fn header_end_from(b: Seq<u8>, k: int) -> int
    decreases line_count(b) - k,
{
    if k >= line_count(b) || line_at(b, k).len() == 0 {
        k
    } else {
        header_end_from(b, k + 1)
    }
}

/// Lines `1 .. header_end(b)` are the header lines.
pub open spec fn header_end(b: Seq<u8>) -> int {
    header_end_from(b, 1)
}

/// `i` is the position of the first `c` in `s`.
pub open spec fn is_first(s: Seq<u8>, c: u8, i: int) -> bool {
    0 <= i < s.len() && s[i] == c && forall|j: int| 0 <= j < i ==> s[j] != c
}

/// The bytes of `s` before its first `c` (all of `s` when there is none).
#[verifier::opaque]
pub open spec fn before(s: Seq<u8>, c: u8) -> Seq<u8> {
    if exists|i: int| is_first(s, c, i) {
        s.subrange(0, choose|i: int| is_first(s, c, i))
    } else {
        s
    }
}

/// The bytes of `s` after its first `c`, if it holds one.
#[verifier::opaque]
pub open spec fn after(s: Seq<u8>, c: u8) -> Option<Seq<u8>> {
    if exists|i: int| is_first(s, c, i) {
        Some(s.subrange((choose|i: int| is_first(s, c, i)) + 1, s.len() as int))
    } else {
        None
    }
}

/// A header line is accepted unless its first colon is followed by anything but a space.
pub open spec fn header_ok(line: Seq<u8>) -> bool {
    match after(line, COLON) {
        None => true,
        Some(rest) => rest.len() > 0 && rest[0] == SP,
    }
}

/// The name and value of a header line: the name is what precedes the first
/// colon; the value is what follows it, less one leading space.
pub open spec fn header_pair(line: Seq<u8>) -> (Seq<u8>, Seq<u8>) {
    match after(line, COLON) {
        None => (line, seq![]),
        Some(rest) => (before(line, COLON), rest.drop_first()),
    }
}

/// The request line splits into a method and a target.
pub open spec fn request_line_ok(line: Seq<u8>) -> bool {
    after(line, SP) is Some
}

/// What a parsed request holds.
pub struct RequestView {
    pub method: Seq<u8>,
    pub target: Seq<u8>,
    pub version: Seq<u8>,
    pub headers: Seq<(Seq<u8>, Seq<u8>)>,
    pub body: Seq<u8>,
}

/// Why a request could not be parsed.
#[derive(Debug, Clone, Copy, PartialEq, Eq, Structural)]
pub enum ParseError {
    /// No complete request line, or one without a target.
    MalformedRequest,
    /// A header whose colon is not followed by a space.
    MalformedHeader,
}

/// The request that the bytes `b` encode, or why they do not encode one.
pub open spec fn parse_spec(b: Seq<u8>) -> Result<RequestView, ParseError> {
    if line_count(b) < 1 || !request_line_ok(line_at(b, 0)) {
        Err(ParseError::MalformedRequest)
    } else if exists|k: int| 1 <= k < header_end(b) && !header_ok(#[trigger] line_at(b, k)) {
        Err(ParseError::MalformedHeader)
    } else {
        let line = line_at(b, 0);
        let rest = after(line, SP)->Some_0;
        Ok(
            RequestView {
                method: before(line, SP),
                target: before(rest, SP),
                version: match after(rest, SP) {
                    None => seq![],
                    Some(r) => before(r, SP),
                },
                headers: Seq::new(
                    (header_end(b) - 1) as nat,
                    |j: int| header_pair(line_at(b, j + 1)),
                ),
                body: body_of(b),
            },
        )
    }
}

/// The value of the first header called `name`, if any.
pub open spec fn header_lookup(hs: Seq<(Seq<u8>, Seq<u8>)>, name: Seq<u8>) -> Option<Seq<u8>>
    decreases hs.len(),
{
    if hs.len() == 0 {
        None
    } else if hs[0].0 == name {
        Some(hs[0].1)
    } else {
        header_lookup(hs.drop_first(), name)
    }
}

/// A parsed request. Header names keep the case in which they arrived.
pub struct Request {
    pub method: Vec<u8>,
    pub target: Vec<u8>,
    pub version: Vec<u8>,
    pub headers: Vec<(Vec<u8>, Vec<u8>)>,
    pub body: Vec<u8>,
}

impl View for Request {
    type V = RequestView;

    open spec fn view(&self) -> RequestView {
        RequestView {
            method: self.method@,
            target: self.target@,
            version: self.version@,
            headers: self.headers@.map_values(|h: (Vec<u8>, Vec<u8>)| (h.0@, h.1@)),
            body: self.body@,
        }
    }
}

impl Request {
    /// The value of the first header whose name is exactly `name`.
    pub fn header(&self, name: &[u8]) -> (r: Option<Vec<u8>>)
        ensures
            match r {
                Some(v) => header_lookup(self@.headers, name@) == Some(v@),
                None => header_lookup(self@.headers, name@) is None,
            },
    {
        let mut i: usize = 0;
        assert(self@.headers.subrange(0, self@.headers.len() as int) =~= self@.headers);
        while i < self.headers.len()
            invariant
                i <= self.headers@.len(),
                header_lookup(self@.headers, name@) == header_lookup(
                    self@.headers.subrange(i as int, self@.headers.len() as int),
                    name@,
                ),
            decreases self.headers@.len() - i,
        {
            let hs = Ghost(self@.headers.subrange(i as int, self@.headers.len() as int));
            assert(hs@.drop_first() =~= self@.headers.subrange(i + 1, self@.headers.len() as int));
            if bytes_eq(self.headers[i].0.as_slice(), name) {
                return Some(copy_range(self.headers[i].1.as_slice(), 0, self.headers[i].1.len()));
            }
            i = i + 1;
        }
        None
    }
}

proof fn lemma_first_unique(s: Seq<u8>, c: u8, i: int)
    requires
        is_first(s, c, i),
    ensures
        before(s, c) == s.subrange(0, i),
        after(s, c) == Some(s.subrange(i + 1, s.len() as int)),
{
    reveal(before);
    reveal(after);
    let k = choose|k: int| is_first(s, c, k);
    assert(is_first(s, c, k));
    if k < i {
        assert(s[k] != c);
    } else if k > i {
        assert(s[i] != c);
    }
}

/// Splits `s` at its first `c`.
pub fn split_first(s: &[u8], c: u8) -> (r: (Vec<u8>, Option<Vec<u8>>))
    ensures
        r.0@ == before(s@, c),
        match r.1 {
            Some(t) => after(s@, c) == Some(t@),
            None => after(s@, c) is None,
        },
{
    let mut i: usize = 0;
    while i < s.len()
        invariant
            i <= s@.len(),
            forall|j: int| 0 <= j < i ==> s@[j] != c,
        decreases s@.len() - i,
    {
        if s[i] == c {
            proof {
                lemma_first_unique(s@, c, i as int);
            }
            return (copy_range(s, 0, i), Some(copy_range(s, i + 1, s.len())));
        }
        i = i + 1;
    }
    assert(!exists|k: int| is_first(s@, c, k));
    proof {
        reveal(before);
        reveal(after);
    }
    (copy_range(s, 0, s.len()), None)
}

/// The offsets of `b` lie within it and never decrease.
pub proof fn lemma_marks_bounds(b: Seq<u8>)
    ensures
        forall|k: int| 0 <= k < marks(b).len() ==> 0 <= #[trigger] marks(b)[k] <= b.len(),
        forall|k: int|
            0 <= k && k + 1 < marks(b).len() ==> #[trigger] marks(b)[k] <= marks(b)[k + 1],
    decreases b.len(),
{
    if b.len() > 0 {
        let p = marks(b.drop_last());
        lemma_marks_bounds(b.drop_last());
        assert forall|k: int| 0 <= k < p.len() implies 0 <= #[trigger] p[k] <= b.len() - 1 by {}
        assert forall|k: int| 0 <= k && k + 1 < p.len() implies #[trigger] p[k] <= p[k + 1] by {}
    }
}

/// Where the first `n` bytes of `b` add an offset, and which.
proof fn lemma_offsets_step(b: Seq<u8>, n: int)
    requires
        0 <= n < b.len(),
    ensures
        offsets(b.subrange(0, n + 1)) == if b[n] == CR {
            offsets(b.subrange(0, n)).push(n)
        } else if b[n] == LF {
            offsets(b.subrange(0, n)).push(n + 1)
        } else {
            offsets(b.subrange(0, n))
        },
{
    reveal(offsets);
    let prev = b.subrange(0, n);
    let next = b.subrange(0, n + 1);
    assert(next.drop_last() =~= prev);
    if b[n] == CR {
        assert(offsets(next) =~= offsets(prev).push(n));
    } else if b[n] == LF {
        assert(offsets(next) =~= offsets(prev).push(n + 1));
    } else {
        assert(offsets(next) =~= offsets(prev));
    }
}

/// The offsets of `b`, with the leading 0, lie within it and never decrease.
pub open spec fn offsets_sane(b: Seq<u8>) -> bool {
    &&& forall|k: int| 0 <= k < offsets(b).len() ==> 0 <= #[trigger] offsets(b)[k] <= b.len()
    &&& forall|k: int|
        0 <= k && k + 1 < offsets(b).len() ==> #[trigger] offsets(b)[k] <= offsets(b)[k + 1]
}

proof fn lemma_offsets_bounds(b: Seq<u8>)
    ensures
        offsets_sane(b),
{
    reveal(offsets);
    lemma_marks_bounds(b);
    assert forall|k: int| 0 <= k && k + 1 < offsets(b).len() implies #[trigger] offsets(b)[k]
        <= offsets(b)[k + 1] by {
        if k > 0 {
            assert(offsets(b)[k] == marks(b)[k - 1]);
        }
    }
}

proof fn lemma_header_end_ge(b: Seq<u8>, k: int)
    ensures
        header_end_from(b, k) >= k,
    decreases line_count(b) - k,
{
    if !(k >= line_count(b) || line_at(b, k).len() == 0) {
        lemma_header_end_ge(b, k + 1);
    }
}

/// The line-boundary offsets of `b`, as `offsets` gives them.
fn line_offsets(b: &[u8]) -> (r: Vec<usize>)
    ensures
        r@.len() == offsets(b@).len(),
        forall|k: int| 0 <= k < r@.len() ==> r@[k] as int == #[trigger] offsets(b@)[k],
{
    let mut r: Vec<usize> = Vec::new();
    r.push(0);
    let mut i: usize = 0;
    assert(offsets(b@.subrange(0, 0)) =~= seq![0int]) by {
        reveal(offsets);
    }
    while i < b.len()
        invariant
            i <= b@.len(),
            r@.len() == offsets(b@.subrange(0, i as int)).len(),
            forall|k: int|
                0 <= k < r@.len() ==> r@[k] as int == #[trigger] offsets(
                    b@.subrange(0, i as int),
                )[k],
        decreases b@.len() - i,
    {
        proof {
            lemma_offsets_step(b@, i as int);
        }
        if b[i] == CR {
            r.push(i);
        } else if b[i] == LF {
            r.push(i + 1);
        }
        i = i + 1;
    }
    assert(b@.subrange(0, b@.len() as int) =~= b@);
    r
}

/// Splits a header line into its name and value, unless it is malformed.
fn parse_header_line(line: &[u8]) -> (r: Option<(Vec<u8>, Vec<u8>)>)
    ensures
        r is Some <==> header_ok(line@),
        r matches Some(h) ==> (h.0@, h.1@) == header_pair(line@),
{
    let (name, value) = split_first(line, COLON);
    match value {
        None => Some((copy_range(line, 0, line.len()), Vec::new())),
        Some(v) => {
            if v.len() == 0 || v[0] != SP {
                return None;
            }
            let t = copy_range(v.as_slice(), 1, v.len());
            assert(t@ =~= v@.drop_first());
            Some((name, t))
        },
    }
}

/// Parses the header lines that follow the request line.
fn parse_headers(bytes: &[u8], offs: &Vec<usize>) -> (r: Result<Vec<(Vec<u8>, Vec<u8>)>, ParseError>)
    requires
        offs@.len() == offsets(bytes@).len(),
        forall|j: int| 0 <= j < offs@.len() ==> offs@[j] as int == #[trigger] offsets(bytes@)[j],
        offsets_sane(bytes@),
    ensures
        match r {
            Ok(hs) => {
                &&& forall|k: int| 1 <= k < header_end(bytes@) ==> header_ok(#[trigger] line_at(bytes@, k))
                &&& hs@.len() == header_end(bytes@) - 1
                &&& forall|j: int| 0 <= j < hs@.len() ==> (#[trigger] hs@[j].0@, hs@[j].1@) == header_pair(
                    line_at(bytes@, j + 1))
            },
            Err(e) => e == ParseError::MalformedHeader && exists|k: int|
                1 <= k < header_end(bytes@) && !header_ok(#[trigger] line_at(bytes@, k)),
        },
{
    let nl: usize = offs.len() / 2;
    let mut headers: Vec<(Vec<u8>, Vec<u8>)> = Vec::new();
    let mut k: usize = 1;
    let mut at: usize = 2;
    while k < nl && offs[at] < offs[at + 1]
        invariant
            1 <= k <= nl || (k == 1 && nl == 0),
            at == 2 * k,
            2 * nl <= offs@.len() <= usize::MAX,
            nl == line_count(bytes@),
            nl == offs@.len() / 2,
            offs@.len() == offsets(bytes@).len(),
            forall|j: int| 0 <= j < offs@.len() ==> offs@[j] as int == #[trigger] offsets(bytes@)[j],
            offsets_sane(bytes@),
            header_end(bytes@) == header_end_from(bytes@, k as int),
            headers@.len() == k - 1,
            forall|j: int| 1 <= j < k ==> header_ok(#[trigger] line_at(bytes@, j)),
            forall|j: int|
                0 <= j < k - 1 ==> (#[trigger] headers@[j].0@, headers@[j].1@) == header_pair(
                    line_at(bytes@, j + 1),
                ),
        decreases nl - k,
    {
        assert(offsets(bytes@)[2 * k] <= offsets(bytes@)[2 * k + 1]);
        let hl = copy_range(bytes, offs[at], offs[at + 1]);
        assert(hl@ == line_at(bytes@, k as int));
        proof {
            lemma_header_end_ge(bytes@, k + 1);
        }
        match parse_header_line(hl.as_slice()) {
            None => {
                return Err(ParseError::MalformedHeader);
            },
            Some(h) => {
                headers.push(h);
            },
        }
        k = k + 1;
        at = at + 2;
    }
    if k < nl {
        assert(line_at(bytes@, k as int).len() == 0);
    }
    Ok(headers)
}

/// Splits a request line into method, target and version.
fn parse_request_line(line: &[u8]) -> (r: Option<(Vec<u8>, Vec<u8>, Vec<u8>)>)
    ensures
        r is Some <==> request_line_ok(line@),
        r matches Some(p) ==> {
            let rest = after(line@, SP)->Some_0;
            &&& p.0@ == before(line@, SP)
            &&& p.1@ == before(rest, SP)
            &&& p.2@ == match after(rest, SP) {
                None => seq![],
                Some(t) => before(t, SP),
            }
        },
{
    let (method, rest) = split_first(line, SP);
    let rest = match rest {
        Some(t) => t,
        None => {
            return None;
        },
    };
    let (target, tail) = split_first(rest.as_slice(), SP);
    let version = match tail {
        Some(t) => split_first(t.as_slice(), SP).0,
        None => Vec::new(),
    };
    Some((method, target, version))
}

/// Parses the bytes of one request as the module documentation describes.
pub fn parse_request(bytes: &[u8]) -> (r: Result<Request, ParseError>)
    ensures
        match r {
            Ok(req) => parse_spec(bytes@) == Ok::<RequestView, ParseError>(req@),
            Err(e) => parse_spec(bytes@) == Err::<RequestView, ParseError>(e),
        },
{
    let offs = line_offsets(bytes);
    proof {
        lemma_offsets_bounds(bytes@);
    }
    if offs.len() / 2 < 1 {
        return Err(ParseError::MalformedRequest);
    }
    let line = copy_range(bytes, offs[0], offs[1]);
    let (method, target, version) = match parse_request_line(line.as_slice()) {
        Some(p) => p,
        None => {
            return Err(ParseError::MalformedRequest);
        },
    };
    let headers = match parse_headers(bytes, &offs) {
        Ok(hs) => hs,
        Err(e) => {
            return Err(e);
        },
    };
    let body = if offs.len() % 2 == 1 {
        let last = offs[offs.len() - 1];
        copy_range(bytes, last, bytes.len())
    } else {
        Vec::new()
    };
    let req = Request { method, target, version, headers, body };
    proof {
        let spec_req = parse_spec(bytes@)->Ok_0;
        assert(req@.headers =~= spec_req.headers);
    }
    Ok(req)
}

/// Holds no carriage return and no line feed.
pub open spec fn is_plain(s: Seq<u8>) -> bool {
    forall|i: int| 0 <= i < s.len() ==> s[i] != CR && s[i] != LF
}

/// Holds no `c`.
pub open spec fn lacks(s: Seq<u8>, c: u8) -> bool {
    forall|i: int| 0 <= i < s.len() ==> s[i] != c
}

/// The lines `ls`, each ended by a carriage return and a line feed.
pub open spec fn frame(ls: Seq<Seq<u8>>) -> Seq<u8>
    decreases ls.len(),
{
    if ls.len() == 0 {
        seq![]
    } else {
        frame(ls.drop_last()) + ls.last() + seq![CR, LF]
    }
}

/// The lines of a request with method `m`, target `t`, version `v` and the
/// headers `hs`: the request line, one `name: value` line per header, and
/// the empty line that ends the head.
pub open spec fn request_lines(
    m: Seq<u8>,
    t: Seq<u8>,
    v: Seq<u8>,
    hs: Seq<(Seq<u8>, Seq<u8>)>,
) -> Seq<Seq<u8>> {
    seq![m + seq![SP] + t + seq![SP] + v] + hs.map_values(
        |h: (Seq<u8>, Seq<u8>)| h.0 + seq![COLON, SP] + h.1,
    ) + seq![Seq::<u8>::empty()]
}

/// A plain sequence adds no offsets.
proof fn lemma_marks_plain(s: Seq<u8>)
    requires
        is_plain(s),
    ensures
        marks(s) == Seq::<int>::empty(),
    decreases s.len(),
{
    if s.len() > 0 {
        lemma_marks_plain(s.drop_last());
    }
}

/// The offsets of `a + b` are those of `a`, then those of `b` moved by `a`'s length.
proof fn lemma_marks_concat(a: Seq<u8>, b: Seq<u8>)
    ensures
        marks(a + b) == marks(a) + marks(b).map_values(|x: int| x + a.len()),
    decreases b.len(),
{
    if b.len() == 0 {
        assert(a + b =~= a);
        assert(marks(b).map_values(|x: int| x + a.len()) =~= Seq::<int>::empty());
        assert(marks(a) + Seq::<int>::empty() =~= marks(a));
    } else {
        lemma_marks_concat(a, b.drop_last());
        assert((a + b).drop_last() =~= a + b.drop_last());
    }
}

/// One plain line `l` ended by CRLF adds the offsets `|l|` and `|l| + 2`.
proof fn lemma_marks_line(l: Seq<u8>)
    requires
        is_plain(l),
    ensures
        marks(l + seq![CR, LF]) == seq![l.len() as int, l.len() + 2int],
{
    lemma_marks_plain(l);
    lemma_marks_concat(l, seq![CR, LF]);
    assert(seq![CR, LF].drop_last() =~= seq![CR]);
    assert(seq![CR].drop_last() =~= Seq::<u8>::empty());
    let one = seq![CR];
    assert(one.last() == CR);
    assert(marks(one) == marks(one.drop_last()).push(0));
    assert(marks(one) =~= seq![0int]);
    let two = seq![CR, LF];
    assert(two.last() == LF);
    assert(marks(two) == marks(two.drop_last()).push(2));
    assert(marks(seq![CR, LF]) =~= seq![0int, 2]);
    assert(marks(l + seq![CR, LF]) =~= seq![l.len() as int, l.len() + 2int]);
}

/// Framed plain lines come back, one by one, as the lines of the bytes,
/// and leave no body.
proof fn lemma_frame_lines(ls: Seq<Seq<u8>>)
    requires
        forall|k: int| 0 <= k < ls.len() ==> is_plain(#[trigger] ls[k]),
    ensures
        offsets(frame(ls)).len() == 2 * ls.len() + 1,
        offsets(frame(ls)).last() == frame(ls).len(),
        line_count(frame(ls)) == ls.len(),
        forall|k: int| 0 <= k < ls.len() ==> #[trigger] line_at(frame(ls), k) == ls[k],
    decreases ls.len(),
{
    reveal(offsets);
    if ls.len() > 0 {
        let prev = ls.drop_last();
        let l = ls.last();
        let b = frame(prev);
        let f: int = b.len() as int;
        lemma_frame_lines(prev);
        lemma_offsets_bounds(b);
        lemma_marks_line(l);
        assert(frame(ls) =~= b + (l + seq![CR, LF]));
        lemma_marks_concat(b, l + seq![CR, LF]);
        let ob = offsets(b);
        assert(offsets(frame(ls)) =~= ob + seq![f + l.len() as int, f + l.len() + 2int]);
        assert forall|k: int| 0 <= k < ls.len() implies #[trigger] line_at(frame(ls), k) == ls[k] by {
            if k < prev.len() {
                assert(line_at(b, k) == prev[k]);
                assert(ob[2 * k] <= ob[2 * k + 1] <= f);
                assert(line_at(frame(ls), k) =~= line_at(b, k));
            } else {
                assert(ob[2 * k] == f);
                assert(line_at(frame(ls), k) =~= l);
            }
        }
    } else {
        assert(offsets(frame(ls)) =~= seq![0int]);
    }
}

proof fn lemma_lacks(s: Seq<u8>, c: u8)
    requires
        lacks(s, c),
    ensures
        before(s, c) == s,
        after(s, c) is None,
{
    reveal(before);
    reveal(after);
}

proof fn lemma_header_end_at(b: Seq<u8>, n: int, k: int)
    requires
        1 <= k <= n < line_count(b),
        line_at(b, n).len() == 0,
        forall|j: int| 1 <= j < n ==> #[trigger] line_at(b, j).len() > 0,
    ensures
        header_end_from(b, k) == n,
    decreases n - k,
{
    if k < n {
        lemma_header_end_at(b, n, k + 1);
    }
}

/// Plain bytes after framed lines add no line: the lines stay, and the
/// bytes become the body.
proof fn lemma_frame_then_body(ls: Seq<Seq<u8>>, bd: Seq<u8>)
    requires
        forall|k: int| 0 <= k < ls.len() ==> is_plain(#[trigger] ls[k]),
        is_plain(bd),
    ensures
        line_count(frame(ls) + bd) == ls.len(),
        forall|k: int| 0 <= k < ls.len() ==> #[trigger] line_at(frame(ls) + bd, k) == ls[k],
        body_of(frame(ls) + bd) == bd,
{
    let f = frame(ls);
    let b = f + bd;
    lemma_frame_lines(ls);
    lemma_offsets_bounds(f);
    lemma_marks_plain(bd);
    lemma_marks_concat(f, bd);
    assert(marks(bd).map_values(|x: int| x + f.len()) =~= Seq::<int>::empty());
    assert(offsets(b) == offsets(f)) by {
        reveal(offsets);
        assert(marks(b) =~= marks(f));
    }
    assert forall|k: int| 0 <= k < ls.len() implies #[trigger] line_at(b, k) == ls[k] by {
        assert(offsets(f)[2 * k] <= offsets(f)[2 * k + 1] <= f.len());
        assert(line_at(b, k) =~= line_at(f, k));
    }
    assert(b.subrange(f.len() as int, b.len() as int) =~= bd);
}

/// A request line `<m> <t> <v>`, header lines `<name>: <value>` and an
/// empty line, each ended by CRLF, then a body `bd`, parse back to exactly
/// `m`, `t`, `v`, the headers and `bd`, provided no part holds a line
/// break, method, target and version hold no space, and names hold no colon.
pub proof fn lemma_parse_framed_request(
    m: Seq<u8>,
    t: Seq<u8>,
    v: Seq<u8>,
    hs: Seq<(Seq<u8>, Seq<u8>)>,
    bd: Seq<u8>,
)
    requires
        is_plain(bd),
        is_plain(m) && lacks(m, SP),
        is_plain(t) && lacks(t, SP),
        is_plain(v) && lacks(v, SP),
        forall|i: int|
            0 <= i < hs.len() ==> is_plain(#[trigger] hs[i].0) && lacks(hs[i].0, COLON) && is_plain(
                hs[i].1,
            ),
    ensures
        parse_spec(frame(request_lines(m, t, v, hs)) + bd) == Ok::<RequestView, ParseError>(
            RequestView { method: m, target: t, version: v, headers: hs, body: bd },
        ),
{
    let ls = request_lines(m, t, v, hs);
    let b = frame(ls) + bd;
    let n: int = hs.len() + 1int;
    assert(ls.len() == n + 1);
    assert forall|k: int| 0 <= k < ls.len() implies is_plain(#[trigger] ls[k]) by {
        if k == 0 {
            assert(ls[0] == m + seq![SP] + t + seq![SP] + v);
        } else if k < n {
            assert(ls[k] == hs[k - 1].0 + seq![COLON, SP] + hs[k - 1].1);
        }
    }
    lemma_frame_then_body(ls, bd);
    assert(line_at(b, 0) == ls[0]);
    // the request line
    let line = ls[0];
    assert(line == m + seq![SP] + t + seq![SP] + v);
    assert(is_first(line, SP, m.len() as int));
    lemma_first_unique(line, SP, m.len() as int);
    let rest = line.subrange(m.len() + 1int, line.len() as int);
    assert(rest =~= t + seq![SP] + v);
    assert(is_first(rest, SP, t.len() as int));
    lemma_first_unique(rest, SP, t.len() as int);
    assert(line.subrange(0, m.len() as int) =~= m);
    assert(rest.subrange(0, t.len() as int) =~= t);
    assert(rest.subrange(t.len() + 1int, rest.len() as int) =~= v);
    lemma_lacks(v, SP);
    // the header lines
    assert forall|j: int| 1 <= j < n implies #[trigger] line_at(b, j).len() > 0 by {
        assert(ls[j] == hs[j - 1].0 + seq![COLON, SP] + hs[j - 1].1);
    }
    assert(line_at(b, n) == ls[n]);
    lemma_header_end_at(b, n, 1);
    assert forall|j: int| 1 <= j < n implies header_ok(#[trigger] line_at(b, j)) && header_pair(
        line_at(b, j),
    ) == hs[j - 1] by {
        let h = hs[j - 1];
        let hl = ls[j];
        assert(hl == h.0 + seq![COLON, SP] + h.1);
        assert(is_first(hl, COLON, h.0.len() as int));
        lemma_first_unique(hl, COLON, h.0.len() as int);
        assert(hl.subrange(0, h.0.len() as int) =~= h.0);
        assert(hl.subrange(h.0.len() + 1int, hl.len() as int) =~= seq![SP] + h.1);
        assert((seq![SP] + h.1).drop_first() =~= h.1);
    }
    let got = parse_spec(b)->Ok_0;
    assert(got.headers =~= hs);
}

} // verus!
