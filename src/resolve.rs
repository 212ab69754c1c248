//! The resource resolver: what a request asks to be served, and the
//! responses for a file once its contents have been read.

use vstd::prelude::*;
use vstd::string::StringSliceAdditionalSpecFns;
use crate::bytes::{append_bytes, bytes_eq, copy_range, text, SLASH};
use crate::codec::{decode_binary, percent_decode};
use crate::content::{file_body, gzip_header, gzip_of, wants_gzip, GZIP_OS};
use crate::request::{Request, RequestView};
use crate::response::{lemma_header_names, decimal, decimal_of, well_formed, Response, ResponseView};

verus! {

pub const DOT: u8 = 46;

pub const QUOTE: u8 = 34;

/// What the server was told to serve.
pub struct ServerConfig {
    /// The one file served for every request, or `None` to serve the
    /// working directory with listings.
    pub single_file: Option<Vec<u8>>,
    /// Whether bodies are gzip-compressed for clients that accept it.
    pub compression: bool,
}

/// What a request resolves to before the file system is consulted.
pub enum Route {
    /// The method is not `GET`.
    MethodNotAllowed,
    /// Serve the configured single file.
    SingleFile(Vec<u8>),
    /// Look up this path, relative to the serving root.
    Lookup(Vec<u8>),
}

pub enum RouteView {
    MethodNotAllowed,
    SingleFile(Seq<u8>),
    Lookup(Seq<u8>),
}

impl View for Route {
    type V = RouteView;

    open spec fn view(&self) -> RouteView {
        match self {
            Route::MethodNotAllowed => RouteView::MethodNotAllowed,
            Route::SingleFile(p) => RouteView::SingleFile(p@),
            Route::Lookup(p) => RouteView::Lookup(p@),
        }
    }
}

/// `p` without one leading `/`.
pub open spec fn strip_slash(p: Seq<u8>) -> Seq<u8> {
    if p.len() > 0 && p[0] == SLASH {
        p.drop_first()
    } else {
        p
    }
}

/// The relative path that `target` names: percent-decoded, without its
/// leading `/`, and `.` when nothing is left.
pub open spec fn target_path_of(target: Seq<u8>) -> Seq<u8> {
    let p = strip_slash(percent_decode(target));
    if p.len() == 0 {
        seq![DOT]
    } else {
        p
    }
}

/// Where `req` is routed when the server is configured with `single`.
pub open spec fn route_of(req: RequestView, single: Option<Seq<u8>>) -> RouteView {
    if req.method != "GET".spec_bytes() {
        RouteView::MethodNotAllowed
    } else {
        match single {
            Some(f) => RouteView::SingleFile(f),
            None => RouteView::Lookup(target_path_of(req.target)),
        }
    }
}

/// The relative path that `target` names.
pub fn target_path(target: &[u8]) -> (r: Vec<u8>)
    ensures
        r@ == target_path_of(target@),
{
    let decoded = decode_binary(target);
    let p = if decoded.len() > 0 && decoded[0] == SLASH {
        let t = copy_range(decoded.as_slice(), 1, decoded.len());
        assert(t@ =~= decoded@.drop_first());
        t
    } else {
        decoded
    };
    if p.len() == 0 {
        let mut d: Vec<u8> = Vec::new();
        d.push(DOT);
        assert(d@ =~= seq![DOT]);
        d
    } else {
        p
    }
}

/// Routes a request: anything but `GET` is refused; in single-file mode
/// every target names the configured file; else the target names a path.
pub fn route(request: &Request, config: &ServerConfig) -> (r: Route)
    ensures
        r@ == route_of(request@, match config.single_file {
            Some(f) => Some(f@),
            None => None,
        }),
{
    if !bytes_eq(request.method.as_slice(), "GET".as_bytes()) {
        return Route::MethodNotAllowed;
    }
    match &config.single_file {
        Some(f) => {
            let p = copy_range(f.as_slice(), 0, f.len());
            assert(p@ =~= f@);
            Route::SingleFile(p)
        },
        None => Route::Lookup(target_path(request.target.as_slice())),
    }
}

/// In single-file mode a `GET` is routed to the configured file whatever
/// its target, so any two such requests go to the same file.
pub proof fn lemma_single_file_ignores_target(a: RequestView, b: RequestView, file: Seq<u8>)
    requires
        a.method == "GET".spec_bytes(),
        b.method == "GET".spec_bytes(),
    ensures
        route_of(a, Some(file)) == RouteView::SingleFile(file),
        route_of(a, Some(file)) == route_of(b, Some(file)),
{
}

/// The position of the last `c` in `s`, or -1.
pub open spec fn last_pos(s: Seq<u8>, c: u8) -> int
    decreases s.len(),
{
    if s.len() == 0 {
        -1
    } else if s.last() == c {
        s.len() - 1
    } else {
        last_pos(s.drop_last(), c)
    }
}

proof fn lemma_last_pos_bounds(s: Seq<u8>, c: u8)
    ensures
        -1 <= last_pos(s, c) < s.len(),
        last_pos(s, c) >= 0 ==> s[last_pos(s, c)] == c,
    decreases s.len(),
{
    if s.len() > 0 && s.last() != c {
        lemma_last_pos_bounds(s.drop_last(), c);
    }
}

/// The position of the last `c` in `s`.
fn find_last(s: &[u8], c: u8) -> (r: Option<usize>)
    ensures
        match r {
            Some(i) => i as int == last_pos(s@, c),
            None => last_pos(s@, c) == -1,
        },
{
    let mut i: usize = s.len();
    assert(s@.subrange(0, i as int) =~= s@);
    while i > 0
        invariant
            i <= s@.len(),
            last_pos(s@, c) == last_pos(s@.subrange(0, i as int), c),
        decreases i,
    {
        if s[i - 1] == c {
            return Some(i - 1);
        }
        assert(s@.subrange(0, i as int).drop_last() =~= s@.subrange(0, i - 1));
        i = i - 1;
    }
    None
}

/// The last component of `p`: what follows its last `/`.
pub open spec fn base_name_of(p: Seq<u8>) -> Seq<u8> {
    p.subrange(last_pos(p, SLASH) + 1, p.len() as int)
}

/// The extension of the last component of `p`: what follows its last dot,
/// when that dot is not the component's first byte.
pub open spec fn extension_of(p: Seq<u8>) -> Option<Seq<u8>> {
    let n = base_name_of(p);
    let d = last_pos(n, DOT);
    if d <= 0 {
        None
    } else {
        Some(n.subrange(d + 1, n.len() as int))
    }
}

/// The content type for a file with extension `ext`.
pub open spec fn content_type_of(ext: Option<Seq<u8>>) -> Seq<u8> {
    match ext {
        Some(e) => if e == "html".spec_bytes() {
            "text/html".spec_bytes()
        } else if e == "css".spec_bytes() {
            "text/css".spec_bytes()
        } else if e == "js".spec_bytes() {
            "text/javascript".spec_bytes()
        } else if e == "wasm".spec_bytes() {
            "application/wasm".spec_bytes()
        } else {
            "application/octet-stream".spec_bytes()
        },
        None => "application/octet-stream".spec_bytes(),
    }
}

/// The last component of `path`.
pub fn base_name(path: &[u8]) -> (r: Vec<u8>)
    ensures
        r@ == base_name_of(path@),
{
    proof {
        lemma_last_pos_bounds(path@, SLASH);
    }
    match find_last(path, SLASH) {
        Some(i) => {
            let n = path.len();
            assert(i < n);
            copy_range(path, i + 1, n)
        },
        None => copy_range(path, 0, path.len()),
    }
}

/// The extension of the last component of `path`, if it has one.
pub fn extension(path: &[u8]) -> (r: Option<Vec<u8>>)
    ensures
        match r {
            Some(e) => extension_of(path@) == Some(e@),
            None => extension_of(path@) is None,
        },
{
    let name = base_name(path);
    proof {
        lemma_last_pos_bounds(name@, DOT);
    }
    match find_last(name.as_slice(), DOT) {
        Some(d) => {
            if d == 0 {
                None
            } else {
                Some(copy_range(name.as_slice(), d + 1, name.len()))
            }
        },
        None => None,
    }
}

/// The content type for the file at `path`, from its extension.
pub fn content_type(path: &[u8]) -> (r: Vec<u8>)
    ensures
        r@ == content_type_of(extension_of(path@)),
{
    match extension(path) {
        Some(e) => {
            if bytes_eq(e.as_slice(), "html".as_bytes()) {
                text("text/html")
            } else if bytes_eq(e.as_slice(), "css".as_bytes()) {
                text("text/css")
            } else if bytes_eq(e.as_slice(), "js".as_bytes()) {
                text("text/javascript")
            } else if bytes_eq(e.as_slice(), "wasm".as_bytes()) {
                text("application/wasm")
            } else {
                text("application/octet-stream")
            }
        },
        None => text("application/octet-stream"),
    }
}

/// The headers of a `200 OK` for a body of `len` bytes with content type `ct`,
/// with `Content-Encoding: gzip` when `gz`.
pub open spec fn file_headers(ct: Seq<u8>, len: nat, gz: bool) -> Seq<(Seq<u8>, Seq<u8>)> {
    let base = seq![
        ("Content-Type".spec_bytes(), ct),
        ("Content-Length".spec_bytes(), decimal_of(len)),
    ];
    if gz {
        base.push(("Content-Encoding".spec_bytes(), "gzip".spec_bytes()))
    } else {
        base
    }
}

/// `attachment; filename="<name>"`.
pub open spec fn disposition_of(name: Seq<u8>) -> Seq<u8> {
    "attachment; filename=\"".spec_bytes() + name + seq![QUOTE]
}

/// A `200 OK` for a file whose contents were `data`: where `wants_gzip`
/// holds, the body is the gzip stream of `data` and the headers say so;
/// else the body is `data`. The content type is `ct`, and the length is
/// the body's exact length.
pub open spec fn serves_file(r: ResponseView, ct: Seq<u8>, data: Seq<u8>, req: RequestView, compression: bool) -> bool {
    &&& r.code == 200
    &&& r.message == "OK".spec_bytes()
    &&& well_formed(r)
    &&& if wants_gzip(req, compression) {
        &&& r.body == gzip_of(data, GZIP_OS)
        &&& r.body.len() >= 10 && r.body.subrange(0, 10) == gzip_header(GZIP_OS)
        &&& r.headers == file_headers(ct, r.body.len(), true)
    } else {
        r.body == data && r.headers == file_headers(ct, data.len(), false)
    }
}

/// The response for the configured single file at `path`, read as `data`:
/// a file response of type `application/octet-stream`, with a last header
/// `Content-Disposition: attachment; filename="<last component of path>"`.
pub open spec fn serves_single_file(r: ResponseView, path: Seq<u8>, data: Seq<u8>, req: RequestView, compression: bool) -> bool {
    &&& well_formed(r)
    &&& r.headers.len() > 0
    &&& r.headers.last() == ("Content-Disposition".spec_bytes(), disposition_of(base_name_of(path)))
    &&& serves_file(
        ResponseView { headers: r.headers.drop_last(), ..r },
        "application/octet-stream".spec_bytes(),
        data,
        req,
        compression,
    )
}

/// In single-file mode the response depends on the file and on whether the
/// client takes gzip, never on the target: two requests that agree on
/// compression get the same response.
pub proof fn lemma_single_file_response_ignores_target(
    r1: ResponseView,
    r2: ResponseView,
    path: Seq<u8>,
    data: Seq<u8>,
    req1: RequestView,
    req2: RequestView,
    compression: bool,
)
    requires
        serves_single_file(r1, path, data, req1, compression),
        serves_single_file(r2, path, data, req2, compression),
        wants_gzip(req1, compression) == wants_gzip(req2, compression),
    ensures
        r1 == r2,
{
    assert(r1.headers.drop_last() =~= r2.headers.drop_last());
    assert(r1.headers =~= r1.headers.drop_last().push(r1.headers.last()));
    assert(r2.headers =~= r2.headers.drop_last().push(r2.headers.last()));
}

fn header(name: &str, value: Vec<u8>) -> (r: (Vec<u8>, Vec<u8>))
    ensures
        r.0@ == name.spec_bytes(),
        r.1@ == value@,
{
    (text(name), value)
}

/// A `200 OK` carrying `body`, of content type `ct`, compressed when `gz`.
fn file_response(ct: Vec<u8>, body: Vec<u8>, gz: bool) -> (r: Response)
    ensures
        r@.code == 200,
        r@.message == "OK".spec_bytes(),
        r@.body == body@,
        r@.headers == file_headers(ct@, body@.len(), gz),
        well_formed(r@),
{
    let mut headers: Vec<(Vec<u8>, Vec<u8>)> = Vec::new();
    headers.push(header("Content-Type", ct));
    headers.push(header("Content-Length", decimal(body.len())));
    if gz {
        headers.push(header("Content-Encoding", text("gzip")));
    }
    let r = Response { code: 200, message: text("OK"), headers, body };
    proof {
        lemma_header_names();
        assert(r@.headers =~= file_headers(ct@, body@.len(), gz));
        assert(r@.headers[1] == ("Content-Length".spec_bytes(), decimal_of(r@.body.len())));
        assert(r@.headers[0].0 == "Content-Type".spec_bytes());
    }
    r
}

/// The response for the file at `path`, whose contents were read as `data`,
/// in directory mode: content type from the extension, body compressed as
/// `file_body` decides.
pub fn serve_file(path: &[u8], data: Vec<u8>, request: &Request, compression: bool) -> (r: Response)
    ensures
        serves_file(r@, content_type_of(extension_of(path@)), data@, request@, compression),
{
    let ct = content_type(path);
    let (body, gz) = file_body(data, request, compression);
    file_response(ct, body, gz)
}

/// The response for the configured single file at `path`, whose contents
/// were read as `data`: a download, named by the path's last component.
pub fn serve_single_file(path: &[u8], data: Vec<u8>, request: &Request, compression: bool) -> (r: Response)
    ensures
        serves_single_file(r@, path@, data@, request@, compression),
{
    let (body, gz) = file_body(data, request, compression);
    let mut r = file_response(text("application/octet-stream"), body, gz);
    let mut value = text("attachment; filename=\"");
    let name = base_name(path);
    append_bytes(&mut value, name.as_slice());
    value.push(QUOTE);
    assert(value@ =~= disposition_of(base_name_of(path@)));
    let ghost before = r@.headers;
    r.headers.push(header("Content-Disposition", value));
    proof {
        lemma_header_names();
        assert(r@.headers =~= before.push(("Content-Disposition".spec_bytes(), disposition_of(base_name_of(path@)))));
        assert(r@.headers.drop_last() =~= before);
        assert(r@.headers[0] == before[0]);
        assert(r@.headers[1] == before[1]);
    }
    r
}

} // verus!
