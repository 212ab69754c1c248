//! The content pipeline: whether a body is sent gzip-compressed, and the
//! compression itself through the `flate2` crate.

use vstd::prelude::*;
use vstd::string::StringSliceAdditionalSpecFns;
use crate::request::{header_lookup, Request};

verus! {

pub const COMMA: u8 = 44;

/// The operating-system byte written into every gzip header, so that the
/// same file always compresses to the same bytes.
pub const GZIP_OS: u8 = 3;

/// The bytes `gzip`.
pub open spec fn gzip_token() -> Seq<u8> {
    seq![103u8, 122, 105, 112]
}

/// The two bytes `, ` that separate the entries of an encoding list.
pub open spec fn list_sep() -> Seq<u8> {
    seq![COMMA, 32u8]
}

/// An entry `gzip` starts at `i` of the `, `-separated list `v`.
pub open spec fn gzip_at(v: Seq<u8>, i: int) -> bool {
    &&& 0 <= i && i + 4 <= v.len()
    &&& v.subrange(i, i + 4) == gzip_token()
    &&& i == 0 || (i >= 2 && v.subrange(i - 2, i) == list_sep())
    &&& i + 4 == v.len() || (i + 6 <= v.len() && v.subrange(i + 4, i + 6) == list_sep())
}

/// The `, `-separated list `v` has an entry that is exactly `gzip`.
pub open spec fn lists_gzip(v: Seq<u8>) -> bool {
    exists|i: int| gzip_at(v, i)
}

/// Whether a response to `req` is compressed when compression is `enabled`.
pub open spec fn wants_gzip(req: crate::request::RequestView, enabled: bool) -> bool {
    enabled && match header_lookup(req.headers, "Accept-Encoding".spec_bytes()) {
        Some(v) => lists_gzip(v),
        None => false,
    }
}

/// What gzip at the default level, with no time stamp and the
/// operating-system byte `os`, makes of `data`.
pub uninterp spec fn gzip_of(data: Seq<u8>, os: u8) -> Seq<u8>;

/// The ten-byte gzip header that starts every stream made with the
/// default level, no time stamp, no name and the operating-system byte `os`.
pub open spec fn gzip_header(os: u8) -> Seq<u8> {
    seq![0x1fu8, 0x8b, 8, 0, 0, 0, 0, 0, 0, os]
}

/// Relies on `flate2::GzBuilder` with `operating_system(os)` and
/// `flate2::Compression::default()`, read out through `bufread::GzEncoder`:
/// the bytes are the gzip stream of `data`, which starts with the header
/// that `GzBuilder::into_header` writes. The builder writes no time stamp,
/// so the stream depends on `data` and `os` alone. Reading the encoder over
/// a byte slice does not fail: the slice's reads never fail and deflate
/// fails only on invalid parameters.
#[verifier::external_body]
fn gzip(data: &[u8], os: u8) -> (r: Vec<u8>)
    ensures
        r@ == gzip_of(data@, os),
        r@.len() >= 10,
        r@.subrange(0, 10) == gzip_header(os),
{
    let mut encoder = flate2::GzBuilder::new().operating_system(os).buf_read(
        data,
        flate2::Compression::default(),
    );
    let mut out: Vec<u8> = Vec::new();
    std::io::Read::read_to_end(&mut encoder, &mut out).expect("reading from a slice");
    out
}

/// Whether the `, `-separated list `v` has an entry that is exactly `gzip`.
pub fn accepts_gzip(v: &[u8]) -> (r: bool)
    ensures
        r == lists_gzip(v@),
{
    if v.len() < 4 {
        return false;
    }
    let mut i: usize = 0;
    while i <= v.len() - 4
        invariant
            v@.len() >= 4,
            forall|j: int| 0 <= j < i ==> !gzip_at(v@, j),
        decreases v@.len() - i,
    {
        let word = v[i] == 103 && v[i + 1] == 122 && v[i + 2] == 105 && v[i + 3] == 112;
        let open_ok = i == 0 || (i >= 2 && v[i - 2] == COMMA && v[i - 1] == 32);
        let close_ok = i + 4 == v.len() || (v.len() - i >= 6 && v[i + 4] == COMMA && v[i + 5] == 32);
        assert(word <==> v@.subrange(i as int, i + 4) =~= gzip_token());
        assert(i >= 2 ==> ((v[i - 2] == COMMA && v[i - 1] == 32) <==> v@.subrange(i - 2, i as int) =~= list_sep()));
        assert(i + 6 <= v@.len() ==> ((v[i + 4] == COMMA && v[i + 5] == 32) <==> v@.subrange(i + 4, i + 6) =~= list_sep()));
        if word && open_ok && close_ok {
            assert(gzip_at(v@, i as int));
            return true;
        }
        i = i + 1;
    }
    false
}

/// Whether a response to `request` is compressed when compression is `enabled`.
pub fn should_compress(request: &Request, enabled: bool) -> (r: bool)
    ensures
        r == wants_gzip(request@, enabled),
{
    if !enabled {
        return false;
    }
    match request.header("Accept-Encoding".as_bytes()) {
        Some(v) => accepts_gzip(v.as_slice()),
        None => false,
    }
}

/// The body for a file with contents `data`: its gzip stream when
/// `should_compress` says so, else `data` itself. The flag says whether
/// the body is compressed.
pub fn file_body(data: Vec<u8>, request: &Request, compression: bool) -> (r: (Vec<u8>, bool))
    ensures
        r.1 == wants_gzip(request@, compression),
        r.1 ==> r.0@ == gzip_of(data@, GZIP_OS),
        r.1 ==> r.0@.len() >= 10 && r.0@.subrange(0, 10) == gzip_header(GZIP_OS),
        !r.1 ==> r.0@ == data@,
{
    if should_compress(request, compression) {
        (gzip(data.as_slice(), GZIP_OS), true)
    } else {
        (data, false)
    }
}

} // verus!
