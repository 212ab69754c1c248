//! Directory listings: an HTML page with a link to the parent directory and
//! one link per entry.

use vstd::prelude::*;
use vstd::string::StringSliceAdditionalSpecFns;
use crate::bytes::{append_bytes, text, SLASH};
use crate::codec::{encode_binary, percent_encode};
use crate::resolve::DOT;
use crate::response::{decimal, decimal_of, lemma_header_names, well_formed, Response, ResponseView};

verus! {

/// The start of every listing page.
pub const HTML_HEAD: &'static str = "<!DOCTYPE html>\n<html>\n<head><meta charset=\"utf-8\"><title>Index</title></head>\n<body>\n";

/// The end of every listing page.
pub const HTML_FOOT: &'static str = "</body>\n</html>\n";

/// `<a href="<encoded path>"><text></a><br>`.
pub open spec fn link_of(path: Seq<u8>, label: Seq<u8>) -> Seq<u8> {
    "<a href=\"".spec_bytes() + percent_encode(path) + "\">".spec_bytes() + label + "</a><br>".spec_bytes()
}

/// The path that a listing of `dir` links for its entry `name`: `./<dir>/<name>`.
pub open spec fn entry_path(dir: Seq<u8>, name: Seq<u8>) -> Seq<u8> {
    seq![DOT, SLASH] + dir + seq![SLASH] + name
}

/// The links of a listing of `dir`: first the parent, then one per entry.
pub open spec fn listing_links(dir: Seq<u8>, entries: Seq<Seq<u8>>) -> Seq<Seq<u8>> {
    Seq::new(
        entries.len() + 1,
        |i: int|
            if i == 0 {
                link_of("..".spec_bytes(), "..".spec_bytes())
            } else {
                link_of(entry_path(dir, entries[i - 1]), entries[i - 1])
            },
    )
}

/// The pieces of `s`, one after another.
pub open spec fn concat(s: Seq<Seq<u8>>) -> Seq<u8>
    decreases s.len(),
{
    if s.len() == 0 {
        seq![]
    } else {
        concat(s.drop_last()) + s.last()
    }
}

/// The page listing `entries` of the directory `dir`.
pub open spec fn listing_page(dir: Seq<u8>, entries: Seq<Seq<u8>>) -> Seq<u8> {
    HTML_HEAD.spec_bytes() + concat(listing_links(dir, entries)) + HTML_FOOT.spec_bytes()
}

/// A link to `path`, percent-encoded, shown as `label`.
pub fn link(path: &[u8], label: &[u8]) -> (r: Vec<u8>)
    ensures
        r@ == link_of(path@, label@),
{
    let mut r = text("<a href=\"");
    let encoded = encode_binary(path);
    append_bytes(&mut r, encoded.as_slice());
    append_bytes(&mut r, "\">".as_bytes());
    append_bytes(&mut r, label);
    append_bytes(&mut r, "</a><br>".as_bytes());
    r
}

/// The listing page of the directory `dir` (a path relative to the serving
/// root) whose entries are named `entries`, in the order given.
pub fn listing(dir: &[u8], entries: &Vec<Vec<u8>>) -> (r: Vec<u8>)
    ensures
        r@ == listing_page(dir@, entries@.map_values(|e: Vec<u8>| e@)),
{
    let ghost names = entries@.map_values(|e: Vec<u8>| e@);
    let ghost links = listing_links(dir@, names);
    let mut body = text(HTML_HEAD);
    let ghost head = body@;
    let parent = link("..".as_bytes(), "..".as_bytes());
    append_bytes(&mut body, parent.as_slice());
    assert(links.subrange(0, 1).drop_last() =~= Seq::<Seq<u8>>::empty());
    assert(concat(Seq::<Seq<u8>>::empty()) == Seq::<u8>::empty());
    assert(links[0] == parent@);
    assert(concat(links.subrange(0, 1)) =~= parent@);
    assert(body@ == head + concat(links.subrange(0, 1)));
    let mut i: usize = 0;
    while i < entries.len()
        invariant
            i <= entries@.len(),
            names == entries@.map_values(|e: Vec<u8>| e@),
            links == listing_links(dir@, names),
            body@ == head + concat(links.subrange(0, i + 1)),
        decreases entries@.len() - i,
    {
        let mut path: Vec<u8> = Vec::new();
        path.push(DOT);
        path.push(SLASH);
        append_bytes(&mut path, dir);
        path.push(SLASH);
        append_bytes(&mut path, entries[i].as_slice());
        assert(path@ =~= entry_path(dir@, names[i as int]));
        let l = link(path.as_slice(), entries[i].as_slice());
        append_bytes(&mut body, l.as_slice());
        assert(links.subrange(0, i + 2).drop_last() =~= links.subrange(0, i + 1));
        i = i + 1;
    }
    assert(links.subrange(0, entries@.len() + 1int) =~= links);
    append_bytes(&mut body, HTML_FOOT.as_bytes());
    body
}

/// `200 OK` with the listing page of `dir` as an HTML body.
pub fn serve_directory(dir: &[u8], entries: &Vec<Vec<u8>>) -> (r: Response)
    ensures
        r@.code == 200,
        r@.message == "OK".spec_bytes(),
        r@.body == listing_page(dir@, entries@.map_values(|e: Vec<u8>| e@)),
        r@.headers == seq![
            ("Content-Type".spec_bytes(), "text/html".spec_bytes()),
            ("Content-Length".spec_bytes(), decimal_of(r@.body.len())),
        ],
        well_formed(r@),
{
    let body = listing(dir, entries);
    let mut headers: Vec<(Vec<u8>, Vec<u8>)> = Vec::new();
    headers.push((text("Content-Type"), text("text/html")));
    headers.push((text("Content-Length"), decimal(body.len())));
    let r = Response { code: 200, message: text("OK"), headers, body };
    proof {
        lemma_header_names();
        assert(r@.headers =~= seq![
            ("Content-Type".spec_bytes(), "text/html".spec_bytes()),
            ("Content-Length".spec_bytes(), decimal_of(r@.body.len())),
        ]);
        assert(r@.headers[1] == ("Content-Length".spec_bytes(), decimal_of(r@.body.len())));
    }
    r
}

} // verus!
