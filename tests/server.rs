use std::io::Read;

use file_server::bytes::bytes_eq;
use file_server::content::{accepts_gzip, file_body};
use file_server::listing::{link, serve_directory, HTML_FOOT, HTML_HEAD};
use file_server::request::{parse_request, ParseError};
use file_server::resolve::{
    base_name, content_type, extension, route, serve_file, serve_single_file, target_path, Route,
    ServerConfig,
};
use file_server::response::{decimal, method_not_allowed, not_found, Response};
use file_server::serve::{respond, Resource};

fn header<'a>(r: &'a Response, name: &str) -> Option<&'a [u8]> {
    r.headers
        .iter()
        .find(|(n, _)| n.as_slice() == name.as_bytes())
        .map(|(_, v)| v.as_slice())
}

fn get(target: &str, extra: &str) -> Vec<u8> {
    format!("GET {} HTTP/1.1\r\nHost: localhost\r\n{}\r\n", target, extra).into_bytes()
}

#[test]
fn parses_request_line_headers_and_body() {
    let raw = b"GET /index.html HTTP/1.1\r\nHost: example\r\nAccept-Encoding: gzip, br\r\n\r\nhello";
    let req = parse_request(raw).unwrap();
    assert_eq!(req.method, b"GET".to_vec());
    assert_eq!(req.target, b"/index.html".to_vec());
    assert_eq!(req.version, b"HTTP/1.1".to_vec());
    assert_eq!(req.headers.len(), 2);
    assert_eq!(req.headers[0], (b"Host".to_vec(), b"example".to_vec()));
    assert_eq!(req.headers[1], (b"Accept-Encoding".to_vec(), b"gzip, br".to_vec()));
    assert_eq!(req.body, b"hello".to_vec());
}

#[test]
fn parser_recovers_every_part_of_a_framed_request() {
    let raw = b"DELETE /a%20b?x=1 HTTP/1.1\r\nX-One: first value\r\nX-Two: \r\n\r\n";
    let req = parse_request(raw).unwrap();
    assert_eq!(req.method, b"DELETE".to_vec());
    assert_eq!(req.target, b"/a%20b?x=1".to_vec());
    assert_eq!(req.headers[0], (b"X-One".to_vec(), b"first value".to_vec()));
    assert_eq!(req.headers[1], (b"X-Two".to_vec(), b"".to_vec()));
    assert!(req.body.is_empty());
}

#[test]
fn header_value_keeps_later_colons() {
    let req = parse_request(b"GET / HTTP/1.1\r\nHost: localhost:6565\r\n\r\n").unwrap();
    assert_eq!(req.header(b"Host"), Some(b"localhost:6565".to_vec()));
}

#[test]
fn first_of_duplicate_headers_wins() {
    let req = parse_request(b"GET / HTTP/1.1\r\nA: one\r\nA: two\r\n\r\n").unwrap();
    assert_eq!(req.header(b"A"), Some(b"one".to_vec()));
    assert_eq!(req.header(b"a"), None);
}

#[test]
fn header_without_colon_has_empty_value() {
    let req = parse_request(b"GET / HTTP/1.1\r\nWeird\r\n\r\n").unwrap();
    assert_eq!(req.headers[0], (b"Weird".to_vec(), Vec::new()));
}

#[test]
fn malformed_requests_are_rejected() {
    assert_eq!(parse_request(b"").err(), Some(ParseError::MalformedRequest));
    assert_eq!(parse_request(b"GET / HTTP/1.1").err(), Some(ParseError::MalformedRequest));
    assert_eq!(parse_request(b"GET\r\n\r\n").err(), Some(ParseError::MalformedRequest));
    assert_eq!(
        parse_request(b"GET / HTTP/1.1\r\nHost:x\r\n\r\n").err(),
        Some(ParseError::MalformedHeader)
    );
}

#[test]
fn missing_version_is_empty() {
    let req = parse_request(b"GET /x\r\n\r\n").unwrap();
    assert_eq!(req.target, b"/x".to_vec());
    assert!(req.version.is_empty());
}

#[test]
fn target_paths_are_decoded_and_stripped() {
    assert_eq!(target_path(b"/a%20b.txt"), b"a b.txt".to_vec());
    assert_eq!(target_path(b"/"), b".".to_vec());
    assert_eq!(target_path(b""), b".".to_vec());
    assert_eq!(target_path(b"/dir/%41%4a%zz"), b"dir/AJ%zz".to_vec());
    assert_eq!(target_path(b"/100%"), b"100%".to_vec());
}

#[test]
fn encoded_link_path_decodes_back() {
    let path = "/my dir/ä&b?.txt";
    let l = link(path.as_bytes(), b"x");
    let text = String::from_utf8(l).unwrap();
    let start = text.find("href=\"").unwrap() + 6;
    let end = text[start..].find('"').unwrap() + start;
    let encoded = &text[start..end];
    assert_eq!(encoded, "%2Fmy%20dir%2F%C3%A4%26b%3F.txt");
    assert_eq!(target_path(encoded.as_bytes()), "my dir/ä&b?.txt".as_bytes().to_vec());
}

#[test]
fn link_has_exact_form() {
    assert_eq!(link(b"./sub/a b", b"a b"), b"<a href=\".%2Fsub%2Fa%20b\">a b</a><br>".to_vec());
    assert_eq!(link(b"..", b".."), b"<a href=\"..\">..</a><br>".to_vec());
}

#[test]
fn content_types_follow_extensions() {
    assert_eq!(content_type(b"site/index.html"), b"text/html".to_vec());
    assert_eq!(content_type(b"style.css"), b"text/css".to_vec());
    assert_eq!(content_type(b"app.js"), b"text/javascript".to_vec());
    assert_eq!(content_type(b"a/b.c/m.wasm"), b"application/wasm".to_vec());
    assert_eq!(content_type(b"notes.txt"), b"application/octet-stream".to_vec());
    assert_eq!(content_type(b"dir.html/README"), b"application/octet-stream".to_vec());
    assert_eq!(content_type(b".html"), b"application/octet-stream".to_vec());
    assert_eq!(extension(b"x/archive.tar.gz"), Some(b"gz".to_vec()));
    assert_eq!(base_name(b"/srv/files/report.pdf"), b"report.pdf".to_vec());
    assert_eq!(base_name(b"report.pdf"), b"report.pdf".to_vec());
}

#[test]
fn gzip_must_be_a_whole_entry() {
    assert!(accepts_gzip(b"gzip"));
    assert!(accepts_gzip(b"deflate, gzip"));
    assert!(accepts_gzip(b"gzip, br"));
    assert!(accepts_gzip(b"br, gzip, deflate"));
    assert!(!accepts_gzip(b"x-gzip"));
    assert!(!accepts_gzip(b"gzip;q=1"));
    assert!(!accepts_gzip(b"deflate,gzip"));
    assert!(!accepts_gzip(b""));
}

#[test]
fn uncompressed_file_has_exact_length() {
    let data: Vec<u8> = (0..1234u32).map(|i| (i % 251) as u8).collect();
    let req = parse_request(&get("/data.bin", "Accept-Encoding: gzip\r\n")).unwrap();
    let r = serve_file(b"data.bin", data.clone(), &req, false);
    assert_eq!(r.code, 200);
    assert_eq!(r.message, b"OK".to_vec());
    assert_eq!(header(&r, "Content-Length"), Some(&b"1234"[..]));
    assert_eq!(header(&r, "Content-Type"), Some(&b"application/octet-stream"[..]));
    assert_eq!(header(&r, "Content-Encoding"), None);
    assert_eq!(r.body.len(), 1234);
    assert_eq!(r.body, data);
}

#[test]
fn compressed_file_decompresses_to_the_same_bytes() {
    let data: Vec<u8> = b"<html>hello hello hello hello</html>".repeat(50);
    let req = parse_request(&get("/index.html", "Accept-Encoding: deflate, gzip\r\n")).unwrap();
    let r = serve_file(b"index.html", data.clone(), &req, true);
    assert_eq!(header(&r, "Content-Encoding"), Some(&b"gzip"[..]));
    assert_eq!(header(&r, "Content-Type"), Some(&b"text/html"[..]));
    let len = r.body.len().to_string();
    assert_eq!(header(&r, "Content-Length"), Some(len.as_bytes()));
    assert_ne!(r.body, data);
    let mut out = Vec::new();
    flate2::read::GzDecoder::new(r.body.as_slice()).read_to_end(&mut out).unwrap();
    assert_eq!(out, data);
}

#[test]
fn compression_needs_both_flag_and_client() {
    let data = b"abcabcabc".to_vec();
    let req = parse_request(&get("/a.txt", "")).unwrap();
    let r = serve_file(b"a.txt", data.clone(), &req, true);
    assert_eq!(r.body, data);
    assert_eq!(header(&r, "Content-Encoding"), None);
}

#[test]
fn directory_listing_links_every_entry_and_parent() {
    let entries = vec![b"a.txt".to_vec(), b"sub dir".to_vec(), b"c.html".to_vec()];
    let r = serve_directory(b"docs", &entries);
    assert_eq!(r.code, 200);
    assert_eq!(header(&r, "Content-Type"), Some(&b"text/html"[..]));
    let len = r.body.len().to_string();
    assert_eq!(header(&r, "Content-Length"), Some(len.as_bytes()));
    let page = String::from_utf8(r.body.clone()).unwrap();
    assert!(page.starts_with(HTML_HEAD));
    assert!(page.ends_with(HTML_FOOT));
    assert_eq!(page.matches("<a href=").count(), entries.len() + 1);
    assert!(page.contains("<a href=\"..\">..</a><br>"));
    assert!(page.contains("<a href=\".%2Fdocs%2Fsub%20dir\">sub dir</a><br>"));
}

#[test]
fn empty_directory_lists_only_parent() {
    let r = serve_directory(b".", &Vec::new());
    let page = String::from_utf8(r.body).unwrap();
    assert_eq!(page, format!("{}<a href=\"..\">..</a><br>{}", HTML_HEAD, HTML_FOOT));
}

#[test]
fn missing_path_is_404() {
    let req = parse_request(&get("/nope", "")).unwrap();
    let config = ServerConfig { single_file: None, compression: false };
    let rt = route(&req, &config);
    let r = respond(rt, Resource::Missing, &req, false);
    assert_eq!(r.code, 404);
    assert_eq!(r.message, b"Not Found".to_vec());
    assert!(r.headers.is_empty());
    assert!(r.body.is_empty());
    assert_eq!(r.to_bytes(), b"HTTP/1.1 404 Not Found\r\n\r\n".to_vec());
    assert_eq!(not_found().to_bytes(), r.to_bytes());
}

#[test]
fn other_methods_are_405() {
    let req = parse_request(b"POST /upload HTTP/1.1\r\n\r\n").unwrap();
    let config = ServerConfig { single_file: None, compression: false };
    let rt = route(&req, &config);
    assert!(matches!(rt, Route::MethodNotAllowed));
    let r = respond(rt, Resource::File(b"x".to_vec()), &req, false);
    assert_eq!(r.code, 405);
    assert_eq!(r.message, b"Method Not Allowed".to_vec());
    assert!(r.body.is_empty());
    assert_eq!(method_not_allowed().to_bytes(), b"HTTP/1.1 405 Method Not Allowed\r\n\r\n".to_vec());
}

#[test]
fn single_file_mode_ignores_target() {
    let config = ServerConfig { single_file: Some(b"/srv/out/report.pdf".to_vec()), compression: false };
    for target in ["/", "/anything", "/x%20y/z.html"] {
        let req = parse_request(&get(target, "")).unwrap();
        match route(&req, &config) {
            Route::SingleFile(p) => assert_eq!(p, b"/srv/out/report.pdf".to_vec()),
            _ => panic!("not routed to the single file"),
        }
    }
    let req = parse_request(&get("/whatever", "")).unwrap();
    let r = serve_single_file(b"/srv/out/report.pdf", b"PDF".to_vec(), &req, false);
    assert_eq!(header(&r, "Content-Disposition"), Some(&b"attachment; filename=\"report.pdf\""[..]));
    assert_eq!(header(&r, "Content-Type"), Some(&b"application/octet-stream"[..]));
    assert_eq!(header(&r, "Content-Length"), Some(&b"3"[..]));
    assert_eq!(r.body, b"PDF".to_vec());
}

#[test]
fn unreadable_file_is_500() {
    let req = parse_request(&get("/f", "")).unwrap();
    let r = respond(Route::Lookup(b"f".to_vec()), Resource::Unreadable, &req, false);
    assert_eq!(r.code, 500);
    assert!(r.body.is_empty());
}

#[test]
fn serialization_is_exact() {
    let req = parse_request(&get("/a.css", "")).unwrap();
    let r = serve_file(b"a.css", b"p{}".to_vec(), &req, false);
    assert_eq!(
        r.to_bytes(),
        b"HTTP/1.1 200 OK\r\nContent-Type: text/css\r\nContent-Length: 3\r\n\r\np{}".to_vec()
    );
}

#[test]
fn decimal_digits() {
    assert_eq!(decimal(0), b"0".to_vec());
    assert_eq!(decimal(7), b"7".to_vec());
    assert_eq!(decimal(1000), b"1000".to_vec());
    assert_eq!(decimal(usize::MAX), usize::MAX.to_string().into_bytes());
    assert!(bytes_eq(b"ab", b"ab"));
    assert!(!bytes_eq(b"ab", b"abc"));
}

#[test]
fn gzip_body_has_fixed_header_and_is_reproducible() {
    let data = b"some file contents, some file contents".to_vec();
    let req = parse_request(&get("/f.txt", "Accept-Encoding: gzip\r\n")).unwrap();
    let (a, gz_a) = file_body(data.clone(), &req, true);
    let (b, gz_b) = file_body(data.clone(), &req, true);
    assert!(gz_a && gz_b);
    assert_eq!(&a[..10], &[0x1f, 0x8b, 8, 0, 0, 0, 0, 0, 0, 3][..]);
    assert_eq!(a, b);
    let (plain, gz) = file_body(data.clone(), &req, false);
    assert!(!gz);
    assert_eq!(plain, data);
}

#[test]
fn single_file_responses_are_identical_across_targets() {
    let data = b"payload payload payload".to_vec();
    let path = b"/srv/out/data.bin";
    let r1 = serve_single_file(path, data.clone(), &parse_request(&get("/", "Accept-Encoding: gzip\r\n")).unwrap(), true);
    let r2 = serve_single_file(path, data.clone(), &parse_request(&get("/other/x.html", "Accept-Encoding: gzip\r\n")).unwrap(), true);
    assert_eq!(r1.to_bytes(), r2.to_bytes());
    assert_eq!(header(&r1, "Content-Encoding"), Some(&b"gzip"[..]));
    let mut out = Vec::new();
    flate2::read::GzDecoder::new(r1.body.as_slice()).read_to_end(&mut out).unwrap();
    assert_eq!(out, data);
}
