//! One request's way from route to response, once the caller has looked at
//! the file system for the route's path.

use vstd::prelude::*;
use vstd::string::StringSliceAdditionalSpecFns;
use crate::listing::{listing_page, serve_directory};
use crate::request::Request;
use crate::resolve::{
    content_type_of, extension_of, serve_file, serve_single_file, serves_file,
    serves_single_file, Route,
};
use crate::response::{well_formed, internal_error, method_not_allowed, not_found, Response, ResponseView};

verus! {

/// What the file system holds at a route's path.
pub enum Resource {
    /// A regular file, with the contents that were read from it.
    File(Vec<u8>),
    /// A directory, with the names of its entries.
    Directory(Vec<Vec<u8>>),
    /// Nothing.
    Missing,
    /// Something that could not be read.
    Unreadable,
}

/// A response with `code`, `message`, no headers and an empty body.
pub open spec fn is_bare(r: ResponseView, code: u16, message: Seq<u8>) -> bool {
    r.code == code && r.message == message && r.headers.len() == 0 && r.body.len() == 0
}

/// The response to `request` on `route`, where `found` is what the path of
/// the route holds (for a refused method it is not looked at).
pub fn respond(route: Route, found: Resource, request: &Request, compression: bool) -> (r: Response)
    ensures
        route is MethodNotAllowed ==> is_bare(r@, 405, "Method Not Allowed".spec_bytes()),
        route matches Route::SingleFile(p) ==> match found {
            Resource::File(data) => serves_single_file(r@, p@, data@, request@, compression),
            _ => is_bare(r@, 500, "Internal Server Error".spec_bytes()),
        },
        route matches Route::Lookup(p) ==> match found {
            Resource::File(data) => serves_file(
                r@,
                content_type_of(extension_of(p@)),
                data@,
                request@,
                compression,
            ),
            Resource::Directory(entries) => {
                &&& r@.code == 200
                &&& r@.message == "OK".spec_bytes()
                &&& well_formed(r@)
                &&& r@.body == listing_page(p@, entries@.map_values(|e: Vec<u8>| e@))
                &&& r@.headers == seq![
                    ("Content-Type".spec_bytes(), "text/html".spec_bytes()),
                    ("Content-Length".spec_bytes(), crate::response::decimal_of(r@.body.len())),
                ]
            },
            Resource::Missing => is_bare(r@, 404, "Not Found".spec_bytes()),
            Resource::Unreadable => is_bare(r@, 500, "Internal Server Error".spec_bytes()),
        },
{
    match route {
        Route::MethodNotAllowed => method_not_allowed(),
        Route::SingleFile(p) => match found {
            Resource::File(data) => serve_single_file(p.as_slice(), data, request, compression),
            _ => internal_error(),
        },
        Route::Lookup(p) => match found {
            Resource::File(data) => serve_file(p.as_slice(), data, request, compression),
            Resource::Directory(entries) => serve_directory(p.as_slice(), &entries),
            Resource::Missing => not_found(),
            Resource::Unreadable => internal_error(),
        },
    }
}

} // verus!
