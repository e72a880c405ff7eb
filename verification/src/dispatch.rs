//! Dispatch: route a parsed request to the API scan, the static-content
//! lookup, the central OPTIONS answer, or a method rejection; pick API
//! handlers by path prefix in registration order, first match first; and
//! turn a static lookup result into a response.

use vstd::prelude::*;
use vstd::string::StringSliceAdditionalSpecFns;

use crate::request::{ReqTypes, Request};
use crate::response::{html_page_bytes, Response};
use crate::text::{
    bytes_of_str, contains_byte, copy_range, extend_bytes, is_prefix_of, pair_views,
    starts_with_slice, str_bytes,
};

verus! {

broadcast use vstd::string::group_string_axioms;

/// The dispatcher's namespace.
pub struct Handlers {}

/// The API scan's namespace.
pub struct Api {}

/// Where a request is routed.
pub enum Route {
    /// Scan the registered API handlers with this remainder of the path.
    ApiScan { remainder: Vec<u8> },
    /// The API root itself is not an endpoint: answer 400 at once.
    ApiReject,
    /// Serve static content.
    StaticContent,
    /// Answer the central OPTIONS response.
    Options,
    /// A method the route does not allow: answer 405.
    MethodNotAllowed,
}

/// The routing rule: OPTIONS is answered centrally whatever the path; a
/// path under `/api` goes to the handler scan with the prefix stripped,
/// except the bare API root, which is rejected; anything else serves static
/// content on GET and is rejected on POST.
pub open spec fn route_spec(method: ReqTypes, endpoint: Seq<u8>, r: Route) -> bool {
    if method == ReqTypes::OPTIONS {
        r == Route::Options
    } else if is_prefix_of(bytes_of_str("/api"@), endpoint) {
        if endpoint.len() == 4 {
            r == Route::ApiReject
        } else {
            r matches Route::ApiScan { remainder } && remainder@ == endpoint.skip(4)
        }
    } else if method == ReqTypes::GET {
        r == Route::StaticContent
    } else {
        r == Route::MethodNotAllowed
    }
}

impl Handlers {
    /// Decide where a request goes. The handler scan itself, and the static
    /// lookup, are the caller's to run.
    pub fn route(req: &Request) -> (r: Route)
        ensures
            route_spec(req.req_type, req.endpoint@, r),
    {
        proof {
            reveal_strlit("/api");
            assert(vstd::utf8::is_ascii_chars("/api"@));
            assert(bytes_of_str("/api"@).len() == 4);
        }
        match req.get_type() {
            ReqTypes::OPTIONS => Route::Options,
            method => {
                if starts_with_slice(req.endpoint.as_slice(), str_bytes("/api")) {
                    if req.endpoint.len() == 4 {
                        Route::ApiReject
                    } else {
                        let remainder = copy_range(
                            req.endpoint.as_slice(),
                            4,
                            req.endpoint.len(),
                        );
                        proof {
                            assert(remainder@ =~= req.endpoint@.skip(4));
                        }
                        Route::ApiScan { remainder }
                    }
                } else if matches!(method, ReqTypes::GET) {
                    Route::StaticContent
                } else {
                    Route::MethodNotAllowed
                }
            },
        }
    }
}

/// The central OPTIONS answer: a 204 with the fixed `Allow` header.
pub fn handle_options(_req: &Request) -> (r: Option<Response>)
    ensures
        r matches Some(res) && res.code == 204 && pair_views(res.headers@) == seq![
            (bytes_of_str("allow"@), bytes_of_str("GET, POST, OPTIONS"@)),
        ] && res.data@ == Seq::<u8>::empty() && res.wf(),
{
    let mut res = Response::new(204, "No Content");
    res.add_header("allow", "GET, POST, OPTIONS");
    proof {
        reveal_strlit("allow");
        reveal_strlit("GET, POST, OPTIONS");
        assert(vstd::utf8::is_ascii_chars("allow"@));
        assert(vstd::utf8::is_ascii_chars("GET, POST, OPTIONS"@));
        vstd::utf8::is_ascii_chars_encode_utf8("allow"@);
        vstd::utf8::is_ascii_chars_encode_utf8("GET, POST, OPTIONS"@);
        assert(("allow").spec_bytes() =~= bytes_of_str("allow"@));
        assert(("GET, POST, OPTIONS").spec_bytes() =~= bytes_of_str("GET, POST, OPTIONS"@));
        assert(pair_views(res.headers@) =~= seq![
            (bytes_of_str("allow"@), bytes_of_str("GET, POST, OPTIONS"@)),
        ]);
    }
    Some(res)
}

/// The handler indices whose endpoint prefix matches, in registration
/// order, from position `i` on.
pub open spec fn match_indices_from(prefixes: Seq<Seq<u8>>, rem: Seq<u8>, i: int) -> Seq<int>
    decreases prefixes.len() - i,
    when 0 <= i <= prefixes.len()
{
    if i == prefixes.len() {
        Seq::empty()
    } else if is_prefix_of(prefixes[i], rem) {
        seq![i] + match_indices_from(prefixes, rem, i + 1)
    } else {
        match_indices_from(prefixes, rem, i + 1)
    }
}

/// The handler indices whose endpoint prefix matches, in registration
/// order: the scan tries exactly these, first match first.
pub open spec fn match_indices(prefixes: Seq<Seq<u8>>, rem: Seq<u8>) -> Seq<int> {
    match_indices_from(prefixes, rem, 0)
}

/// The views of a list of indices.
pub open spec fn index_views(s: Seq<usize>) -> Seq<int> {
    s.map_values(|u: usize| u as int)
}

impl Api {
    /// Which registered handlers the API scan visits, and in what order:
    /// exactly those whose endpoint prefix is a prefix of the remaining
    /// path, earliest registration first.
    pub fn matching_methods(prefixes: &Vec<Vec<u8>>, remainder: &[u8]) -> (r: Vec<usize>)
        ensures
            index_views(r@) == match_indices(crate::text::views_of(prefixes@), remainder@),
    {
        let ghost pv = crate::text::views_of(prefixes@);
        let mut out: Vec<usize> = Vec::new();
        let mut i: usize = 0;
        proof {
            assert(index_views(out@) + match_indices_from(pv, remainder@, 0) =~= match_indices(
                pv,
                remainder@,
            ));
        }
        while i < prefixes.len()
            invariant
                i <= prefixes.len(),
                pv == crate::text::views_of(prefixes@),
                match_indices(pv, remainder@) == index_views(out@) + match_indices_from(
                    pv,
                    remainder@,
                    i as int,
                ),
            decreases prefixes.len() - i,
        {
            let ghost before = out@;
            if starts_with_slice(remainder, prefixes[i].as_slice()) {
                out.push(i);
                proof {
                    assert(index_views(out@) =~= index_views(before).push(i as int));
                    assert(index_views(before).push(i as int) + match_indices_from(
                        pv,
                        remainder@,
                        i + 1,
                    ) =~= index_views(before) + (seq![i as int] + match_indices_from(
                        pv,
                        remainder@,
                        i + 1,
                    )));
                }
            }
            i += 1;
        }
        proof {
            assert(index_views(out@) + Seq::<int>::empty() =~= index_views(out@));
        }
        out
    }
}

/// What the MIME library infers for a path. Relied on to depend on the path
/// alone.
pub uninterp spec fn mime_of(path: Seq<u8>) -> Option<Seq<u8>>;

/// Relies on `mime_guess::from_path`: infers a MIME type from the path's
/// extension alone.
#[verifier::external_body]
fn guess_mime(path: &[u8]) -> (r: Option<Vec<u8>>)
    ensures
        match r {
            Some(v) => mime_of(path@) == Some(v@),
            None => mime_of(path@) == None::<Seq<u8>>,
        },
{
    match core::str::from_utf8(path) {
        Ok(s) => mime_guess::from_path(s).first().map(|m| m.essence_str().as_bytes().to_vec()),
        Err(_) => None,
    }
}

/// The path a static request resolves to: a trailing slash serves `index`,
/// and a path without an extension serves its `.html` form.
pub open spec fn normalized_path(endpoint: Seq<u8>) -> Seq<u8> {
    let p1 = if endpoint.len() > 0 && endpoint.last() == '/' as u8 {
        endpoint + bytes_of_str("index"@)
    } else {
        endpoint
    };
    if p1.contains('.' as u8) {
        p1
    } else {
        p1 + bytes_of_str(".html"@)
    }
}

/// Normalize a request path for the static lookup.
pub fn normalize_path(endpoint: &[u8]) -> (r: Vec<u8>)
    ensures
        r@ == normalized_path(endpoint@),
{
    proof {
        reveal_strlit("index");
        reveal_strlit(".html");
        assert(vstd::utf8::is_ascii_chars("index"@));
        assert(vstd::utf8::is_ascii_chars(".html"@));
    }
    let mut p = copy_range(endpoint, 0, endpoint.len());
    proof {
        assert(p@ =~= endpoint@);
    }
    if p.len() > 0 && p[p.len() - 1] == '/' as u8 {
        extend_bytes(&mut p, str_bytes("index"));
    }
    if !contains_byte(p.as_slice(), '.' as u8) {
        extend_bytes(&mut p, str_bytes(".html"));
    }
    p
}

/// The content type of a static file: the inferred MIME type, or
/// `text/plain` when none is.
pub open spec fn static_content_type(path: Seq<u8>) -> Seq<u8> {
    match mime_of(path) {
        Some(m) => m,
        None => bytes_of_str("text/plain"@),
    }
}

/// Turn a static lookup result into a response: found bytes are served as
/// 200 under the inferred content type; a miss is a 404 page.
pub fn static_response(path: &[u8], found: Option<Vec<u8>>) -> (r: Response)
    ensures
        match found {
            Some(bytes) => r.code == 200 && r.content_type@ == static_content_type(path@)
                && r.data@ == bytes@ && pair_views(r.headers@) == Seq::<(Seq<u8>, Seq<u8>)>::empty()
                && r.wf(),
            None => r.code == 404 && r.content_type@ == bytes_of_str("text/html"@) && r.data@
                == html_page_bytes(404, bytes_of_str("Not found"@)) && pair_views(r.headers@)
                == Seq::<(Seq<u8>, Seq<u8>)>::empty() && r.wf(),
        },
{
    match found {
        Some(bytes) => {
            let mut res = Response::new(200, "text/plain");
            match guess_mime(path) {
                Some(m) => {
                    res.set_content_type_bytes(m);
                },
                None => {
                    proof {
                        reveal_strlit("text/plain");
                        assert(vstd::utf8::is_ascii_chars("text/plain"@));
                        vstd::utf8::is_ascii_chars_encode_utf8("text/plain"@);
                        assert(("text/plain").spec_bytes() =~= bytes_of_str("text/plain"@));
                    }
                },
            }
            res.set_data(bytes);
            res
        },
        None => {
            proof {
                reveal_strlit("Not found");
                assert(vstd::utf8::is_ascii_chars("Not found"@));
                vstd::utf8::is_ascii_chars_encode_utf8("Not found"@);
                assert(("Not found").spec_bytes() =~= bytes_of_str("Not found"@));
            }
            Response::basic(404, "Not found")
        },
    }
}

} // verus!
