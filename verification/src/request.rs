//! HTTP request framing and parsing: locate the header terminator, split the
//! request line, fold header lines into a case-normalized map and query
//! pieces into a plain-keyed map, and classify failures.

use vstd::prelude::*;
use vstd::slice::slice_to_vec;

use crate::text::{
    assoc_ci, assoc_get, bytes_of_str, clone_vec_u8, copy_range, entries_unique_ci,
    entries_unique_cs, find_sub, find_sub_slice, fold_upsert, fold_upsert_cs,
    lemma_fold_upsert_cs_snoc, lemma_fold_upsert_cs_unique, lemma_fold_upsert_snoc,
    lemma_fold_upsert_unique, lower_bytes, lower_vec, pair_views, slice_eq_bytes, split_slice,
    split_sub, str_bytes, trim_slice, trim_spec, upsert, upsert_exact, views_of,
};

verus! {

broadcast use vstd::string::group_string_axioms;

/// A header line parsed on its first `": "`: the name trimmed and folded to
/// lower case, the value trimmed. Lines without the separator are dropped.
pub open spec fn parse_header_line(line: Seq<u8>) -> Option<(Seq<u8>, Seq<u8>)> {
    match find_sub(line, bytes_of_str(": "@)) {
        None => None,
        Some(i) => Some((lower_bytes(trim_spec(line.take(i))), trim_spec(line.skip(i + 2)))),
    }
}

/// The header pairs of a block of lines, in order of appearance.
pub open spec fn header_pairs(lines: Seq<Seq<u8>>) -> Seq<(Seq<u8>, Seq<u8>)>
    decreases lines.len(),
{
    if lines.len() == 0 {
        Seq::empty()
    } else {
        (match parse_header_line(lines[0]) {
            None => Seq::empty(),
            Some(p) => seq![p],
        }) + header_pairs(lines.drop_first())
    }
}

pub proof fn lemma_header_pairs_snoc(lines: Seq<Seq<u8>>, l: Seq<u8>)
    ensures
        header_pairs(lines.push(l)) == header_pairs(lines) + (match parse_header_line(l) {
            None => Seq::<(Seq<u8>, Seq<u8>)>::empty(),
            Some(p) => seq![p],
        }),
    decreases lines.len(),
{
    reveal_with_fuel(header_pairs, 3);
    if lines.len() == 0 {
        assert(lines.push(l)[0] == l);
        assert(lines.push(l).drop_first() =~= Seq::<Seq<u8>>::empty());
        assert(header_pairs(lines.push(l)) =~= header_pairs(lines) + (match parse_header_line(l) {
            None => Seq::<(Seq<u8>, Seq<u8>)>::empty(),
            Some(p) => seq![p],
        }));
    } else {
        assert(lines.push(l)[0] == lines[0]);
        assert(lines.push(l).drop_first() =~= lines.drop_first().push(l));
        lemma_header_pairs_snoc(lines.drop_first(), l);
        assert(header_pairs(lines.push(l)) =~= header_pairs(lines) + (match parse_header_line(l) {
            None => Seq::<(Seq<u8>, Seq<u8>)>::empty(),
            Some(p) => seq![p],
        }));
    }
}

/// A query piece parsed on its first `=`: key and value, both trimmed.
/// Pieces without a `=` are dropped.
pub open spec fn parse_query_pair(piece: Seq<u8>) -> Option<(Seq<u8>, Seq<u8>)> {
    match find_sub(piece, bytes_of_str("="@)) {
        None => None,
        Some(i) => Some((trim_spec(piece.take(i)), trim_spec(piece.skip(i + 1)))),
    }
}

/// The query pairs of the pieces of a query string, in order of appearance.
pub open spec fn query_pairs(pieces: Seq<Seq<u8>>) -> Seq<(Seq<u8>, Seq<u8>)>
    decreases pieces.len(),
{
    if pieces.len() == 0 {
        Seq::empty()
    } else {
        (match parse_query_pair(pieces[0]) {
            None => Seq::empty(),
            Some(p) => seq![p],
        }) + query_pairs(pieces.drop_first())
    }
}

pub proof fn lemma_query_pairs_snoc(pieces: Seq<Seq<u8>>, l: Seq<u8>)
    ensures
        query_pairs(pieces.push(l)) == query_pairs(pieces) + (match parse_query_pair(l) {
            None => Seq::<(Seq<u8>, Seq<u8>)>::empty(),
            Some(p) => seq![p],
        }),
    decreases pieces.len(),
{
    reveal_with_fuel(query_pairs, 3);
    if pieces.len() == 0 {
        assert(pieces.push(l)[0] == l);
        assert(pieces.push(l).drop_first() =~= Seq::<Seq<u8>>::empty());
        assert(query_pairs(pieces.push(l)) =~= query_pairs(pieces) + (match parse_query_pair(l) {
            None => Seq::<(Seq<u8>, Seq<u8>)>::empty(),
            Some(p) => seq![p],
        }));
    } else {
        assert(pieces.push(l)[0] == pieces[0]);
        assert(pieces.push(l).drop_first() =~= pieces.drop_first().push(l));
        lemma_query_pairs_snoc(pieces.drop_first(), l);
        assert(query_pairs(pieces.push(l)) =~= query_pairs(pieces) + (match parse_query_pair(l) {
            None => Seq::<(Seq<u8>, Seq<u8>)>::empty(),
            Some(p) => seq![p],
        }));
    }
}

/// The request methods the engine understands.
#[derive(Debug, PartialEq, Eq, Structural, Clone, Copy)]
pub enum ReqTypes {
    GET,
    POST,
    OPTIONS,
}

/// How a raw byte buffer failed to parse as a request.
#[derive(Debug, PartialEq, Eq, Structural, Clone, Copy)]
pub enum ReqErrorKind {
    /// No CR-LF-CR-LF header terminator was found.
    MalformedFraming,
    /// The request line has fewer than two space-separated tokens.
    MalformedRequestLine,
    /// The method token is outside the supported set.
    UnsupportedMethod,
}

pub open spec fn error_code(k: ReqErrorKind) -> u16 {
    match k {
        ReqErrorKind::MalformedFraming => 400,
        ReqErrorKind::MalformedRequestLine => 400,
        ReqErrorKind::UnsupportedMethod => 501,
    }
}

pub open spec fn error_description(k: ReqErrorKind) -> Seq<char> {
    match k {
        ReqErrorKind::MalformedFraming => "Bad Request"@,
        ReqErrorKind::MalformedRequestLine => "Bad Request"@,
        ReqErrorKind::UnsupportedMethod => "Not Implemented"@,
    }
}

/// A classified parse failure, carrying the status code and description the
/// caller writes back verbatim.
#[derive(Debug, PartialEq, Eq, Structural, Clone, Copy)]
pub struct ResError {
    pub kind: ReqErrorKind,
}

impl ResError {
    pub fn get_code(&self) -> (r: u16)
        ensures
            r == error_code(self.kind),
    {
        match self.kind {
            ReqErrorKind::MalformedFraming => 400,
            ReqErrorKind::MalformedRequestLine => 400,
            ReqErrorKind::UnsupportedMethod => 501,
        }
    }

    pub fn get_description(&self) -> (r: &str)
        ensures
            r@ == error_description(self.kind),
    {
        match self.kind {
            ReqErrorKind::MalformedFraming => "Bad Request",
            ReqErrorKind::MalformedRequestLine => "Bad Request",
            ReqErrorKind::UnsupportedMethod => "Not Implemented",
        }
    }
}

/// The classification of a request-line method token.
pub open spec fn method_of(tok: Seq<u8>) -> Option<ReqTypes> {
    if tok == bytes_of_str("GET"@) {
        Some(ReqTypes::GET)
    } else if tok == bytes_of_str("POST"@) {
        Some(ReqTypes::POST)
    } else if tok == bytes_of_str("OPTIONS"@) {
        Some(ReqTypes::OPTIONS)
    } else {
        None
    }
}

/// The path part of a request-line URL: everything before the first `?`.
pub open spec fn url_endpoint(url: Seq<u8>) -> Seq<u8> {
    match find_sub(url, bytes_of_str("?"@)) {
        None => url,
        Some(i) => url.take(i),
    }
}

/// The raw query part of a request-line URL: everything after the first `?`.
pub open spec fn url_query(url: Seq<u8>) -> Seq<u8> {
    match find_sub(url, bytes_of_str("?"@)) {
        None => Seq::empty(),
        Some(i) => url.skip(i + 1),
    }
}

/// The header map parsed from the lines after the request line.
pub open spec fn headers_of(lines: Seq<Seq<u8>>) -> Seq<(Seq<u8>, Seq<u8>)> {
    fold_upsert(Seq::empty(), header_pairs(lines.drop_first()))
}

/// The query-parameter map of a request-line URL. Keys are plain strings,
/// compared exactly; the last occurrence of a key wins.
pub open spec fn url_params_of(url: Seq<u8>) -> Seq<(Seq<u8>, Seq<u8>)> {
    fold_upsert_cs(Seq::empty(), query_pairs(split_sub(url_query(url), bytes_of_str("&"@))))
}

/// The content type: the `content-type` header, or `text/plain` if absent.
pub open spec fn content_type_of(hs: Seq<(Seq<u8>, Seq<u8>)>) -> Seq<u8> {
    match assoc_ci(hs, bytes_of_str("content-type"@)) {
        Some(v) => v,
        None => bytes_of_str("text/plain"@),
    }
}

/// One parsed request. Header names are folded to lower case and both the
/// header and query maps hold each name at most once.
#[derive(Debug)]
pub struct Request {
    pub req_type: ReqTypes,
    pub content_type: Vec<u8>,
    pub endpoint: Vec<u8>,
    pub data: Vec<u8>,
    pub headers: Vec<(Vec<u8>, Vec<u8>)>,
    pub url_params: Vec<(Vec<u8>, Vec<u8>)>,
    pub id: usize,
}

/// What a successfully parsed request holds, given the split-up input.
pub open spec fn req_matches(
    req: Request,
    m: ReqTypes,
    url: Seq<u8>,
    lines: Seq<Seq<u8>>,
    body: Seq<u8>,
) -> bool {
    &&& req.req_type == m
    &&& req.endpoint@ == url_endpoint(url)
    &&& pair_views(req.url_params@) == url_params_of(url)
    &&& pair_views(req.headers@) == headers_of(lines)
    &&& req.content_type@ == content_type_of(headers_of(lines))
    &&& req.data@ == body
}

/// The full outcome of parsing `s` as a request, relating it to `r`.
pub open spec fn parse_spec(s: Seq<u8>, r: Result<Request, ResError>) -> bool {
    match find_sub(s, bytes_of_str("\r\n\r\n"@)) {
        None => r matches Err(e) && e.kind == ReqErrorKind::MalformedFraming,
        Some(t) => {
            let lines = split_sub(s.take(t), bytes_of_str("\n"@));
            let base = split_sub(lines[0], bytes_of_str(" "@));
            if base.len() < 2 {
                r matches Err(e) && e.kind == ReqErrorKind::MalformedRequestLine
            } else {
                match method_of(base[0]) {
                    None => r matches Err(e) && e.kind == ReqErrorKind::UnsupportedMethod,
                    Some(m) => r matches Ok(req) && req_matches(
                        req,
                        m,
                        base[1],
                        lines,
                        s.skip(t + 4),
                    ) && req.wf(),
                }
            }
        },
    }
}

impl Request {
    /// Both maps hold each name at most once, compared case-insensitively.
    pub open spec fn wf(&self) -> bool {
        entries_unique_ci(pair_views(self.headers@)) && entries_unique_cs(
            pair_views(self.url_params@),
        )
    }

    /// Parse one complete request out of a raw byte buffer, or classify the
    /// failure. The method, path, query map, header map and body are all
    /// recovered exactly; header names are folded to lower case.
    pub fn parse(request: &[u8]) -> (r: Result<Request, ResError>)
        ensures
            parse_spec(request@, r),
    {
        proof {
            reveal_strlit("\r\n\r\n");
            reveal_strlit("\n");
            reveal_strlit(" ");
            reveal_strlit("?");
            reveal_strlit("&");
            reveal_strlit("GET");
            reveal_strlit("POST");
            reveal_strlit("OPTIONS");
            reveal_strlit("content-type");
            reveal_strlit("text/plain");
            assert(vstd::utf8::is_ascii_chars("\r\n\r\n"@));
            assert(vstd::utf8::is_ascii_chars("\n"@));
            assert(vstd::utf8::is_ascii_chars(" "@));
            assert(vstd::utf8::is_ascii_chars("?"@));
            assert(vstd::utf8::is_ascii_chars("&"@));
            assert(vstd::utf8::is_ascii_chars("GET"@));
            assert(vstd::utf8::is_ascii_chars("POST"@));
            assert(vstd::utf8::is_ascii_chars("OPTIONS"@));
            assert(vstd::utf8::is_ascii_chars("content-type"@));
            assert(vstd::utf8::is_ascii_chars("text/plain"@));
            assert(bytes_of_str("\r\n\r\n"@).len() == 4);
            assert(bytes_of_str("\n"@).len() == 1);
            assert(bytes_of_str(" "@).len() == 1);
            assert(bytes_of_str("?"@).len() == 1);
            assert(bytes_of_str("&"@).len() == 1);
        }
        let term = str_bytes("\r\n\r\n");
        let t = match find_sub_slice(request, term) {
            None => {
                return Err(ResError { kind: ReqErrorKind::MalformedFraming });
            },
            Some(t) => t,
        };
        let rlen = request.len();
        let hdr = copy_range(request, 0, t);
        proof {
            assert(hdr@ =~= request@.take(t as int));
        }
        let body = copy_range(request, t + 4, rlen);
        proof {
            assert(body@ =~= request@.skip(t + 4));
        }
        let lines = split_slice(hdr.as_slice(), str_bytes("\n"));
        let base = split_slice(lines[0].as_slice(), str_bytes(" "));
        proof {
            assert(views_of(lines@)[0] == lines@[0]@);
        }
        if base.len() < 2 {
            return Err(ResError { kind: ReqErrorKind::MalformedRequestLine });
        }
        let method = if slice_eq_bytes(base[0].as_slice(), str_bytes("GET")) {
            ReqTypes::GET
        } else if slice_eq_bytes(base[0].as_slice(), str_bytes("POST")) {
            ReqTypes::POST
        } else if slice_eq_bytes(base[0].as_slice(), str_bytes("OPTIONS")) {
            ReqTypes::OPTIONS
        } else {
            return Err(ResError { kind: ReqErrorKind::UnsupportedMethod });
        };
        let url = &base[1];
        let ulen = url.len();
        proof {
            assert(views_of(base@)[1] == base@[1]@);
        }
        let (endpoint, query): (Vec<u8>, Vec<u8>) = match find_sub_slice(
            url.as_slice(),
            str_bytes("?"),
        ) {
            None => (clone_vec_u8(url), Vec::new()),
            Some(q) => (copy_range(url.as_slice(), 0, q), copy_range(
                url.as_slice(),
                q + 1,
                ulen,
            )),
        };
        proof {
            assert(endpoint@ =~= url_endpoint(url@));
            assert(query@ =~= url_query(url@));
        }
        let qpieces = split_slice(query.as_slice(), str_bytes("&"));
        let mut url_params: Vec<(Vec<u8>, Vec<u8>)> = Vec::new();
        let mut qi: usize = 0;
        while qi < qpieces.len()
            invariant
                qi <= qpieces.len(),
                pair_views(url_params@) == fold_upsert_cs(
                    Seq::empty(),
                    query_pairs(views_of(qpieces@).take(qi as int)),
                ),
            decreases qpieces.len() - qi,
        {
            let piece = &qpieces[qi];
            let ghost prefix = views_of(qpieces@).take(qi as int);
            proof {
                reveal_strlit("=");
                assert(vstd::utf8::is_ascii_chars("="@));
                assert(bytes_of_str("="@).len() == 1);
                assert(views_of(qpieces@).take(qi + 1) =~= prefix.push(piece@));
                lemma_query_pairs_snoc(prefix, piece@);
            }
            match find_sub_slice(piece.as_slice(), str_bytes("=")) {
                None => {
                    proof {
                        assert(query_pairs(prefix.push(piece@)) =~= query_pairs(prefix));
                    }
                },
                Some(e) => {
                    proof {
                        assert(e + bytes_of_str("="@).len() <= piece@.len());
                        assert(e + 1 <= piece@.len());
                    }
                    let kraw = copy_range(piece.as_slice(), 0, e);
                    let k = trim_slice(kraw.as_slice());
                    let vraw = copy_range(piece.as_slice(), e + 1, piece.len());
                    let v = trim_slice(vraw.as_slice());
                    proof {
                        assert(kraw@ =~= piece@.take(e as int));
                        assert(vraw@ =~= piece@.skip(e + 1));
                        let p = (trim_spec(piece@.take(e as int)), trim_spec(piece@.skip(e + 1)));
                        assert(parse_query_pair(piece@) == Some(p));
                        assert(query_pairs(prefix.push(piece@)) =~= query_pairs(prefix).push(p));
                        lemma_fold_upsert_cs_snoc(Seq::empty(), query_pairs(prefix), p);
                    }
                    upsert_exact(&mut url_params, k, v);
                },
            }
            qi += 1;
        }
        proof {
            assert(views_of(qpieces@).take(qpieces@.len() as int) =~= views_of(qpieces@));
        }
        let mut headers: Vec<(Vec<u8>, Vec<u8>)> = Vec::new();
        let mut hi: usize = 1;
        while hi < lines.len()
            invariant
                1 <= hi <= lines.len(),
                pair_views(headers@) == fold_upsert(
                    Seq::empty(),
                    header_pairs(views_of(lines@).subrange(1, hi as int)),
                ),
            decreases lines.len() - hi,
        {
            let line = &lines[hi];
            let ghost prefix = views_of(lines@).subrange(1, hi as int);
            proof {
                reveal_strlit(": ");
                assert(vstd::utf8::is_ascii_chars(": "@));
                assert(bytes_of_str(": "@).len() == 2);
                assert(views_of(lines@).subrange(1, hi + 1) =~= prefix.push(line@));
                lemma_header_pairs_snoc(prefix, line@);
            }
            match find_sub_slice(line.as_slice(), str_bytes(": ")) {
                None => {
                    proof {
                        assert(header_pairs(prefix.push(line@)) =~= header_pairs(prefix));
                    }
                },
                Some(c) => {
                    proof {
                        assert(c + bytes_of_str(": "@).len() <= line@.len());
                        assert(c + 2 <= line@.len());
                    }
                    let nraw = copy_range(line.as_slice(), 0, c);
                    let ntrim = trim_slice(nraw.as_slice());
                    let name = lower_vec(ntrim.as_slice());
                    let vraw = copy_range(line.as_slice(), c + 2, line.len());
                    let value = trim_slice(vraw.as_slice());
                    proof {
                        assert(nraw@ =~= line@.take(c as int));
                        assert(vraw@ =~= line@.skip(c + 2));
                        let p = (
                            lower_bytes(trim_spec(line@.take(c as int))),
                            trim_spec(line@.skip(c + 2)),
                        );
                        assert(parse_header_line(line@) == Some(p));
                        assert(header_pairs(prefix.push(line@)) =~= header_pairs(prefix).push(p));
                        lemma_fold_upsert_snoc(Seq::empty(), header_pairs(prefix), p);
                    }
                    upsert(&mut headers, name, value);
                },
            }
            hi += 1;
        }
        proof {
            assert(views_of(lines@).subrange(1, lines@.len() as int) =~= views_of(
                lines@,
            ).drop_first());
            lemma_fold_upsert_unique(
                Seq::empty(),
                header_pairs(views_of(lines@).drop_first()),
            );
            lemma_fold_upsert_cs_unique(
                Seq::empty(),
                query_pairs(views_of(qpieces@)),
            );
        }
        let content_type = match assoc_get(&headers, str_bytes("content-type")) {
            Some(v) => v,
            None => slice_to_vec(str_bytes("text/plain")),
        };
        let id = next_request_id();
        Ok(
            Request {
                req_type: method,
                content_type,
                endpoint,
                data: body,
                headers,
                url_params,
                id,
            },
        )
    }

    pub fn get_type(&self) -> (r: ReqTypes)
        ensures
            r == self.req_type,
    {
        self.req_type
    }

    pub fn get_content_type(&self) -> (r: Vec<u8>)
        ensures
            r@ == self.content_type@,
    {
        clone_vec_u8(&self.content_type)
    }

    pub fn get_endpoint(&self) -> (r: Vec<u8>)
        ensures
            r@ == self.endpoint@,
    {
        clone_vec_u8(&self.endpoint)
    }

    pub fn get_data(&self) -> (r: Vec<u8>)
        ensures
            r@ == self.data@,
    {
        clone_vec_u8(&self.data)
    }

    pub fn get_headers(&self) -> (r: Vec<(Vec<u8>, Vec<u8>)>)
        ensures
            pair_views(r@) == pair_views(self.headers@),
    {
        clone_pairs(&self.headers)
    }

    pub fn get_url_params(&self) -> (r: Vec<(Vec<u8>, Vec<u8>)>)
        ensures
            pair_views(r@) == pair_views(self.url_params@),
    {
        clone_pairs(&self.url_params)
    }

    /// Look one header up by its lower-cased name.
    pub fn header_value(&self, name: &[u8]) -> (r: Option<Vec<u8>>)
        ensures
            match r {
                Some(v) => assoc_ci(pair_views(self.headers@), name@) == Some(v@),
                None => assoc_ci(pair_views(self.headers@), name@) is None,
            },
    {
        assoc_get(&self.headers, name)
    }

    pub fn get_id(&self) -> (r: usize)
        ensures
            r == self.id,
    {
        self.id
    }
}

/// Copy a list of name/value pairs.
pub fn clone_pairs(hs: &Vec<(Vec<u8>, Vec<u8>)>) -> (r: Vec<(Vec<u8>, Vec<u8>)>)
    ensures
        pair_views(r@) == pair_views(hs@),
{
    let mut out: Vec<(Vec<u8>, Vec<u8>)> = Vec::new();
    let mut i: usize = 0;
    while i < hs.len()
        invariant
            i <= hs.len(),
            pair_views(out@) == pair_views(hs@).take(i as int),
        decreases hs.len() - i,
    {
        let kc = clone_vec_u8(&hs[i].0);
        let vc = clone_vec_u8(&hs[i].1);
        let ghost prev = out@;
        out.push((kc, vc));
        proof {
            assert(pair_views(prev).len() == prev.len());
            assert(pair_views(hs@).len() == hs@.len());
            assert(prev.len() == i as int);
            assert forall|j: int| 0 <= j < i + 1 implies #[trigger] pair_views(out@)[j]
                == pair_views(hs@).take(i + 1)[j] by {
                assert(out@ == prev.push((kc, vc)));
                if j < i {
                    assert(out@[j] == prev.push((kc, vc))[j]);
                    assert(prev.push((kc, vc))[j] == prev[j]);
                    assert(pair_views(prev)[j] == pair_views(hs@).take(i as int)[j]);
                } else {
                    assert(out@[j] == prev.push((kc, vc))[j]);
                    assert(out@[j] == (kc, vc));
                    assert(pair_views(hs@)[j] == (hs@[j].0@, hs@[j].1@));
                }
            }
            assert(pair_views(out@) =~= pair_views(hs@).take(i + 1));
        }
        i += 1;
    }
    proof {
        assert(pair_views(hs@).take(hs@.len() as int) =~= pair_views(hs@));
    }
    out
}

/// Relies on `uid::Id::new`: draws the next value of a process-wide atomic
/// counter. Nothing is assumed of the value; it correlates diagnostics and
/// carries no correctness weight.
#[verifier::external_body]
fn next_request_id() -> usize {
    uid::Id::<()>::new().get()
}

/// The bytes before the framing terminator of a request with a header
/// section: request line, CR-LF, header block.
pub open spec fn request_head(m: Seq<u8>, u: Seq<u8>, version: Seq<u8>, hb: Seq<u8>) -> Seq<u8> {
    m + bytes_of_str(" "@) + u + bytes_of_str(" "@) + version + bytes_of_str("\r\n"@) + hb
}

/// Law: a well-formed request parses to exactly its parts. For any buffer
/// `m SP u SP version CR LF hb CRLFCRLF body` — a supported method token,
/// a path free of spaces and line feeds, a version tail and a header block
/// — whose first header terminator is the framing one, parsing succeeds,
/// and the request holds the method of `m`, the path and query map read
/// from `u`, the header map folded from the lines of `hb` (names trimmed
/// and case-folded, values trimmed, the last occurrence of a name winning),
/// the content type that map implies, and exactly `body`.
pub proof fn lemma_parse_recovers(
    m: Seq<u8>,
    u: Seq<u8>,
    version: Seq<u8>,
    hb: Seq<u8>,
    body: Seq<u8>,
    r: Result<Request, ResError>,
)
    requires
        method_of(m) is Some,
        forall|j: int| 0 <= j < m.len() ==> m[j] != (' ' as u8) && m[j] != ('\n' as u8),
        forall|j: int| 0 <= j < u.len() ==> u[j] != (' ' as u8) && u[j] != ('\n' as u8),
        forall|j: int| 0 <= j < version.len() ==> version[j] != ('\n' as u8),
        parse_spec(request_head(m, u, version, hb) + bytes_of_str("\r\n\r\n"@) + body, r),
        forall|j: int|
            0 <= j < request_head(m, u, version, hb).len() ==> #[trigger] (request_head(
                m,
                u,
                version,
                hb,
            ) + bytes_of_str("\r\n\r\n"@) + body).subrange(j, j + 4) != bytes_of_str("\r\n\r\n"@),
    ensures
        r matches Ok(req) && {
            &&& method_of(m) == Some(req.req_type)
            &&& req.endpoint@ == url_endpoint(u)
            &&& pair_views(req.url_params@) == url_params_of(u)
            &&& pair_views(req.headers@) == fold_upsert(
                Seq::empty(),
                header_pairs(split_sub(hb, bytes_of_str("\n"@))),
            )
            &&& req.content_type@ == content_type_of(pair_views(req.headers@))
            &&& req.data@ == body
        },
{
    reveal_strlit(" ");
    reveal_strlit("\n");
    reveal_strlit("\r\n");
    reveal_strlit("\r\n\r\n");
    let sp = bytes_of_str(" "@);
    let nl = bytes_of_str("\n"@);
    let term = bytes_of_str("\r\n\r\n"@);
    assert(sp =~= seq![' ' as u8]);
    assert(nl =~= seq!['\n' as u8]);
    assert(term =~= seq!['\r' as u8, '\n' as u8, '\r' as u8, '\n' as u8]);
    let h = request_head(m, u, version, hb);
    let s = h + term + body;
    let hlen = h.len() as int;
    assert(s.subrange(hlen, hlen + 4) =~= term);
    crate::text::lemma_find_sub_from_first(s, term, 0, hlen);
    assert(s.take(hlen) =~= h);
    assert(s.skip(hlen + 4) =~= body);
    let a = m + sp + u + sp + version + seq!['\r' as u8];
    assert(h =~= a + nl + hb);
    assert forall|j: int| 0 <= j < a.len() implies a[j] != nl[0] by {
        lemma_request_line_byte(m, u, version, j);
    }
    crate::text::lemma_split_prepend(a, hb, nl);
    let lines = split_sub(h, nl);
    assert(lines == seq![a] + split_sub(hb, nl));
    assert(lines[0] == a);
    assert(lines.drop_first() =~= split_sub(hb, nl));
    let tail1 = u + sp + version + seq!['\r' as u8];
    assert(a =~= m + sp + tail1);
    assert forall|j: int| 0 <= j < m.len() implies m[j] != sp[0] by {}
    crate::text::lemma_split_prepend(m, tail1, sp);
    let tail2 = version + seq!['\r' as u8];
    assert(tail1 =~= u + sp + tail2);
    assert forall|j: int| 0 <= j < u.len() implies u[j] != sp[0] by {}
    crate::text::lemma_split_prepend(u, tail2, sp);
    let base = split_sub(lines[0], sp);
    assert(base == seq![m] + (seq![u] + split_sub(tail2, sp)));
    assert(base[0] == m);
    assert(base[1] == u);
    assert(base.len() >= 2);
}

/// Each byte of the request line `m SP u SP version CR` is a byte of one of
/// its parts, the space, or the carriage return — never a line feed.
proof fn lemma_request_line_byte(m: Seq<u8>, u: Seq<u8>, version: Seq<u8>, j: int)
    requires
        forall|i: int| 0 <= i < m.len() ==> m[i] != (' ' as u8) && m[i] != ('\n' as u8),
        forall|i: int| 0 <= i < u.len() ==> u[i] != (' ' as u8) && u[i] != ('\n' as u8),
        forall|i: int| 0 <= i < version.len() ==> version[i] != ('\n' as u8),
        0 <= j < m.len() + 1 + u.len() + 1 + version.len() + 1,
        bytes_of_str(" "@) == seq![' ' as u8],
    ensures
        (m + bytes_of_str(" "@) + u + bytes_of_str(" "@) + version + seq!['\r' as u8])[j] != (
        '\n' as u8),
{
    let sp = bytes_of_str(" "@);
    let a = m + sp + u + sp + version + seq!['\r' as u8];
    if j < m.len() {
        assert(a[j] == m[j]);
    } else if j < m.len() + 1 {
        assert(a[j] == (' ' as u8));
    } else if j < m.len() + 1 + u.len() {
        assert(a[j] == u[j - m.len() - 1]);
    } else if j < m.len() + 2 + u.len() {
        assert(a[j] == (' ' as u8));
    } else if j < m.len() + 2 + u.len() + version.len() {
        assert(a[j] == version[j - m.len() - 2 - u.len()]);
    } else {
        assert(a[j] == ('\r' as u8));
    }
}

/// Law: a request without a header section — `m SP u SP version CRLFCRLF
/// body`, the parts shaped as in `lemma_parse_recovers` — parses to its
/// method, path, query map and body, with an empty header map and the
/// default content type.
pub proof fn lemma_parse_recovers_bare(
    m: Seq<u8>,
    u: Seq<u8>,
    version: Seq<u8>,
    body: Seq<u8>,
    r: Result<Request, ResError>,
)
    requires
        method_of(m) is Some,
        forall|j: int| 0 <= j < m.len() ==> m[j] != (' ' as u8) && m[j] != ('\n' as u8),
        forall|j: int| 0 <= j < u.len() ==> u[j] != (' ' as u8) && u[j] != ('\n' as u8),
        forall|j: int| 0 <= j < version.len() ==> version[j] != ('\n' as u8),
        parse_spec(
            (m + bytes_of_str(" "@) + u + bytes_of_str(" "@) + version) + bytes_of_str("\r\n\r\n"@)
                + body,
            r,
        ),
        forall|j: int|
            0 <= j < (m + bytes_of_str(" "@) + u + bytes_of_str(" "@) + version).len()
                ==> #[trigger] ((m + bytes_of_str(" "@) + u + bytes_of_str(" "@) + version)
                + bytes_of_str("\r\n\r\n"@) + body).subrange(j, j + 4) != bytes_of_str("\r\n\r\n"@),
    ensures
        r matches Ok(req) && {
            &&& method_of(m) == Some(req.req_type)
            &&& req.endpoint@ == url_endpoint(u)
            &&& pair_views(req.url_params@) == url_params_of(u)
            &&& pair_views(req.headers@) == Seq::<(Seq<u8>, Seq<u8>)>::empty()
            &&& req.content_type@ == bytes_of_str("text/plain"@)
            &&& req.data@ == body
        },
{
    reveal_strlit(" ");
    reveal_strlit("\n");
    reveal_strlit("\r\n\r\n");
    let sp = bytes_of_str(" "@);
    let nl = bytes_of_str("\n"@);
    let term = bytes_of_str("\r\n\r\n"@);
    assert(sp =~= seq![' ' as u8]);
    assert(nl =~= seq!['\n' as u8]);
    assert(term =~= seq!['\r' as u8, '\n' as u8, '\r' as u8, '\n' as u8]);
    let h = m + sp + u + sp + version;
    let s = h + term + body;
    let hlen = h.len() as int;
    assert(s.subrange(hlen, hlen + 4) =~= term);
    crate::text::lemma_find_sub_from_first(s, term, 0, hlen);
    assert(s.take(hlen) =~= h);
    assert(s.skip(hlen + 4) =~= body);
    assert forall|j: int| 0 <= j < h.len() implies h[j] != nl[0] by {
        lemma_bare_line_byte(m, u, version, j);
    }
    crate::text::lemma_split_absent(h, nl);
    let lines = split_sub(h, nl);
    assert(lines[0] == h);
    assert(lines.drop_first() =~= Seq::<Seq<u8>>::empty());
    let tail1 = u + sp + version;
    assert(h =~= m + sp + tail1);
    assert forall|j: int| 0 <= j < m.len() implies m[j] != sp[0] by {}
    crate::text::lemma_split_prepend(m, tail1, sp);
    assert forall|j: int| 0 <= j < u.len() implies u[j] != sp[0] by {}
    crate::text::lemma_split_prepend(u, version, sp);
    assert(tail1 =~= u + sp + version);
    let base = split_sub(lines[0], sp);
    assert(base == seq![m] + (seq![u] + split_sub(version, sp)));
    assert(base[0] == m);
    assert(base[1] == u);
    assert(base.len() >= 2);
    assert(headers_of(lines) =~= Seq::<(Seq<u8>, Seq<u8>)>::empty());
    reveal_strlit("content-type");
    reveal_strlit("text/plain");
    crate::text::lemma_key_index_ci_props(
        Seq::<(Seq<u8>, Seq<u8>)>::empty(),
        bytes_of_str("content-type"@),
    );
}

/// Law: a header line `name ++ ": " ++ value` whose separator is its first
/// parses to the trimmed, case-folded name mapped to the trimmed value —
/// so a block holding that line gives the header map that entry.
pub proof fn lemma_header_line_maps(name: Seq<u8>, value: Seq<u8>)
    requires
        forall|j: int|
            0 <= j < name.len() ==> #[trigger] (name + bytes_of_str(": "@) + value).subrange(
                j,
                j + 2,
            ) != bytes_of_str(": "@),
    ensures
        parse_header_line(name + bytes_of_str(": "@) + value) == Some(
            (lower_bytes(trim_spec(name)), trim_spec(value)),
        ),
        header_pairs(seq![name + bytes_of_str(": "@) + value]) == seq![
            (lower_bytes(trim_spec(name)), trim_spec(value)),
        ],
{
    reveal_strlit(": ");
    let cs = bytes_of_str(": "@);
    assert(cs.len() == 2);
    let line = name + cs + value;
    assert(line.subrange(name.len() as int, name.len() + 2 as int) =~= cs);
    crate::text::lemma_find_sub_from_first(line, cs, 0, name.len() as int);
    assert(line.take(name.len() as int) =~= name);
    assert(line.skip(name.len() + 2 as int) =~= value);
    reveal_with_fuel(header_pairs, 3);
    assert(seq![line].drop_first() =~= Seq::<Seq<u8>>::empty());
    assert(header_pairs(seq![line]) =~= seq![
        (lower_bytes(trim_spec(name)), trim_spec(value)),
    ]);
}

/// As `lemma_request_line_byte`, for a line without the carriage return.
proof fn lemma_bare_line_byte(m: Seq<u8>, u: Seq<u8>, version: Seq<u8>, j: int)
    requires
        forall|i: int| 0 <= i < m.len() ==> m[i] != (' ' as u8) && m[i] != ('\n' as u8),
        forall|i: int| 0 <= i < u.len() ==> u[i] != (' ' as u8) && u[i] != ('\n' as u8),
        forall|i: int| 0 <= i < version.len() ==> version[i] != ('\n' as u8),
        0 <= j < m.len() + 1 + u.len() + 1 + version.len(),
        bytes_of_str(" "@) == seq![' ' as u8],
    ensures
        (m + bytes_of_str(" "@) + u + bytes_of_str(" "@) + version)[j] != ('\n' as u8),
{
    let sp = bytes_of_str(" "@);
    let h = m + sp + u + sp + version;
    if j < m.len() {
        assert(h[j] == m[j]);
    } else if j < m.len() + 1 {
        assert(h[j] == (' ' as u8));
    } else if j < m.len() + 1 + u.len() {
        assert(h[j] == u[j - m.len() - 1]);
    } else if j < m.len() + 2 + u.len() {
        assert(h[j] == (' ' as u8));
    } else {
        assert(h[j] == version[j - m.len() - 2 - u.len()]);
    }
}

} // verus!
