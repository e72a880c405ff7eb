//! Response construction and wire serialization: a mutable builder whose
//! header map holds each name at most once (case-insensitively), and a
//! serializer that emits the status line, the headers with `Content-Type`
//! and `Content-Length` injected when absent, a blank line, and the body.

use vstd::prelude::*;
use vstd::string::StringSliceAdditionalSpecFns;
use vstd::string::StrSliceExecFns;

use vstd::slice::slice_to_vec;

use crate::request::clone_pairs;
use crate::text::{
    assoc_ci, assoc_get, bytes_of_str, clone_vec_u8, dec_bytes_spec, dec_of, entries_unique_ci,
    extend_bytes, lemma_assoc_ci_push, lemma_push_absent_unique,
    lemma_upsert_ci_unique, lower_bytes, lower_vec, pair_views, push_pair, str_bytes, upsert,
    upsert_ci,
};

verus! {

broadcast use vstd::string::group_string_axioms;

/// The status line: `HTTP/1.1 <code> OK` and CR-LF. The reason phrase is
/// always the literal `OK`, whatever the code.
pub open spec fn status_line_bytes(code: u16) -> Seq<u8> {
    bytes_of_str("HTTP/1.1 "@) + dec_bytes_spec(code as nat) + bytes_of_str(" OK\r\n"@)
}

/// One emitted header line: the name folded to lower case, `": "`, the raw
/// value, CR-LF.
pub open spec fn header_line_bytes(p: (Seq<u8>, Seq<u8>)) -> Seq<u8> {
    lower_bytes(p.0) + bytes_of_str(": "@) + p.1 + bytes_of_str("\r\n"@)
}

/// All header lines, in order.
pub open spec fn header_lines_bytes(hs: Seq<(Seq<u8>, Seq<u8>)>) -> Seq<u8>
    decreases hs.len(),
{
    if hs.len() == 0 {
        Seq::empty()
    } else {
        header_line_bytes(hs[0]) + header_lines_bytes(hs.drop_first())
    }
}

pub proof fn lemma_header_lines_snoc(hs: Seq<(Seq<u8>, Seq<u8>)>, p: (Seq<u8>, Seq<u8>))
    ensures
        header_lines_bytes(hs.push(p)) == header_lines_bytes(hs) + header_line_bytes(p),
    decreases hs.len(),
{
    reveal_with_fuel(header_lines_bytes, 3);
    if hs.len() == 0 {
        assert(hs.push(p)[0] == p);
        assert(hs.push(p).drop_first() =~= Seq::<(Seq<u8>, Seq<u8>)>::empty());
        assert(header_lines_bytes(hs.push(p)) =~= header_lines_bytes(hs) + header_line_bytes(p));
    } else {
        assert(hs.push(p)[0] == hs[0]);
        assert(hs.push(p).drop_first() =~= hs.drop_first().push(p));
        lemma_header_lines_snoc(hs.drop_first(), p);
        assert(header_lines_bytes(hs.push(p)) =~= header_lines_bytes(hs) + header_line_bytes(p));
    }
}

/// The headers that reach the wire: the accumulated ones, with
/// `content-type` and `content-length` appended when no header of that name
/// (up to case) was set.
pub open spec fn out_headers(hs: Seq<(Seq<u8>, Seq<u8>)>, ct: Seq<u8>, dlen: nat) -> Seq<
    (Seq<u8>, Seq<u8>),
> {
    let h1 = if assoc_ci(hs, bytes_of_str("content-type"@)) is Some {
        hs
    } else {
        hs.push((bytes_of_str("content-type"@), ct))
    };
    if assoc_ci(hs, bytes_of_str("content-length"@)) is Some {
        h1
    } else {
        h1.push((bytes_of_str("content-length"@), dec_bytes_spec(dlen)))
    }
}

/// The full wire form of a response.
pub open spec fn wire_bytes(
    code: u16,
    hs: Seq<(Seq<u8>, Seq<u8>)>,
    ct: Seq<u8>,
    data: Seq<u8>,
) -> Seq<u8> {
    status_line_bytes(code) + header_lines_bytes(out_headers(hs, ct, data.len()))
        + bytes_of_str("\r\n"@) + data
}

/// A response could not be rendered from structured data.
#[derive(Debug)]
pub struct SerializationError {
    pub message: String,
}

impl SerializationError {
    pub fn get_message(&self) -> (r: &str)
        ensures
            r@ == self.message@,
    {
        self.message.as_str()
    }
}

/// An outgoing response under construction.
#[derive(Debug)]
pub struct Response {
    pub code: u16,
    pub content_type: Vec<u8>,
    pub data: Vec<u8>,
    pub headers: Vec<(Vec<u8>, Vec<u8>)>,
}

impl Response {
    /// The header map holds each name at most once, compared
    /// case-insensitively.
    pub open spec fn wf(&self) -> bool {
        entries_unique_ci(pair_views(self.headers@))
    }

    pub fn new(code: u16, content_type: &str) -> (r: Response)
        ensures
            r.code == code,
            r.content_type@ == content_type.spec_bytes(),
            r.data@ == Seq::<u8>::empty(),
            pair_views(r.headers@) == Seq::<(Seq<u8>, Seq<u8>)>::empty(),
            r.wf(),
    {
        let r = Response {
            code,
            content_type: content_type.as_bytes_vec(),
            data: Vec::new(),
            headers: Vec::new(),
        };
        proof {
            assert(pair_views(r.headers@) =~= Seq::<(Seq<u8>, Seq<u8>)>::empty());
        }
        r
    }

    pub fn set_data(&mut self, data: Vec<u8>)
        ensures
            final(self).data@ == data@,
            final(self).code == old(self).code,
            final(self).content_type == old(self).content_type,
            final(self).headers == old(self).headers,
    {
        self.data = data;
    }

    pub fn get_data(&self) -> (r: Vec<u8>)
        ensures
            r@ == self.data@,
    {
        clone_vec_u8(&self.data)
    }

    pub fn set_data_as_slice(&mut self, data: &[u8])
        ensures
            final(self).data@ == data@,
            final(self).code == old(self).code,
            final(self).content_type == old(self).content_type,
            final(self).headers == old(self).headers,
    {
        self.data = crate::text::copy_range(data, 0, data.len());
        proof {
            assert(data@.subrange(0, data@.len() as int) =~= data@);
        }
    }

    /// Add a header, replacing one of the same name up to ASCII case.
    pub fn add_header(&mut self, k: &str, v: &str)
        ensures
            pair_views(final(self).headers@) == upsert_ci(
                pair_views(old(self).headers@),
                k.spec_bytes(),
                v.spec_bytes(),
            ),
            final(self).code == old(self).code,
            final(self).content_type == old(self).content_type,
            final(self).data == old(self).data,
            old(self).wf() ==> final(self).wf(),
    {
        proof {
            if old(self).wf() {
                lemma_upsert_ci_unique(
                    pair_views(self.headers@),
                    k.spec_bytes(),
                    v.spec_bytes(),
                );
            }
        }
        upsert(&mut self.headers, k.as_bytes_vec(), v.as_bytes_vec());
    }

    pub fn set_code(&mut self, code: u16)
        ensures
            final(self).code == code,
            final(self).content_type == old(self).content_type,
            final(self).data == old(self).data,
            final(self).headers == old(self).headers,
    {
        self.code = code;
    }

    pub fn set_content_type(&mut self, content_type: &str)
        ensures
            final(self).content_type@ == content_type.spec_bytes(),
            final(self).code == old(self).code,
            final(self).data == old(self).data,
            final(self).headers == old(self).headers,
    {
        self.content_type = content_type.as_bytes_vec();
    }

    /// Set the content type from raw bytes, as a static lookup hands it over.
    pub fn set_content_type_bytes(&mut self, content_type: Vec<u8>)
        ensures
            final(self).content_type@ == content_type@,
            final(self).code == old(self).code,
            final(self).data == old(self).data,
            final(self).headers == old(self).headers,
    {
        self.content_type = content_type;
    }

    pub fn get_code(&self) -> (r: u16)
        ensures
            r == self.code,
    {
        self.code
    }

    pub fn get_content_type(&self) -> (r: Vec<u8>)
        ensures
            r@ == self.content_type@,
    {
        clone_vec_u8(&self.content_type)
    }

    pub fn get_headers(&self) -> (r: Vec<(Vec<u8>, Vec<u8>)>)
        ensures
            pair_views(r@) == pair_views(self.headers@),
    {
        clone_pairs(&self.headers)
    }

    /// A minimal HTML page for a status code and description, served as
    /// `text/html`.
    pub fn basic(code: u16, description: &str) -> (r: Response)
        ensures
            r.code == code,
            r.content_type@ == bytes_of_str("text/html"@),
            pair_views(r.headers@) == Seq::<(Seq<u8>, Seq<u8>)>::empty(),
            r.data@ == html_page_bytes(code, description.spec_bytes()),
            r.wf(),
    {
        let mut res = Response::new(code, "text/html");
        proof {
            reveal_strlit("text/html");
            assert(vstd::utf8::is_ascii_chars("text/html"@));
            vstd::utf8::is_ascii_chars_encode_utf8("text/html"@);
            assert(("text/html").spec_bytes() =~= bytes_of_str("text/html"@));
        }
        let body = html_page(code, description);
        res.set_data(body);
        res
    }

    /// A page like `basic`, for this response's status code. The content
    /// type is the literal `text/http`.
    pub fn with_description(&self, description: &str) -> (r: Response)
        ensures
            r.code == self.code,
            r.content_type@ == bytes_of_str("text/http"@),
            pair_views(r.headers@) == Seq::<(Seq<u8>, Seq<u8>)>::empty(),
            r.data@ == html_page_bytes(self.code, description.spec_bytes()),
            r.wf(),
    {
        let mut res = Response::new(self.code, "text/http");
        proof {
            reveal_strlit("text/http");
            assert(vstd::utf8::is_ascii_chars("text/http"@));
            vstd::utf8::is_ascii_chars_encode_utf8("text/http"@);
            assert(("text/http").spec_bytes() =~= bytes_of_str("text/http"@));
        }
        let body = html_page(self.code, description);
        res.set_data(body);
        res
    }

    /// A response carrying rendered JSON text, as `application/json`.
    pub fn with_json_text(code: u16, text: &str) -> (r: Response)
        ensures
            r.code == code,
            r.content_type@ == bytes_of_str("application/json"@),
            pair_views(r.headers@) == Seq::<(Seq<u8>, Seq<u8>)>::empty(),
            r.data@ == text.spec_bytes(),
            r.wf(),
    {
        let mut res = Response::new(code, "application/json");
        proof {
            reveal_strlit("application/json");
            assert(vstd::utf8::is_ascii_chars("application/json"@));
            vstd::utf8::is_ascii_chars_encode_utf8("application/json"@);
            assert(("application/json").spec_bytes() =~= bytes_of_str("application/json"@));
        }
        res.set_data(text.as_bytes_vec());
        res
    }

    /// Render a JSON value to a response body: always a response carrying
    /// the value's rendered text under `application/json` with the given
    /// status code. Rendering a `Value` to an in-memory string does not
    /// fail, so the error arm of the result is never taken.
    pub fn from_json(code: u16, json: serde_json::Value) -> (r: Result<
        Response,
        SerializationError,
    >)
        ensures
            r matches Ok(res) && res.code == code && res.content_type@ == bytes_of_str(
                "application/json"@,
            ) && pair_views(res.headers@) == Seq::<(Seq<u8>, Seq<u8>)>::empty() && res.data@
                == vstd::utf8::encode_utf8(json_text_of(json)) && res.wf(),
    {
        match json_to_string(&json) {
            Ok(s) => Ok(Response::with_json_text(code, s.as_str())),
            Err(m) => Err(SerializationError { message: m }),
        }
    }

    /// Serialize this response to its wire form: status line, headers with
    /// `content-type` and `content-length` injected when absent, a blank
    /// line, and the body verbatim.
    pub fn to_bytes(&self) -> (r: Vec<u8>)
        ensures
            r@ == wire_bytes(self.code, pair_views(self.headers@), self.content_type@, self.data@),
    {
        proof {
            reveal_strlit("HTTP/1.1 ");
            reveal_strlit(" OK\r\n");
            reveal_strlit("content-type");
            reveal_strlit("content-length");
            reveal_strlit("\r\n");
            assert(vstd::utf8::is_ascii_chars("HTTP/1.1 "@));
            assert(vstd::utf8::is_ascii_chars(" OK\r\n"@));
            assert(vstd::utf8::is_ascii_chars("content-type"@));
            assert(vstd::utf8::is_ascii_chars("content-length"@));
            assert(vstd::utf8::is_ascii_chars("\r\n"@));
        }
        let mut out: Vec<u8> = Vec::new();
        extend_bytes(&mut out, str_bytes("HTTP/1.1 "));
        let mut digits = dec_of(self.code as usize);
        out.append(&mut digits);
        extend_bytes(&mut out, str_bytes(" OK\r\n"));
        proof {
            assert(out@ =~= status_line_bytes(self.code));
        }
        let ghost hs0 = pair_views(self.headers@);
        let mut hs = clone_pairs(&self.headers);
        match assoc_get(&self.headers, str_bytes("content-type")) {
            Some(_) => {},
            None => {
                let name = slice_to_vec(str_bytes("content-type"));
                let value = clone_vec_u8(&self.content_type);
                push_pair(&mut hs, name, value);
            },
        }
        match assoc_get(&self.headers, str_bytes("content-length")) {
            Some(_) => {},
            None => {
                let name = slice_to_vec(str_bytes("content-length"));
                let value = dec_of(self.data.len());
                push_pair(&mut hs, name, value);
            },
        }
        proof {
            assert(pair_views(hs@) =~= out_headers(hs0, self.content_type@, self.data@.len()));
        }
        let mut i: usize = 0;
        while i < hs.len()
            invariant
                i <= hs.len(),
                out@ == status_line_bytes(self.code) + header_lines_bytes(
                    pair_views(hs@).take(i as int),
                ),
            decreases hs.len() - i,
        {
            proof {
                reveal_strlit(": ");
                reveal_strlit("\r\n");
                assert(vstd::utf8::is_ascii_chars(": "@));
                assert(vstd::utf8::is_ascii_chars("\r\n"@));
                assert(pair_views(hs@).take(i + 1) =~= pair_views(hs@).take(i as int).push(
                    pair_views(hs@)[i as int],
                ));
                lemma_header_lines_snoc(pair_views(hs@).take(i as int), pair_views(hs@)[i as int]);
            }
            let mut low = lower_vec(hs[i].0.as_slice());
            out.append(&mut low);
            extend_bytes(&mut out, str_bytes(": "));
            extend_bytes(&mut out, hs[i].1.as_slice());
            extend_bytes(&mut out, str_bytes("\r\n"));
            proof {
                assert(out@ =~= status_line_bytes(self.code) + header_lines_bytes(
                    pair_views(hs@).take(i + 1),
                ));
            }
            i += 1;
        }
        proof {
            assert(pair_views(hs@).take(pair_views(hs@).len() as int) =~= pair_views(hs@));
        }
        extend_bytes(&mut out, str_bytes("\r\n"));
        extend_bytes(&mut out, self.data.as_slice());
        proof {
            assert(out@ =~= wire_bytes(
                self.code,
                pair_views(self.headers@),
                self.content_type@,
                self.data@,
            ));
        }
        out
    }
}

/// The body of a status-and-description page.
pub open spec fn html_page_bytes(code: u16, desc: Seq<u8>) -> Seq<u8> {
    bytes_of_str("<html><body><h1>"@) + dec_bytes_spec(code as nat) + bytes_of_str(" "@) + desc
        + bytes_of_str("</h1></body></html>"@)
}

/// Build the page body of `html_page_bytes`.
fn html_page(code: u16, description: &str) -> (r: Vec<u8>)
    ensures
        r@ == html_page_bytes(code, description.spec_bytes()),
{
    proof {
        reveal_strlit("<html><body><h1>");
        reveal_strlit(" ");
        reveal_strlit("</h1></body></html>");
        assert(vstd::utf8::is_ascii_chars("<html><body><h1>"@));
        assert(vstd::utf8::is_ascii_chars(" "@));
        assert(vstd::utf8::is_ascii_chars("</h1></body></html>"@));
    }
    let mut body: Vec<u8> = Vec::new();
    extend_bytes(&mut body, str_bytes("<html><body><h1>"));
    let mut digits = dec_of(code as usize);
    body.append(&mut digits);
    extend_bytes(&mut body, str_bytes(" "));
    extend_bytes(&mut body, description.as_bytes());
    extend_bytes(&mut body, str_bytes("</h1></body></html>"));
    proof {
        assert(body@ =~= html_page_bytes(code, description.spec_bytes()));
    }
    body
}

/// Declares the JSON library's value type, carried through opaquely.
#[verifier::external_type_specification]
#[verifier::external_body]
pub struct ExValue(serde_json::Value);

/// What the JSON library renders a value as. Relied on to depend on the
/// value alone.
pub uninterp spec fn json_text_of(v: serde_json::Value) -> Seq<char>;

/// Relies on `serde_json::to_string`: renders a JSON value to text, a
/// function of the value alone. Map keys are strings and numbers are finite
/// by construction, so writing a `Value` to an in-memory string does not
/// fail; the error arm only converts a failure to its display text.
#[verifier::external_body]
fn json_to_string(v: &serde_json::Value) -> (r: Result<String, String>)
    ensures
        r is Ok,
        r matches Ok(s) ==> s@ == json_text_of(*v),
{
    match serde_json::to_string(v) {
        Ok(s) => Ok(s),
        Err(e) => Err(e.to_string()),
    }
}

/// Law: the wire header list of a response whose builder kept names unique
/// still holds each name at most once, and always resolves `content-type`
/// and `content-length` — so each reaches the wire exactly once.
pub proof fn lemma_out_headers_exactly_once(hs: Seq<(Seq<u8>, Seq<u8>)>, ct: Seq<u8>, dlen: nat)
    requires
        entries_unique_ci(hs),
    ensures
        entries_unique_ci(out_headers(hs, ct, dlen)),
        assoc_ci(out_headers(hs, ct, dlen), bytes_of_str("content-type"@)) is Some,
        assoc_ci(out_headers(hs, ct, dlen), bytes_of_str("content-length"@)) is Some,
{
    reveal_strlit("content-type");
    reveal_strlit("content-length");
    let ctk = bytes_of_str("content-type"@);
    let clk = bytes_of_str("content-length"@);
    assert(ctk.len() == 12);
    assert(lower_bytes(ctk).len() == 12);
    assert(lower_bytes(clk).len() == 14);
    let cte = (ctk, ct);
    let cle = (clk, dec_bytes_spec(dlen));
    if assoc_ci(hs, ctk) is Some {
        if assoc_ci(hs, clk) is Some {
        } else {
            lemma_push_absent_unique(hs, clk, dec_bytes_spec(dlen));
            lemma_assoc_ci_push(hs, clk, dec_bytes_spec(dlen), ctk);
            lemma_assoc_ci_push(hs, clk, dec_bytes_spec(dlen), clk);
        }
    } else {
        let h1 = hs.push(cte);
        lemma_push_absent_unique(hs, ctk, ct);
        lemma_assoc_ci_push(hs, ctk, ct, ctk);
        lemma_assoc_ci_push(hs, ctk, ct, clk);
        if assoc_ci(hs, clk) is Some {
        } else {
            lemma_push_absent_unique(h1, clk, dec_bytes_spec(dlen));
            lemma_assoc_ci_push(h1, clk, dec_bytes_spec(dlen), ctk);
            lemma_assoc_ci_push(h1, clk, dec_bytes_spec(dlen), clk);
        }
    }
}

} // verus!
