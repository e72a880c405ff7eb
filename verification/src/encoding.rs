//! Content-encoding negotiation: read the client's `accept-encoding`
//! tokens, pick the preferred supported algorithm that the configuration
//! enables, compress the body in one pass, and record the choice in a
//! `content-encoding` header.

use std::io::Read;

use vstd::prelude::*;
use vstd::string::StringSliceAdditionalSpecFns;

use crate::dispatch::Handlers;
use crate::request::Request;
use crate::response::Response;
use crate::server::WebrsHttp;
use crate::text::{
    assoc_ci, bytes_of_str, contains_token, pair_views, split_slice, split_sub, str_bytes,
    upsert_ci,
};

verus! {

broadcast use vstd::string::group_string_axioms;

/// The closed set of response encodings, in preference order.
#[derive(Debug, PartialEq, Eq, Structural, Clone, Copy)]
pub enum ContentEncoding {
    Zstd,
    Brotli,
    Gzip,
}

/// What `zstd` compression produces for a body. Relied on to depend on the
/// input bytes alone.
pub uninterp spec fn zstd_of(data: Seq<u8>) -> Seq<u8>;

/// What `brotli` compression produces for a body. Relied on to depend on
/// the input bytes alone.
pub uninterp spec fn brotli_of(data: Seq<u8>) -> Seq<u8>;

/// What `gzip` compression produces for a body. Relied on to depend on the
/// input bytes alone.
pub uninterp spec fn gzip_of(data: Seq<u8>) -> Seq<u8>;

/// Relies on `zstd::encode_all` at a low-to-moderate level: one-pass
/// compression whose output is a function of the input bytes.
#[verifier::external_body]
fn zstd_bytes(data: &[u8]) -> (r: Vec<u8>)
    ensures
        r@ == zstd_of(data@),
{
    zstd::encode_all(data, 3).unwrap()
}

/// Relies on `brotli::CompressorReader` at a high-quality, large-window
/// setting: one-pass compression whose output is a function of the input.
#[verifier::external_body]
fn brotli_bytes(data: &[u8]) -> (r: Vec<u8>)
    ensures
        r@ == brotli_of(data@),
{
    let mut buf: Vec<u8> = Vec::new();
    let mut e = brotli::CompressorReader::new(data, 4096, 11, 21);
    let _ = e.read_to_end(&mut buf);
    buf
}

/// Relies on `flate2::bufread::GzEncoder` at the default ("fast trade-off")
/// level: one-pass compression whose output is a function of the input.
#[verifier::external_body]
fn gzip_bytes(data: &[u8]) -> (r: Vec<u8>)
    ensures
        r@ == gzip_of(data@),
{
    let mut buf: Vec<u8> = Vec::new();
    let mut e = flate2::bufread::GzEncoder::new(data, flate2::Compression::default());
    let _ = e.read_to_end(&mut buf);
    buf
}

/// The client's tokens: the header value split on `", "`.
pub open spec fn accept_tokens(value: Seq<u8>) -> Seq<Seq<u8>> {
    split_sub(value, bytes_of_str(", "@))
}

/// The encoding that wins the negotiation: the first of zstd, brotli, gzip
/// — the fixed preference order — that the client offered and the
/// configuration enables. Unrecognized tokens never win.
pub open spec fn chosen_encoding(
    tokens: Seq<Seq<u8>>,
    zstd_on: bool,
    brotli_on: bool,
    gzip_on: bool,
) -> Option<ContentEncoding> {
    if tokens.contains(bytes_of_str("zstd"@)) && zstd_on {
        Some(ContentEncoding::Zstd)
    } else if tokens.contains(bytes_of_str("br"@)) && brotli_on {
        Some(ContentEncoding::Brotli)
    } else if tokens.contains(bytes_of_str("gzip"@)) && gzip_on {
        Some(ContentEncoding::Gzip)
    } else {
        None
    }
}

/// The body an encoding produces.
pub open spec fn encoded_body(e: ContentEncoding, data: Seq<u8>) -> Seq<u8> {
    match e {
        ContentEncoding::Zstd => zstd_of(data),
        ContentEncoding::Brotli => brotli_of(data),
        ContentEncoding::Gzip => gzip_of(data),
    }
}

/// The token an encoding is named by on the wire.
pub open spec fn encoding_token(e: ContentEncoding) -> Seq<char> {
    match e {
        ContentEncoding::Zstd => "zstd"@,
        ContentEncoding::Brotli => "br"@,
        ContentEncoding::Gzip => "gzip"@,
    }
}

/// What negotiation does to a response, given the request's header map and
/// the configuration: nothing without an `accept-encoding` header or a
/// winning encoding; otherwise the body is compressed once and exactly one
/// `content-encoding` header records the choice.
pub open spec fn negotiated(
    hs: Seq<(Seq<u8>, Seq<u8>)>,
    compression: (bool, bool, bool),
    before: Response,
    after: Response,
) -> bool {
    match assoc_ci(hs, bytes_of_str("accept-encoding"@)) {
        None => after == before,
        Some(v) => match chosen_encoding(
            accept_tokens(v),
            compression.0,
            compression.1,
            compression.2,
        ) {
            None => after == before,
            Some(e) => {
                &&& after.code == before.code
                &&& after.content_type == before.content_type
                &&& after.data@ == encoded_body(e, before.data@)
                &&& pair_views(after.headers@) == upsert_ci(
                    pair_views(before.headers@),
                    bytes_of_str("content-encoding"@),
                    bytes_of_str(encoding_token(e)),
                )
            },
        },
    }
}

impl Handlers {
    /// Apply content-encoding negotiation to a response.
    pub fn handle_compression(server: &WebrsHttp, req: &Request, res: Response) -> (r: Response)
        ensures
            negotiated(pair_views(req.headers@), server.compression, res, r),
            res.wf() ==> r.wf(),
    {
        proof {
            reveal_strlit("accept-encoding");
            reveal_strlit(", ");
            reveal_strlit("zstd");
            reveal_strlit("br");
            reveal_strlit("gzip");
            reveal_strlit("content-encoding");
            assert(vstd::utf8::is_ascii_chars("accept-encoding"@));
            assert(vstd::utf8::is_ascii_chars(", "@));
            assert(bytes_of_str(", "@).len() == 2);
            assert(vstd::utf8::is_ascii_chars("zstd"@));
            assert(vstd::utf8::is_ascii_chars("br"@));
            assert(vstd::utf8::is_ascii_chars("gzip"@));
            assert(vstd::utf8::is_ascii_chars("content-encoding"@));
            vstd::utf8::is_ascii_chars_encode_utf8("content-encoding"@);
            assert(("content-encoding").spec_bytes() =~= bytes_of_str("content-encoding"@));
            vstd::utf8::is_ascii_chars_encode_utf8("zstd"@);
            assert(("zstd").spec_bytes() =~= bytes_of_str("zstd"@));
            vstd::utf8::is_ascii_chars_encode_utf8("br"@);
            assert(("br").spec_bytes() =~= bytes_of_str("br"@));
            vstd::utf8::is_ascii_chars_encode_utf8("gzip"@);
            assert(("gzip").spec_bytes() =~= bytes_of_str("gzip"@));
        }
        let value = match req.header_value(str_bytes("accept-encoding")) {
            None => {
                return res;
            },
            Some(v) => v,
        };
        let tokens = split_slice(value.as_slice(), str_bytes(", "));
        let (zstd_on, brotli_on, gzip_on) = server.get_compression();
        let mut res = res;
        if contains_token(&tokens, str_bytes("zstd")) && zstd_on {
            let compressed = zstd_bytes(res.get_data().as_slice());
            res.set_data(compressed);
            res.add_header("content-encoding", "zstd");
            res
        } else if contains_token(&tokens, str_bytes("br")) && brotli_on {
            let compressed = brotli_bytes(res.get_data().as_slice());
            res.set_data(compressed);
            res.add_header("content-encoding", "br");
            res
        } else if contains_token(&tokens, str_bytes("gzip")) && gzip_on {
            let compressed = gzip_bytes(res.get_data().as_slice());
            res.set_data(compressed);
            res.add_header("content-encoding", "gzip");
            res
        } else {
            res
        }
    }
}

} // verus!
