//! Server configuration and the per-connection decision logic: how the read
//! accumulator grows until a request is framed, what each read outcome means
//! for the connection, and whether a connection stays open after a response.

use vstd::prelude::*;

use crate::request::Request;
use crate::text::{
    assoc_ci, bytes_of_str, extend_bytes, find_sub, find_sub_slice, lower_bytes, lower_vec,
    pair_views, slice_eq_bytes, str_bytes,
};

verus! {

broadcast use vstd::string::group_string_axioms;

/// The engine's configuration: listening port, which compression algorithms
/// are enabled (zstd, brotli, gzip, in that order), and the directory static
/// content is served from.
pub struct WebrsHttp {
    pub port: u16,
    pub compression: (bool, bool, bool),
    pub content_dir: String,
}

impl WebrsHttp {
    pub fn new(port: u16, compression: (bool, bool, bool), content_dir: String) -> (r: WebrsHttp)
        ensures
            r.port == port,
            r.compression == compression,
            r.content_dir@ == content_dir@,
    {
        WebrsHttp { port, compression, content_dir }
    }

    pub fn get_compression(&self) -> (r: (bool, bool, bool))
        ensures
            r == self.compression,
    {
        self.compression
    }

    pub fn get_content_dir(&self) -> (r: String)
        ensures
            r@ == self.content_dir@,
    {
        self.content_dir.clone()
    }

    pub fn get_port(&self) -> (r: u16)
        ensures
            r == self.port,
    {
        self.port
    }
}

/// A full request is framed once the accumulator holds CR-LF-CR-LF.
pub open spec fn has_terminator(s: Seq<u8>) -> bool {
    find_sub(s, bytes_of_str("\r\n\r\n"@)) is Some
}

/// What one read on the connection produced.
pub enum ReadEvent {
    /// Bytes arrived.
    Data(Vec<u8>),
    /// A zero-length read: the peer closed.
    Closed,
    /// A transient would-block condition.
    WouldBlock,
    /// Any other read error.
    Failed,
}

/// What the connection loop does next.
#[derive(Debug, PartialEq, Eq, Structural, Clone, Copy)]
pub enum ReadDirective {
    /// Keep reading: no full request is framed yet.
    NeedMore,
    /// The accumulator frames a full request: parse and dispatch it.
    FrameReady,
    /// Wait briefly, then read again.
    RetryLater,
    /// Release the connection without a response.
    CloseNow,
}

/// One step of the reading state: append whatever arrived and decide how to
/// go on. Arrived bytes are appended; the peer closing or a hard read error
/// closes the connection; a would-block condition asks for a bounded retry.
pub fn read_step(acc: &mut Vec<u8>, ev: ReadEvent) -> (r: ReadDirective)
    ensures
        match ev {
            ReadEvent::Data(d) => final(acc)@ == old(acc)@ + d@ && (r
                == ReadDirective::FrameReady <==> has_terminator(final(acc)@)) && (r
                == ReadDirective::FrameReady || r == ReadDirective::NeedMore),
            ReadEvent::Closed => final(acc)@ == old(acc)@ && r == ReadDirective::CloseNow,
            ReadEvent::WouldBlock => final(acc)@ == old(acc)@ && r == ReadDirective::RetryLater,
            ReadEvent::Failed => final(acc)@ == old(acc)@ && r == ReadDirective::CloseNow,
        },
{
    match ev {
        ReadEvent::Data(d) => {
            extend_bytes(acc, d.as_slice());
            proof {
                reveal_strlit("\r\n\r\n");
                assert(vstd::utf8::is_ascii_chars("\r\n\r\n"@));
                assert(bytes_of_str("\r\n\r\n"@).len() == 4);
            }
            match find_sub_slice(acc.as_slice(), str_bytes("\r\n\r\n")) {
                Some(_) => ReadDirective::FrameReady,
                None => ReadDirective::NeedMore,
            }
        },
        ReadEvent::Closed => ReadDirective::CloseNow,
        ReadEvent::WouldBlock => ReadDirective::RetryLater,
        ReadEvent::Failed => ReadDirective::CloseNow,
    }
}

/// A connection stays open only for a `connection` header whose value is
/// `keep-alive` up to ASCII case.
pub open spec fn keep_alive_spec(hs: Seq<(Seq<u8>, Seq<u8>)>) -> bool {
    match assoc_ci(hs, bytes_of_str("connection"@)) {
        Some(v) => lower_bytes(v) == bytes_of_str("keep-alive"@),
        None => false,
    }
}

/// Decide whether the connection serves another request after this one.
pub fn keep_alive(req: &Request) -> (r: bool)
    ensures
        r == keep_alive_spec(pair_views(req.headers@)),
{
    proof {
        reveal_strlit("connection");
        reveal_strlit("keep-alive");
        assert(vstd::utf8::is_ascii_chars("connection"@));
        assert(vstd::utf8::is_ascii_chars("keep-alive"@));
    }
    match req.header_value(str_bytes("connection")) {
        Some(v) => {
            let lv = lower_vec(v.as_slice());
            slice_eq_bytes(lv.as_slice(), str_bytes("keep-alive"))
        },
        None => false,
    }
}

} // verus!
