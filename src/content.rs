//! The content store: one text buffer that index spans address by byte
//! offset and length. Stored plain or gzip-compressed.
use vstd::prelude::*;
use vstd::utf8::*;
use vstd::string::StringSliceAdditionalSpecFns;
use crate::error::ArchiveError;
use crate::text::{from_utf8, utf8};

verus! {

/// What gzip decompression of a whole stream yields; `None` for a malformed stream.
pub uninterp spec fn gunzip_of(b: Seq<u8>) -> Option<Seq<u8>>;

/// Relies on `flate2::read::GzDecoder` read to the end: the decompressed
/// bytes of the stream, or an error for a malformed one.
#[verifier::external_body]
fn gunzip(b: &[u8]) -> (r: Option<Vec<u8>>)
    ensures
        r is Some <==> gunzip_of(b@) is Some,
        r is Some ==> r->0@ == gunzip_of(b@)->0,
{
    let mut out: Vec<u8> = Vec::new();
    match std::io::Read::read_to_end(&mut flate2::read::GzDecoder::new(b), &mut out) {
        Ok(_) => Some(out),
        Err(_) => None,
    }
}

/// Data that starts with the gzip magic number.
pub open spec fn is_gzip(b: Seq<u8>) -> bool {
    b.len() >= 2 && b[0] == 0x1f && b[1] == 0x8b
}

/// The bytes of the stored content: decompressed when gzip, else as stored.
pub open spec fn stored_bytes(raw: Seq<u8>) -> Option<Seq<u8>> {
    if is_gzip(raw) {
        gunzip_of(raw)
    } else {
        Some(raw)
    }
}

/// The text held by a content file; `None` when it cannot be decoded.
pub open spec fn content_of(raw: Seq<u8>) -> Option<Seq<char>> {
    match stored_bytes(raw) {
        Some(b) => if valid_utf8(b) {
            Some(decode_utf8(b))
        } else {
            None
        },
        None => None,
    }
}

/// The span `[off, off + len)` lies in `c` and starts and ends on character boundaries.
pub open spec fn span_ok(c: Seq<u8>, off: int, len: int) -> bool {
    &&& 0 <= off
    &&& 0 <= len
    &&& off + len <= c.len()
    &&& is_char_boundary(c, off)
    &&& is_char_boundary(c.subrange(off, c.len() as int), len)
}

/// The text of a span.
pub open spec fn span_text(c: Seq<u8>, off: int, len: int) -> Seq<char> {
    decode_utf8(c.subrange(off, off + len))
}

/// The decoded content of an archive.
#[derive(Debug)]
pub struct Dict {
    contents: String,
}

impl Dict {
    /// The content bytes.
    pub closed spec fn bytes(&self) -> Seq<u8> {
        utf8(self.contents@)
    }

    pub closed spec fn text(&self) -> Seq<char> {
        self.contents@
    }

    pub proof fn lemma_bytes(&self)
        ensures
            self.bytes() == utf8(self.text()),
            valid_utf8(self.bytes()),
    {
        encode_utf8_valid_utf8(self.contents@);
    }

    /// Decodes a content file, decompressing it first when it is gzip data.
    pub fn new(raw: Vec<u8>) -> (r: Result<Dict, ArchiveError>)
        ensures
            r is Ok <==> content_of(raw@) is Some,
            r is Ok ==> r->Ok_0.text() == content_of(raw@)->0,
            r is Err ==> r->Err_0 is ContentDecode,
    {
        let bytes = if raw.len() >= 2 && raw[0] == 0x1f && raw[1] == 0x8b {
            match gunzip(raw.as_slice()) {
                Some(b) => b,
                None => {
                    return Err(ArchiveError::ContentDecode);
                },
            }
        } else {
            raw
        };
        match from_utf8(bytes) {
            Some(contents) => Ok(Dict { contents }),
            None => Err(ArchiveError::ContentDecode),
        }
    }

    pub fn len(&self) -> (r: usize)
        ensures
            r == self.bytes().len(),
    {
        self.contents.as_str().as_bytes().len()
    }

    /// The text of the span `[offset, offset + size)`, or `None` when the
    /// span leaves the buffer or cuts a character.
    pub fn get(&self, offset: u64, size: u64) -> (r: Option<String>)
        ensures
            r is Some <==> span_ok(self.bytes(), offset as int, size as int),
            r is Some ==> r->0@ == span_text(self.bytes(), offset as int, size as int),
    {
        let c = self.contents.as_str();
        let n = c.as_bytes().len();
        if offset > n as u64 || size > n as u64 - offset {
            return None;
        }
        let o = offset as usize;
        let sz = size as usize;
        if !c.is_char_boundary(o) {
            return None;
        }
        let (_, rest) = c.split_at(o);
        if !rest.is_char_boundary(sz) {
            return None;
        }
        let (piece, _) = rest.split_at(sz);
        let r = piece.to_owned();
        proof {
            assert(piece.spec_bytes() =~= self.bytes().subrange(offset as int, offset + size));
            encode_utf8_decode_utf8(piece@);
        }
        Some(r)
    }
}

} // verus!
