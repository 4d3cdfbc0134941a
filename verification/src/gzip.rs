//! Decompression of traces that come gzip-compressed.

use flate2::read::GzDecoder;
use vstd::prelude::*;

verus! {

/// What `flate2` decompresses the bytes to, read to the end as one gzip
/// stream; nothing where the bytes are no such stream.
pub uninterp spec fn gunzipped(bytes: Seq<u8>) -> Option<Seq<u8>>;

/// `GzDecoder::new` over the bytes, read to its end with
/// `Read::read_to_end`: the decompressed bytes, or nothing where reading
/// fails.
#[verifier::external_body]
pub(crate) fn gunzip(bytes: Vec<u8>) -> (r: Option<Vec<u8>>)
    ensures
        r is Some == gunzipped(bytes@) is Some,
        r is Some ==> r.unwrap()@ == gunzipped(bytes@).unwrap(),
{
    let mut decoded = Vec::new();
    let read = std::io::Read::read_to_end(&mut GzDecoder::new(std::io::Cursor::new(bytes)), &mut decoded);
    read.ok().map(|_| decoded)
}

/// How the bytes of a trace are encoded.
#[derive(Copy, Clone, Debug, PartialEq, Eq, Structural)]
pub enum Encoding {
    Uncompressed,
    Gzip,
}

/// The bytes of the trace that the given bytes encode.
pub open spec fn decoded(bytes: Seq<u8>, encoding: Encoding) -> Option<Seq<u8>> {
    match encoding {
        Encoding::Uncompressed => Some(bytes),
        Encoding::Gzip => gunzipped(bytes),
    }
}

/// The bytes of the trace that the given bytes encode.
pub fn decode(bytes: Vec<u8>, encoding: Encoding) -> (r: Option<Vec<u8>>)
    ensures
        r is Some == decoded(bytes@, encoding) is Some,
        r is Some ==> r.unwrap()@ == decoded(bytes@, encoding).unwrap(),
{
    match encoding {
        Encoding::Uncompressed => Some(bytes),
        Encoding::Gzip => gunzip(bytes),
    }
}

} // verus!
