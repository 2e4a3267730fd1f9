//! The DEFLATE codec, reached through `flate2`.

use vstd::prelude::*;

verus! {

/// What the codec makes of `data` at its default compression level: the
/// zlib-wrapped DEFLATE stream, or nothing where the encoder reports an
/// error.
pub uninterp spec fn zlib_stream(data: Seq<u8>) -> Option<Seq<u8>>;

/// Whether a vector, if there is one, holds the bytes that `expected` names.
pub open spec fn holds(r: Option<Vec<u8>>, expected: Option<Seq<u8>>) -> bool {
    match r {
        Some(v) => expected == Some(v@),
        None => expected is None,
    }
}

/// Compresses `data` with `flate2::write::ZlibEncoder` at
/// `Compression::default()`, collecting the stream in memory. The encoder
/// reads nothing but its input and writes to memory, so what it yields, the
/// stream or an error, is a function of the input alone; it is named
/// `zlib_stream(data)`. Nothing is claimed of the stream's length or
/// content. `None` stands for an error reported by the encoder.
#[verifier::external_body]
pub(crate) fn zlib_compress(data: &[u8]) -> (r: Option<Vec<u8>>)
    ensures
        holds(r, zlib_stream(data@)),
{
    let mut encoder = flate2::write::ZlibEncoder::new(Vec::new(), flate2::Compression::default());
    match std::io::Write::write_all(&mut encoder, data) {
        Ok(()) => encoder.finish().ok(),
        Err(_) => None,
    }
}

} // verus!
