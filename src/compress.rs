use vstd::prelude::*;
use crate::error::Error;

verus! {

/// The zlib stream that flate2's encoder, at its default level, makes of `b`.
pub uninterp spec fn zlib_encoded(b: Seq<u8>) -> Seq<u8>;

/// What flate2's zlib decoder makes of `b`: the decoded bytes, or `None`
/// where the decoder refuses the stream.
pub uninterp spec fn zlib_decoded(b: Seq<u8>) -> Option<Seq<u8>>;

/// What flate2's gzip decoder makes of `b`: the decoded bytes, or `None`
/// where the decoder refuses the stream.
pub uninterp spec fn gzip_decoded(b: Seq<u8>) -> Option<Seq<u8>>;

/// The MD5 digest of `b`.
pub uninterp spec fn md5_of(b: Seq<u8>) -> Seq<u8>;

/// Relies on flate2::write::ZlibEncoder (default level) writing into a
/// `Vec`, which never refuses a write: the output is the zlib stream of the
/// input, which the zlib decoder turns back into the input.
#[verifier::external_body]
pub(crate) fn zlib_compress(data: &[u8]) -> (r: Result<Vec<u8>, Error>)
    ensures
        r is Ok,
        r is Ok ==> r->Ok_0@ == zlib_encoded(data@),
        r is Ok ==> zlib_decoded(r->Ok_0@) == Some(data@),
{
    let mut enc = flate2::write::ZlibEncoder::new(Vec::new(), flate2::Compression::default());
    match std::io::Write::write_all(&mut enc, data) {
        Ok(()) => enc.finish().map_err(|_| Error::Compression),
        Err(_) => Err(Error::Compression),
    }
}

/// Relies on flate2::read::ZlibDecoder read to the end: the outcome depends
/// on the input bytes alone.
#[verifier::external_body]
pub(crate) fn zlib_decompress(data: &[u8]) -> (r: Result<Vec<u8>, Error>)
    ensures
        r is Ok <==> zlib_decoded(data@) is Some,
        r is Ok ==> r->Ok_0@ == zlib_decoded(data@)->0,
        r is Err ==> r->Err_0 == Error::Decompression,
{
    let mut out = Vec::new();
    let mut dec = flate2::read::ZlibDecoder::new(data);
    match std::io::Read::read_to_end(&mut dec, &mut out) {
        Ok(_) => Ok(out),
        Err(_) => Err(Error::Decompression),
    }
}

/// Relies on flate2::read::GzDecoder read to the end: the outcome depends on
/// the input bytes alone.
#[verifier::external_body]
pub(crate) fn gzip_decompress(data: &[u8]) -> (r: Result<Vec<u8>, Error>)
    ensures
        r is Ok <==> gzip_decoded(data@) is Some,
        r is Ok ==> r->Ok_0@ == gzip_decoded(data@)->0,
        r is Err ==> r->Err_0 == Error::Decompression,
{
    let mut out = Vec::new();
    let mut dec = flate2::read::GzDecoder::new(data);
    match std::io::Read::read_to_end(&mut dec, &mut out) {
        Ok(_) => Ok(out),
        Err(_) => Err(Error::Decompression),
    }
}

/// Relies on md5::compute: the 16-byte digest of the input.
#[verifier::external_body]
pub(crate) fn md5_digest(data: &[u8]) -> (r: [u8; 16])
    ensures
        r@ == md5_of(data@),
        r@.len() == 16,
{
    md5::compute(data).0
}

} // verus!
