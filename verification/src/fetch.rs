//! Decoding one retrieved archive: the remote service answers with a
//! gzip-compressed payload; the bytes to persist are its decompression.
//! The network transfer itself happens outside this crate; this module owns
//! what is computed from the transferred bytes.

use vstd::prelude::*;

verus! {

/// Why one archive could not be retrieved. Each value is scoped to a single
/// archive and never aborts the sibling fetches.
#[derive(Clone, Copy, PartialEq, Eq, Structural, Debug)]
pub enum RetrievalError {
    /// The transfer itself failed.
    Network,
    /// The service answered without the payload.
    Status,
    /// The payload is not a well-formed gzip stream.
    Decompress,
}

/// What decompressing a gzip stream yields: the decompressed bytes, or
/// nothing for a malformed stream. A function of the input bytes alone.
pub uninterp spec fn gunzip_of(compressed: Seq<u8>) -> Option<Seq<u8>>;

/// Relies on flate2's `read::GzDecoder`, driven by `Read::read_to_end`:
/// decoding an in-memory gzip stream reads nothing but the input bytes, so
/// its outcome — the decompressed bytes, or a failure on a malformed
/// stream — is a function of them alone.
#[verifier::external_body]
fn gunzip(compressed: &Vec<u8>) -> (r: Option<Vec<u8>>)
    ensures
        match r {
            Some(v) => gunzip_of(compressed@) == Some(v@),
            None => gunzip_of(compressed@) is None,
        },
{
    let mut out: Vec<u8> = Vec::new();
    let mut decoder = flate2::read::GzDecoder::new(compressed.as_slice());
    match std::io::Read::read_to_end(&mut decoder, &mut out) {
        Ok(_) => Some(out),
        Err(_) => None,
    }
}

/// Decode one archive's compressed payload into the bytes to persist: the
/// full decompression on success, and a `Decompress` error, scoped to this
/// archive, exactly when the payload is not a well-formed gzip stream.
pub fn decode_archive(compressed: &Vec<u8>) -> (r: Result<Vec<u8>, RetrievalError>)
    ensures
        r is Ok <==> gunzip_of(compressed@) is Some,
        r is Ok ==> Some(r->Ok_0@) == gunzip_of(compressed@),
        r is Err ==> r->Err_0 == RetrievalError::Decompress,
{
    match gunzip(compressed) {
        Some(v) => Ok(v),
        None => Err(RetrievalError::Decompress),
    }
}

} // verus!
