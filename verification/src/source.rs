//! Input as it comes from a file: plain, or compressed with Zstandard.

use vstd::prelude::*;
use crate::error::Error;

verus! {

/// What a Zstandard stream decompresses to; nothing if the stream is
/// malformed.
pub uninterp spec fn zstd_decoded(bytes: Seq<u8>) -> Option<Seq<u8>>;

/// Calls `zstd::stream::decode_all` on the bytes.
///
/// Trusted: the outcome depends on the bytes alone. What zstd makes of them
/// is only given a name, `zstd_decoded`.
#[verifier::external_body]
fn zstd_decode(bytes: &Vec<u8>) -> (result: Result<Vec<u8>, std::io::Error>)
    ensures
        match result {
            Ok(plain) => zstd_decoded(bytes@) == Some(plain@),
            Err(_) => zstd_decoded(bytes@) is None,
        },
{
    zstd::stream::decode_all(bytes.as_slice())
}

/// The bytes that the parsers are to read: `bytes` themselves, or, if
/// `compressed` is set, what they decompress to. Malformed compressed input is
/// an I/O error.
pub fn open_input(bytes: Vec<u8>, compressed: bool) -> (result: Result<Vec<u8>, Error>)
    ensures
        !compressed ==> (result matches Ok(plain) && plain@ == bytes@),
        compressed ==> match result {
            Ok(plain) => zstd_decoded(bytes@) == Some(plain@),
            Err(error) => zstd_decoded(bytes@) is None && error is Io,
        },
{
    if compressed {
        match zstd_decode(&bytes) {
            Ok(plain) => Ok(plain),
            Err(error) => Err(Error::Io(error)),
        }
    } else {
        Ok(bytes)
    }
}

} // verus!
