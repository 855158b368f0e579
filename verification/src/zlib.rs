//! Inflating the compressed part of a message.

use vstd::prelude::*;
use std::io::Read;
use crate::deflate::safe_to_inflate;

verus! {

/// The error of std's readers, carried from the decoder to the caller
/// without a look inside.
#[verifier::external_type_specification]
#[verifier::external_body]
pub struct ExIoError(std::io::Error);

/// What the zlib decoder makes of a whole stream: the bytes that it
/// inflates to, or nothing where it reports the stream as broken.
pub uninterp spec fn zlib_inflated(stream: Seq<u8>) -> Option<Seq<u8>>;

/// Runs `compress::zlib::Decoder` over `stream` with `Read::read_to_end`,
/// until the decoder reports the end of the stream or an error. The
/// contract is believed, not proved. It claims that the call hands out
/// the bytes that [`zlib_inflated`] has for the stream, and an error where
/// it has none: that is, that what the decoder makes of a stream depends
/// on the bytes of the stream alone. It claims nothing of what the bytes
/// inflate to.
///
/// The decoder indexes past its tables, and panics, in two places: where a
/// block with the fixed codes uses the length code 286, and where the
/// header of a block with codes of its own repeats a code length past
/// entry 315 of the table of lengths. The `requires` leaves both out:
/// [`safe_to_inflate`] walks the blocks of the stream as the decoder does,
/// bit by bit and code by code, and is false of a stream on which the walk
/// meets one of the two. Where the decoder stops before the walk does,
/// because it reports the stream as broken or takes a block without bytes
/// for the end, it reads no further and so meets neither. A stream of
/// more than [`MAX_STREAM`](crate::deflate::MAX_STREAM) bytes is not
/// walked, and so is left out as well.
#[verifier::external_body]
pub(crate) fn inflate(stream: &[u8]) -> (r: Result<Vec<u8>, std::io::Error>)
    requires
        safe_to_inflate(stream@),
    ensures
        match r {
            Ok(data) => zlib_inflated(stream@) == Some(data@),
            Err(_) => zlib_inflated(stream@) is None,
        },
{
    let mut data = Vec::new();
    match compress::zlib::Decoder::new(stream).read_to_end(&mut data) {
        Ok(_) => Ok(data),
        Err(e) => Err(e),
    }
}

} // verus!
