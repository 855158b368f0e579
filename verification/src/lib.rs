//! A codec for Erlang's External Term Format: bytes to terms and terms to
//! bytes.
//!
//! [`term`] holds the terms, [`reader`] the cursor that the decoder reads
//! through, [`decoder`] and [`encoder`] the two directions. What the bytes
//! of a term mean is written down in [`format`], what a term looks like as
//! bytes in [`wire`]; the decoder and the encoder are proved to compute
//! exactly these. [`laws`] states what holds of the two together.
//! [`deflate`] walks the compressed part of a message before [`zlib`]
//! inflates it.

use vstd::prelude::*;

pub mod consts;
pub mod decoder;
pub mod deflate;
pub mod encoder;
pub mod endian;
pub mod errors;
pub mod format;
pub mod helpers;
pub mod integer;
pub mod laws;
pub mod reader;
pub mod roundtrip;
pub mod term;
pub mod text;
pub mod truncation;
pub mod wire;
pub mod zlib;

use crate::consts::ETF_VERSION_TAG;
use crate::decoder::{decodes_message, Decoder};
use crate::encoder::Encoder;
use crate::errors::{CodecError, CodecResult};
use crate::format::{decoded_message, decoded_with_rest, DecodedMessage};
use crate::helpers::{
    atom_opt_message, atom_opt_of, byte_str_opt_message, byte_str_opt_of, opt_value,
    AtomRepresentation, ByteStringRepresentation,
};
use crate::reader::Reader;
use crate::term::Term;
use crate::wire::{encoded_term, framed};

verus! {

/// That a call which reads its options and then decodes went as it must:
/// a bad option is reported, the one for atoms first, and with good
/// options the outcome is what `decoded` says for them.
pub open spec fn decodes_with_options(
    atom: Option<&str>,
    byte_string: Option<&str>,
    decoded: spec_fn(AtomRepresentation, ByteStringRepresentation) -> DecodedMessage,
    r: CodecResult<(Term, Vec<u8>)>,
) -> bool {
    match atom_opt_of(opt_value(atom, "Atom"@)) {
        None => r matches Err(CodecError::BadOptions { txt }) && txt@ == atom_opt_message(
            opt_value(atom, "Atom"@),
        ),
        Some(a) => match byte_str_opt_of(opt_value(byte_string, "str"@)) {
            None => r matches Err(CodecError::BadOptions { txt }) && txt@ == byte_str_opt_message(
                opt_value(byte_string, "str"@),
            ),
            Some(s) => decodes_message(decoded(a, s), r),
        },
    }
}

/// Decodes a message: the version byte and a term, which may be
/// compressed. Hands out the term and the bytes behind it. The options
/// are those of [`Decoder::new`].
pub fn binary_to_term(b: &[u8], atom: Option<&str>, byte_string: Option<&str>) -> (r: CodecResult<
    (Term, Vec<u8>),
>)
    ensures
        decodes_with_options(
            atom,
            byte_string,
            |a: AtomRepresentation, s: ByteStringRepresentation| decoded_message(a, s, b@),
            r,
        ),
{
    let mut dec_state = Decoder::new(atom, byte_string)?;
    let mut reader = Reader::new(b);
    assert(reader.remaining() =~= b@);
    dec_state.decode_with_131tag(&mut reader)
}

/// Decodes a term that stands without a version byte. Hands out the term
/// and the bytes behind it. The options are those of [`Decoder::new`].
pub fn binary_to_term_2(b: &[u8], atom: Option<&str>, byte_string: Option<&str>) -> (r:
    CodecResult<(Term, Vec<u8>)>)
    ensures
        decodes_with_options(
            atom,
            byte_string,
            |a: AtomRepresentation, s: ByteStringRepresentation| decoded_with_rest(a, s, b@, 0),
            r,
        ),
{
    let mut dec_state = Decoder::new(atom, byte_string)?;
    let mut reader = Reader::new(b);
    dec_state.decode_and_wrap(&mut reader)
}

/// Encodes a term as a message: the version byte and the term.
pub fn term_to_binary(term: &Term) -> (r: CodecResult<Vec<u8>>)
    ensures
        match framed(seq![ETF_VERSION_TAG], encoded_term(term@)) {
            Ok(bytes) => r matches Ok(data) && data@ == bytes,
            Err(e) => r == Err::<Vec<u8>, CodecError>(e),
        },
{
    let mut enc_state = Encoder::new();
    enc_state.data.push(ETF_VERSION_TAG);
    enc_state.encode(term)?;
    Ok(enc_state.data)
}

/// Encodes a term without a version byte.
pub fn term_to_binary_2(term: &Term) -> (r: CodecResult<Vec<u8>>)
    ensures
        match encoded_term(term@) {
            Ok(bytes) => r matches Ok(data) && data@ == bytes,
            Err(e) => r == Err::<Vec<u8>, CodecError>(e),
        },
{
    let mut enc_state = Encoder::new();
    enc_state.encode(term)?;
    assert(enc_state.data@ =~= encoded_term(term@)->Ok_0);
    Ok(enc_state.data)
}

} // verus!
