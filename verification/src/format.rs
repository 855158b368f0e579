//! What the bytes of an encoded term mean: the decoding of a byte sequence,
//! as a mathematical function.

use vstd::prelude::*;
use vstd::utf8::{decode_utf8, encode_utf8, valid_utf8};
use crate::consts::{
    ETF_VERSION_TAG, TAG_ATOM_EXT, TAG_ATOM_UTF8_EXT, TAG_BINARY_EXT, TAG_BIT_BINARY_EXT,
    TAG_COMPRESSED, TAG_INT, TAG_LARGE_BIG_EXT, TAG_LARGE_TUPLE_EXT, TAG_LIST_EXT, TAG_MAP_EXT,
    TAG_NEWER_REF_EXT, TAG_NEW_FLOAT_EXT, TAG_NEW_FUN_EXT, TAG_NEW_PID_EXT, TAG_NEW_REF_EXT,
    TAG_NIL_EXT, TAG_PID_EXT, TAG_SMALL_ATOM_EXT, TAG_SMALL_ATOM_UTF8_EXT, TAG_SMALL_BIG_EXT,
    TAG_SMALL_TUPLE_EXT, TAG_SMALL_UINT, TAG_STRING_EXT,
};
use crate::endian::{be_i32_at, be_u16_at, be_u32_at, be_u64_at};
use crate::errors::{truncated, CodecError};
use crate::helpers::{AtomRepresentation, ByteStringRepresentation};
use crate::integer::{le_value, signed};
use crate::term::TermView;
use crate::deflate::safe_to_inflate;
use crate::zlib::zlib_inflated;

verus! {

/// The outcome of decoding one term: its value and the position behind it,
/// or the error.
pub type Decoded = Result<(TermView, int), CodecError>;

/// The outcome of decoding a run of terms: their values in order and the
/// position behind the last, or the first error.
pub type DecodedRun = Result<(Seq<TermView>, int), CodecError>;

/// The name of the atom that stands for boolean true.
pub open spec fn true_name() -> Seq<char> {
    seq!['t', 'r', 'u', 'e']
}

/// The name of the atom that stands for boolean false.
pub open spec fn false_name() -> Seq<char> {
    seq!['f', 'a', 'l', 's', 'e']
}

/// The name of the atom that stands for no value.
pub open spec fn undefined_name() -> Seq<char> {
    seq!['u', 'n', 'd', 'e', 'f', 'i', 'n', 'e', 'd']
}

/// The text whose characters have the given bytes as their code points.
pub open spec fn latin1_text(bytes: Seq<u8>) -> Seq<char> {
    Seq::new(bytes.len(), |i: int| bytes[i] as char)
}

/// The term that an atom of the given name decodes to.
pub open spec fn atom_term(atoms: AtomRepresentation, name: Seq<char>) -> TermView {
    if name == true_name() {
        TermView::Bool(true)
    } else if name == false_name() {
        TermView::Bool(false)
    } else if name == undefined_name() {
        TermView::Undefined
    } else {
        match atoms {
            AtomRepresentation::Bytes => TermView::Binary(encode_utf8(name)),
            AtomRepresentation::Str => TermView::Str(name),
            _ => TermView::Atom(name),
        }
    }
}

/// The position `end` where it lies between `from` and the end of `s`,
/// as the position behind a term that starts at `from` does; else `from`.
pub open spec fn onward(s: Seq<u8>, from: int, end: int) -> int {
    if from <= end <= s.len() {
        end
    } else {
        from
    }
}

/// Decodes what follows the tag of a one-byte unsigned integer.
pub open spec fn decoded_small_uint(s: Seq<u8>, pos: int) -> Decoded {
    if s.len() - pos < 1 {
        Err(truncated())
    } else {
        Ok((TermView::Integer(s[pos] as int), pos + 1))
    }
}

/// Decodes what follows the tag of a four-byte signed integer.
pub open spec fn decoded_int(s: Seq<u8>, pos: int) -> Decoded {
    if s.len() - pos < 4 {
        Err(truncated())
    } else {
        Ok((TermView::Integer(be_i32_at(s, pos)), pos + 4))
    }
}

/// Decodes what follows the tag of a float.
pub open spec fn decoded_float(s: Seq<u8>, pos: int) -> Decoded {
    if s.len() - pos < 8 {
        Err(truncated())
    } else {
        Ok((TermView::Float(be_u64_at(s, pos) as u64), pos + 8))
    }
}

/// Decodes what follows the tag of an atom: a length, of two bytes where
/// `wide` holds and else of one, and the name, in UTF-8 where `utf8` holds
/// and else with one byte for each character.
pub open spec fn decoded_atom(
    atoms: AtomRepresentation,
    s: Seq<u8>,
    pos: int,
    wide: bool,
    utf8: bool,
) -> Decoded {
    let width: int = if wide {
        2
    } else {
        1
    };
    if s.len() - pos < width {
        Err(truncated())
    } else {
        let n = if wide {
            be_u16_at(s, pos)
        } else {
            s[pos] as int
        };
        if s.len() - pos - width < n {
            Err(truncated())
        } else {
            let raw = s.subrange(pos + width, pos + width + n);
            if !utf8 {
                Ok((atom_term(atoms, latin1_text(raw)), pos + width + n))
            } else if valid_utf8(raw) {
                Ok((atom_term(atoms, decode_utf8(raw)), pos + width + n))
            } else {
                Err(CodecError::EncodingError)
            }
        }
    }
}

/// The list of the given bytes as integers.
pub open spec fn int_list(raw: Seq<u8>) -> TermView {
    TermView::List {
        elements: Seq::new(raw.len(), |i: int| TermView::Integer(raw[i] as int)),
        tail: None,
    }
}

/// Decodes what follows the tag of a byte string.
pub open spec fn decoded_string(strings: ByteStringRepresentation, s: Seq<u8>, pos: int) -> Decoded {
    if s.len() - pos < 2 {
        Err(truncated())
    } else {
        let n = be_u16_at(s, pos);
        if s.len() - pos - 2 < n {
            Err(truncated())
        } else {
            let raw = s.subrange(pos + 2, pos + 2 + n);
            match strings {
                ByteStringRepresentation::Str => if valid_utf8(raw) {
                    Ok((TermView::Str(decode_utf8(raw)), pos + 2 + n))
                } else {
                    Err(CodecError::EncodingError)
                },
                ByteStringRepresentation::Bytes => Ok((TermView::Binary(raw), pos + 2 + n)),
                ByteStringRepresentation::IntList => Ok((int_list(raw), pos + 2 + n)),
            }
        }
    }
}

/// Decodes what follows the tag of a binary.
pub open spec fn decoded_binary(s: Seq<u8>, pos: int) -> Decoded {
    if s.len() - pos < 4 {
        Err(truncated())
    } else {
        let n = be_u32_at(s, pos);
        if s.len() - pos - 4 < n {
            Err(truncated())
        } else {
            Ok((TermView::Binary(s.subrange(pos + 4, pos + 4 + n)), pos + 4 + n))
        }
    }
}

/// Decodes what follows the tag of a bit string.
pub open spec fn decoded_bit_binary(s: Seq<u8>, pos: int) -> Decoded {
    if s.len() - pos < 5 {
        Err(truncated())
    } else {
        let n = be_u32_at(s, pos);
        if s.len() - pos - 5 < n {
            Err(truncated())
        } else {
            Ok(
                (
                    TermView::BitString {
                        bytes: s.subrange(pos + 5, pos + 5 + n),
                        last_byte_bits: s[pos + 4],
                    },
                    pos + 5 + n,
                ),
            )
        }
    }
}

/// Decodes what follows the tag of a big integer: a size, of four bytes
/// where `wide` holds and else of one, a sign byte and the digits, least
/// significant first.
pub open spec fn decoded_big(s: Seq<u8>, pos: int, wide: bool) -> Decoded {
    let width: int = if wide {
        4
    } else {
        1
    };
    if s.len() - pos < width + 1 {
        Err(truncated())
    } else {
        let n = if wide {
            be_u32_at(s, pos)
        } else {
            s[pos] as int
        };
        if s.len() - pos - width - 1 < n {
            Err(truncated())
        } else {
            let digits = s.subrange(pos + width + 1, pos + width + 1 + n);
            Ok(
                (
                    TermView::Integer(signed(s[pos + width] != 0, le_value(digits))),
                    pos + width + 1 + n,
                ),
            )
        }
    }
}

/// The entries of a map that is filled from `entries` on by the key `key`
/// with the value `value`: a key that is there keeps its place and takes
/// the new value, a new key goes to the end.
pub open spec fn dict_put(
    entries: Seq<(TermView, TermView)>,
    key: TermView,
    value: TermView,
) -> Seq<(TermView, TermView)> {
    if exists|i: int| 0 <= i < entries.len() && entries[i].0 == key {
        Seq::new(
            entries.len(),
            |i: int|
                if entries[i].0 == key {
                    (key, value)
                } else {
                    entries[i]
                },
        )
    } else {
        entries.push((key, value))
    }
}

/// The entries of the map that is filled, in order, with the keys and
/// values that `terms` holds in turn.
pub open spec fn dict_of(terms: Seq<TermView>) -> Seq<(TermView, TermView)>
    decreases terms.len(),
{
    if terms.len() < 2 {
        Seq::empty()
    } else {
        dict_put(
            dict_of(terms.take(terms.len() - 2)),
            terms[terms.len() - 2],
            terms[terms.len() - 1],
        )
    }
}

/// A run that starts with `first` and goes on as `rest` says.
pub open spec fn run_after(first: TermView, rest: DecodedRun) -> DecodedRun {
    match rest {
        Ok((terms, end)) => Ok((seq![first] + terms, end)),
        Err(e) => Err(e),
    }
}

/// Decodes the term of `s` that starts at position `pos`: a tag, and what
/// the tag announces.
pub open spec fn decoded_term(
    atoms: AtomRepresentation,
    strings: ByteStringRepresentation,
    s: Seq<u8>,
    pos: int,
) -> Decoded
    decreases s.len() - pos, 0nat,
{
    if !(0 <= pos < s.len()) {
        Err(truncated())
    } else {
        decoded_payload(atoms, strings, s[pos], s, pos + 1)
    }
}

/// Decodes what follows the tag `tag`. A byte that is no tag is an error.
#[verifier::opaque]
pub open spec fn decoded_payload(
    atoms: AtomRepresentation,
    strings: ByteStringRepresentation,
    tag: u8,
    s: Seq<u8>,
    pos: int,
) -> Decoded
    decreases s.len() - pos, 3nat,
{
    if tag == TAG_ATOM_EXT {
        decoded_atom(atoms, s, pos, true, false)
    } else if tag == TAG_ATOM_UTF8_EXT {
        decoded_atom(atoms, s, pos, true, true)
    } else if tag == TAG_SMALL_ATOM_EXT {
        decoded_atom(atoms, s, pos, false, false)
    } else if tag == TAG_SMALL_ATOM_UTF8_EXT {
        decoded_atom(atoms, s, pos, false, true)
    } else if tag == TAG_BINARY_EXT {
        decoded_binary(s, pos)
    } else if tag == TAG_BIT_BINARY_EXT {
        decoded_bit_binary(s, pos)
    } else if tag == TAG_NIL_EXT {
        Ok((TermView::List { elements: Seq::empty(), tail: None }, pos))
    } else if tag == TAG_LIST_EXT {
        decoded_list(atoms, strings, s, pos)
    } else if tag == TAG_STRING_EXT {
        decoded_string(strings, s, pos)
    } else if tag == TAG_SMALL_UINT {
        decoded_small_uint(s, pos)
    } else if tag == TAG_INT {
        decoded_int(s, pos)
    } else if tag == TAG_SMALL_BIG_EXT {
        decoded_big(s, pos, false)
    } else if tag == TAG_LARGE_BIG_EXT {
        decoded_big(s, pos, true)
    } else if tag == TAG_NEW_FLOAT_EXT {
        decoded_float(s, pos)
    } else if tag == TAG_MAP_EXT {
        decoded_dict(atoms, strings, s, pos)
    } else if tag == TAG_SMALL_TUPLE_EXT {
        decoded_tuple(atoms, strings, s, pos, false)
    } else if tag == TAG_LARGE_TUPLE_EXT {
        decoded_tuple(atoms, strings, s, pos, true)
    } else if tag == TAG_PID_EXT {
        decoded_pid(strings, s, pos, false)
    } else if tag == TAG_NEW_PID_EXT {
        decoded_pid(strings, s, pos, true)
    } else if tag == TAG_NEW_REF_EXT {
        decoded_reference(strings, s, pos, false)
    } else if tag == TAG_NEWER_REF_EXT {
        decoded_reference(strings, s, pos, true)
    } else if tag == TAG_NEW_FUN_EXT {
        decoded_fun(atoms, strings, s, pos)
    } else {
        Err(CodecError::UnknownTermTagByte { b: tag })
    }
}

/// Decodes `count` terms that follow one another from position `pos` on.
pub open spec fn decoded_run(
    atoms: AtomRepresentation,
    strings: ByteStringRepresentation,
    s: Seq<u8>,
    pos: int,
    count: nat,
) -> DecodedRun
    decreases s.len() - pos, count + 4,
{
    if count == 0 {
        Ok((Seq::empty(), pos))
    } else {
        match decoded_term(atoms, strings, s, pos) {
            Err(e) => Err(e),
            Ok((first, end)) => run_after(
                first,
                decoded_run(atoms, strings, s, onward(s, pos, end), (count - 1) as nat),
            ),
        }
    }
}

/// Decodes what follows the tag of a tuple: an arity, of four bytes where
/// `wide` holds and else of one, and that many terms.
pub open spec fn decoded_tuple(
    atoms: AtomRepresentation,
    strings: ByteStringRepresentation,
    s: Seq<u8>,
    pos: int,
    wide: bool,
) -> Decoded
    decreases s.len() - pos, 1nat,
{
    let width: int = if wide {
        4
    } else {
        1
    };
    if s.len() - pos < width {
        Err(truncated())
    } else {
        let arity = if wide {
            be_u32_at(s, pos)
        } else {
            s[pos] as int
        };
        match decoded_run(atoms, strings, s, pos + width, arity as nat) {
            Err(e) => Err(e),
            Ok((terms, end)) => Ok((TermView::Tuple(terms), end)),
        }
    }
}

/// Decodes what follows the tag of a list: a count, that many terms, and
/// then either the tag of the empty list or the term in which the list
/// ends.
pub open spec fn decoded_list(
    atoms: AtomRepresentation,
    strings: ByteStringRepresentation,
    s: Seq<u8>,
    pos: int,
) -> Decoded
    decreases s.len() - pos, 1nat,
{
    if s.len() - pos < 4 {
        Err(truncated())
    } else {
        match decoded_run(atoms, strings, s, pos + 4, be_u32_at(s, pos) as nat) {
            Err(e) => Err(e),
            Ok((terms, end)) => {
                let at = onward(s, pos + 4, end);
                if at >= s.len() {
                    Err(truncated())
                } else if s[at] == TAG_NIL_EXT {
                    Ok((TermView::List { elements: terms, tail: None }, at + 1))
                } else {
                    match decoded_term(atoms, strings, s, at) {
                        Err(e) => Err(e),
                        Ok((tail, behind)) => Ok(
                            (TermView::List { elements: terms, tail: Some(Box::new(tail)) }, behind),
                        ),
                    }
                }
            },
        }
    }
}

/// Decodes what follows the tag of a map: a count, and that many keys,
/// each followed by its value.
pub open spec fn decoded_dict(
    atoms: AtomRepresentation,
    strings: ByteStringRepresentation,
    s: Seq<u8>,
    pos: int,
) -> Decoded
    decreases s.len() - pos, 1nat,
{
    if s.len() - pos < 4 {
        Err(truncated())
    } else {
        match decoded_run(atoms, strings, s, pos + 4, (2 * be_u32_at(s, pos)) as nat) {
            Err(e) => Err(e),
            Ok((terms, end)) => Ok((TermView::Dict(dict_of(terms)), end)),
        }
    }
}

/// Decodes what follows the tag of a process identifier: the node, whose
/// atom is read as text, then id and serial of four bytes each and a
/// creation, of four bytes where `wide` holds and else of one.
pub open spec fn decoded_pid(
    strings: ByteStringRepresentation,
    s: Seq<u8>,
    pos: int,
    wide: bool,
) -> Decoded
    decreases s.len() - pos, 1nat,
{
    match decoded_term(AtomRepresentation::Str, strings, s, pos) {
        Err(e) => Err(e),
        Ok((node, end)) => {
            let width: int = if wide {
                4
            } else {
                1
            };
            if s.len() - end < 8 + width {
                Err(truncated())
            } else {
                Ok(
                    (
                        TermView::Pid {
                            node: Box::new(node),
                            id: be_u32_at(s, end) as u32,
                            serial: be_u32_at(s, end + 4) as u32,
                            creation: if wide {
                                be_u32_at(s, end + 8) as u32
                            } else {
                                s[end + 8] as u32
                            },
                        },
                        end + 8 + width,
                    ),
                )
            }
        },
    }
}

/// Decodes what follows the tag of a reference: the number of four-byte
/// words of the id, the node, whose atom is read as text, a creation, of
/// four bytes where `wide` holds and else of one, and the id.
pub open spec fn decoded_reference(
    strings: ByteStringRepresentation,
    s: Seq<u8>,
    pos: int,
    wide: bool,
) -> Decoded
    decreases s.len() - pos, 1nat,
{
    if s.len() - pos < 2 {
        Err(truncated())
    } else {
        let words = be_u16_at(s, pos);
        match decoded_term(AtomRepresentation::Str, strings, s, pos + 2) {
            Err(e) => Err(e),
            Ok((node, end)) => {
                let width: int = if wide {
                    4
                } else {
                    1
                };
                if s.len() - end < width + 4 * words {
                    Err(truncated())
                } else {
                    Ok(
                        (
                            TermView::Reference {
                                node: Box::new(node),
                                creation: if wide {
                                    be_u32_at(s, end) as u32
                                } else {
                                    s[end] as u32
                                },
                                id: s.subrange(end + width, end + width + 4 * words),
                            },
                            end + width + 4 * words,
                        ),
                    )
                }
            },
        }
    }
}

/// Decodes what follows the tag of a function object: a size, which is not
/// looked at, the arity, sixteen bytes that tell the function apart, an
/// index, the number of free variables, and then module, old index, old
/// uniqueness and owner as terms, followed by the free variables.
pub open spec fn decoded_fun(
    atoms: AtomRepresentation,
    strings: ByteStringRepresentation,
    s: Seq<u8>,
    pos: int,
) -> Decoded
    decreases s.len() - pos, 1nat,
{
    if s.len() - pos < 29 {
        Err(truncated())
    } else {
        let free = be_u32_at(s, pos + 25);
        match decoded_run(atoms, strings, s, pos + 29, (4 + free) as nat) {
            Err(e) => Err(e),
            Ok((terms, end)) => Ok(
                (
                    TermView::Fun {
                        module: Box::new(terms[0]),
                        arity: s[pos + 4],
                        pid: Box::new(terms[3]),
                        index: be_u32_at(s, pos + 21) as u32,
                        uniq: s.subrange(pos + 5, pos + 21),
                        old_index: Box::new(terms[1]),
                        old_uniq: Box::new(terms[2]),
                        free_vars: terms.skip(4),
                    },
                    end,
                ),
            ),
        }
    }
}

/// The outcome of decoding a message: the value of its term and the bytes
/// behind the term, or the error.
pub type DecodedMessage = Result<(TermView, Seq<u8>), CodecError>;

/// Decodes the term of `s` at position `pos` and hands out what follows
/// it.
pub open spec fn decoded_with_rest(
    atoms: AtomRepresentation,
    strings: ByteStringRepresentation,
    s: Seq<u8>,
    pos: int,
) -> DecodedMessage {
    match decoded_term(atoms, strings, s, pos) {
        Ok((t, end)) => Ok((t, s.skip(end))),
        Err(e) => Err(e),
    }
}

/// Decodes the inflated part of a compressed message that declares
/// `declared` bytes: the sizes must agree, and the bytes hold a term.
pub open spec fn decoded_inflated(
    atoms: AtomRepresentation,
    strings: ByteStringRepresentation,
    declared: int,
    data: Seq<u8>,
) -> DecodedMessage {
    if data.len() != declared {
        Err(CodecError::CompressedSizeMismatch)
    } else {
        decoded_with_rest(atoms, strings, data, 0)
    }
}

/// Decodes a message: the version byte, and then either a term or, behind
/// the tag for compression, the inflated size and a zlib stream that holds
/// the term. A stream that is not of the kinds that are handed to the zlib
/// decoder is refused like one that the decoder reports as broken.
pub open spec fn decoded_message(
    atoms: AtomRepresentation,
    strings: ByteStringRepresentation,
    s: Seq<u8>,
) -> DecodedMessage {
    if s.len() < 1 {
        Err(truncated())
    } else if s[0] != ETF_VERSION_TAG {
        Err(CodecError::UnsupportedETFVersion)
    } else if s.len() < 2 {
        Err(truncated())
    } else if s[1] != TAG_COMPRESSED {
        decoded_with_rest(atoms, strings, s, 1)
    } else if s.len() < 6 {
        Err(truncated())
    } else if !safe_to_inflate(s.skip(6)) {
        Err(CodecError::IOError)
    } else {
        match zlib_inflated(s.skip(6)) {
            None => Err(CodecError::IOError),
            Some(data) => decoded_inflated(atoms, strings, be_u32_at(s, 2), data),
        }
    }
}

/// A term is its tag and what the tag announces.
pub proof fn lemma_term_is_payload(
    atoms: AtomRepresentation,
    strings: ByteStringRepresentation,
    s: Seq<u8>,
    pos: int,
)
    requires
        0 <= pos < s.len(),
    ensures
        decoded_term(atoms, strings, s, pos) == decoded_payload(
            atoms,
            strings,
            s[pos],
            s,
            pos + 1,
        ),
{
    reveal(decoded_payload);
}

} // verus!
