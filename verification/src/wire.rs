//! What a term looks like in the External Term Format: the encoding of a
//! term, as a mathematical function.

use vstd::prelude::*;
use vstd::utf8::encode_utf8;
use crate::consts::{
    TAG_ATOM_UTF8_EXT, TAG_BINARY_EXT, TAG_BIT_BINARY_EXT, TAG_INT, TAG_LARGE_BIG_EXT,
    TAG_LARGE_TUPLE_EXT, TAG_LIST_EXT, TAG_MAP_EXT, TAG_NEWER_REF_EXT, TAG_NEW_FLOAT_EXT,
    TAG_NEW_PID_EXT, TAG_NIL_EXT, TAG_SMALL_ATOM_UTF8_EXT, TAG_SMALL_BIG_EXT,
    TAG_SMALL_TUPLE_EXT, TAG_SMALL_UINT, TAG_STRING_EXT,
};
use crate::endian::{i32_be, u16_be, u32_be, u64_be};
use crate::errors::CodecError;
use crate::format::{false_name, true_name, undefined_name};
use crate::integer::{le_digits, magnitude_of};
use crate::term::TermView;

verus! {

/// The outcome of encoding: the bytes, or the error.
pub type Encoded = Result<Seq<u8>, CodecError>;

/// Whether the binary64 number with the given bit pattern is finite: its
/// eleven exponent bits are not all set.
pub open spec fn is_finite(bits: u64) -> bool {
    bits / 0x10_0000_0000_0000 % 0x800 != 0x7ff
}

/// The bytes `header` and then what `body` says.
pub open spec fn framed(header: Seq<u8>, body: Encoded) -> Encoded {
    match body {
        Ok(bytes) => Ok(header + bytes),
        Err(e) => Err(e),
    }
}

/// The encoding of an integer that fits the four-byte form: one byte for
/// 0 to 255, four bytes for the rest of the 32-bit range.
#[verifier::opaque]
pub open spec fn encoded_small_int(v: int) -> Encoded {
    if 0 <= v <= 255 {
        Ok(seq![TAG_SMALL_UINT, v as u8])
    } else if -0x8000_0000 <= v <= 0x7fff_ffff {
        Ok(seq![TAG_INT] + i32_be(v as i32))
    } else {
        Err(CodecError::IntegerEncodingRange { i: v as i64 })
    }
}

/// The encoding of an integer outside the 32-bit range: the number of its
/// digits, in one byte where it is below 256 and else in four, a sign
/// byte, and the digits in base 256, least significant first and without
/// leading zeros.
#[verifier::opaque]
pub open spec fn encoded_big_int(v: int) -> Encoded {
    let digits = le_digits(magnitude_of(v));
    let sign: u8 = if v < 0 {
        1
    } else {
        0
    };
    if digits.len() < 256 {
        Ok(seq![TAG_SMALL_BIG_EXT, digits.len() as u8, sign] + digits)
    } else if digits.len() <= u32::MAX {
        Ok(seq![TAG_LARGE_BIG_EXT] + u32_be(digits.len() as u32) + seq![sign] + digits)
    } else {
        Err(CodecError::LengthOutOfRange)
    }
}

/// The encoding of an integer: the shortest of the three forms that holds
/// it.
pub open spec fn encoded_integer(v: int) -> Encoded {
    if -0x8000_0000 <= v <= 0x7fff_ffff {
        encoded_small_int(v)
    } else {
        encoded_big_int(v)
    }
}

/// The encoding of a float: its eight bytes, where it is finite.
#[verifier::opaque]
pub open spec fn encoded_float(bits: u64) -> Encoded {
    if is_finite(bits) {
        Ok(seq![TAG_NEW_FLOAT_EXT] + u64_be(bits))
    } else {
        Err(CodecError::NonFiniteFloat { bits })
    }
}

/// The encoding of an atom with the given name: the name in UTF-8 behind
/// its length, which takes one byte up to 255 and two up to 65535.
#[verifier::opaque]
pub open spec fn encoded_atom(name: Seq<char>) -> Encoded {
    let bytes = encode_utf8(name);
    if bytes.len() <= 255 {
        Ok(seq![TAG_SMALL_ATOM_UTF8_EXT, bytes.len() as u8] + bytes)
    } else if bytes.len() <= 65535 {
        Ok(seq![TAG_ATOM_UTF8_EXT] + u16_be(bytes.len() as u16) + bytes)
    } else {
        Err(CodecError::AtomTooLong)
    }
}

/// Whether a text can go out as a byte string: it has at most 65535
/// characters, and none lies above code point 255.
pub open spec fn fits_byte_string(text: Seq<char>) -> bool {
    &&& text.len() <= 65535
    &&& forall|i: int| 0 <= i < text.len() ==> text[i] as u32 <= 255
}

/// The code points of the characters of `text` from position `from` on,
/// each encoded as an integer.
pub open spec fn encoded_code_points(text: Seq<char>, from: int) -> Seq<u8>
    decreases text.len() - from,
{
    if 0 <= from < text.len() {
        encoded_small_int(text[from] as u32 as int)->Ok_0 + encoded_code_points(text, from + 1)
    } else {
        Seq::empty()
    }
}

/// The encoding of a text: a byte string with one byte for each character
/// where the text fits one, else the list of its code points.
#[verifier::opaque]
pub open spec fn encoded_str(text: Seq<char>) -> Encoded {
    if fits_byte_string(text) {
        Ok(
            seq![TAG_STRING_EXT] + u16_be(text.len() as u16) + Seq::new(
                text.len(),
                |i: int| text[i] as u32 as u8,
            ),
        )
    } else if text.len() <= u32::MAX {
        Ok(
            seq![TAG_LIST_EXT] + u32_be(text.len() as u32) + encoded_code_points(text, 0)
                + seq![TAG_NIL_EXT],
        )
    } else {
        Err(CodecError::LengthOutOfRange)
    }
}

/// The encoding of a binary.
#[verifier::opaque]
pub open spec fn encoded_binary(bytes: Seq<u8>) -> Encoded {
    if bytes.len() <= u32::MAX {
        Ok(seq![TAG_BINARY_EXT] + u32_be(bytes.len() as u32) + bytes)
    } else {
        Err(CodecError::LengthOutOfRange)
    }
}

/// The encoding of a bit string.
#[verifier::opaque]
pub open spec fn encoded_bit_string(bytes: Seq<u8>, last_byte_bits: u8) -> Encoded {
    if bytes.len() <= u32::MAX {
        Ok(seq![TAG_BIT_BINARY_EXT] + u32_be(bytes.len() as u32) + seq![last_byte_bits] + bytes)
    } else {
        Err(CodecError::LengthOutOfRange)
    }
}

/// The name of a node: the node is text or an atom.
pub open spec fn node_name(node: TermView) -> Option<Seq<char>> {
    match node {
        TermView::Str(name) => Some(name),
        TermView::Atom(name) => Some(name),
        _ => None,
    }
}

/// The encoding of a process identifier, in the current form.
#[verifier::opaque]
pub open spec fn encoded_pid(node: TermView, id: u32, serial: u32, creation: u32) -> Encoded {
    match node_name(node) {
        None => Err(CodecError::UnsupportedTerm),
        Some(name) => framed(
            seq![TAG_NEW_PID_EXT],
            framed_behind(encoded_atom(name), u32_be(id) + u32_be(serial) + u32_be(creation)),
        ),
    }
}

/// What `body` says and then the bytes `trailer`.
pub open spec fn framed_behind(body: Encoded, trailer: Seq<u8>) -> Encoded {
    match body {
        Ok(bytes) => Ok(bytes + trailer),
        Err(e) => Err(e),
    }
}

/// The encoding of a reference, in the current form. The id is a whole
/// number of four-byte words, at most 65535 of them.
#[verifier::opaque]
pub open spec fn encoded_reference(node: TermView, creation: u32, id: Seq<u8>) -> Encoded {
    match node_name(node) {
        None => Err(CodecError::UnsupportedTerm),
        Some(name) => if id.len() % 4 != 0 || id.len() / 4 > 65535 {
            Err(CodecError::LengthOutOfRange)
        } else {
            framed(
                seq![TAG_NEWER_REF_EXT] + u16_be((id.len() / 4) as u16),
                framed_behind(encoded_atom(name), u32_be(creation) + id),
            )
        },
    }
}

/// The encoding of a term.
pub open spec fn encoded_term(term: TermView) -> Encoded
    decreases term, 0nat,
{
    match term {
        TermView::Integer(v) => encoded_integer(v),
        TermView::Float(bits) => encoded_float(bits),
        TermView::Atom(name) => encoded_atom(name),
        TermView::Bool(b) => encoded_atom(
            if b {
                true_name()
            } else {
                false_name()
            },
        ),
        TermView::Undefined => encoded_atom(undefined_name()),
        TermView::Binary(bytes) => encoded_binary(bytes),
        TermView::BitString { bytes, last_byte_bits } => encoded_bit_string(bytes, last_byte_bits),
        TermView::Str(text) => encoded_str(text),
        TermView::List { elements, tail } => match encoded_list_head(elements) {
            Err(e) => Err(e),
            Ok(head) => match tail {
                None => Ok(head + seq![TAG_NIL_EXT]),
                Some(last) => framed(head, encoded_term(*last)),
            },
        },
        TermView::Tuple(elements) => if elements.len() <= 255 {
            framed(seq![TAG_SMALL_TUPLE_EXT, elements.len() as u8], encoded_run(elements, 0))
        } else if elements.len() <= u32::MAX {
            framed(
                seq![TAG_LARGE_TUPLE_EXT] + u32_be(elements.len() as u32),
                encoded_run(elements, 0),
            )
        } else {
            Err(CodecError::LengthOutOfRange)
        },
        TermView::Dict(entries) => if entries.len() <= u32::MAX {
            framed(seq![TAG_MAP_EXT] + u32_be(entries.len() as u32), encoded_pairs(entries, 0))
        } else {
            Err(CodecError::LengthOutOfRange)
        },
        TermView::Pid { node, id, serial, creation } => encoded_pid(*node, id, serial, creation),
        TermView::Reference { node, creation, id } => encoded_reference(*node, creation, id),
        TermView::Fun { .. } => Err(CodecError::UnsupportedTerm),
    }
}

/// The encoding of a list without what the list ends in: the tag, the
/// number of elements and the elements.
pub open spec fn encoded_list_head(elements: Seq<TermView>) -> Encoded
    decreases elements, elements.len() + 1,
{
    if elements.len() > u32::MAX {
        Err(CodecError::LengthOutOfRange)
    } else {
        framed(seq![TAG_LIST_EXT] + u32_be(elements.len() as u32), encoded_run(elements, 0))
    }
}

/// The encodings of the terms of `terms` from position `from` on, one
/// behind the other; the error of the first term that has none.
pub open spec fn encoded_run(terms: Seq<TermView>, from: int) -> Encoded
    decreases terms, terms.len() - from,
{
    if 0 <= from < terms.len() {
        match encoded_term(terms[from]) {
            Err(e) => Err(e),
            Ok(first) => framed(first, encoded_run(terms, from + 1)),
        }
    } else {
        Ok(Seq::empty())
    }
}

/// The encodings of the entries of `entries` from position `from` on, each
/// key followed by its value; the error of the first term that has none.
pub open spec fn encoded_pairs(entries: Seq<(TermView, TermView)>, from: int) -> Encoded
    decreases entries, entries.len() - from,
{
    if 0 <= from < entries.len() {
        match encoded_term(entries[from].0) {
            Err(e) => Err(e),
            Ok(key) => match encoded_term(entries[from].1) {
                Err(e) => Err(e),
                Ok(value) => framed(key + value, encoded_pairs(entries, from + 1)),
            },
        }
    } else {
        Ok(Seq::empty())
    }
}

} // verus!
