//! Decoding what was encoded: where the encoding of a term stands in a
//! buffer, the decoder reads the term back, for the terms that have one
//! form only.

use vstd::prelude::*;
use vstd::utf8::{decode_utf8, encode_utf8, is_ascii_chars, valid_utf8};
use crate::consts::{
    TAG_ATOM_UTF8_EXT, TAG_BINARY_EXT, TAG_BIT_BINARY_EXT, TAG_INT, TAG_LARGE_BIG_EXT,
    TAG_LARGE_TUPLE_EXT, TAG_LIST_EXT, TAG_MAP_EXT, TAG_NEWER_REF_EXT, TAG_NEW_FLOAT_EXT,
    TAG_NEW_PID_EXT, TAG_NIL_EXT, TAG_SMALL_ATOM_UTF8_EXT, TAG_SMALL_BIG_EXT,
    TAG_SMALL_TUPLE_EXT, TAG_SMALL_UINT, TAG_STRING_EXT,
};
use crate::endian::{
    be_i32_at, be_u16_at, be_u32_at, be_u64_at, i32_be, u16_be, u32_be, u64_be,
};
use crate::decoder::{keys_distinct, lemma_run_end, lemma_run_start, lemma_run_unfold, run_prefixed};
use crate::errors::CodecError;
use crate::format::{
    atom_term, decoded_atom, decoded_big, decoded_binary, decoded_bit_binary, decoded_dict,
    decoded_float, decoded_int, decoded_list, decoded_payload, decoded_pid, decoded_reference,
    decoded_run, decoded_small_uint, decoded_string, decoded_term, decoded_tuple, dict_of,
    dict_put, false_name, lemma_term_is_payload, onward, run_after, true_name, undefined_name,
};
use crate::helpers::{AtomRepresentation, ByteStringRepresentation};
use crate::integer::{le_digits, le_value, lemma_digits_value, magnitude_of};
use crate::term::TermView;
use crate::wire::{
    encoded_atom, encoded_big_int, encoded_binary, encoded_bit_string, encoded_float,
    encoded_integer, encoded_list_head, encoded_pairs, encoded_pid, encoded_reference,
    encoded_run, encoded_small_int, encoded_str, encoded_term, framed,
};

verus! {

/// That `bytes` stand in `s` from position `pos` on.
pub open spec fn placed(s: Seq<u8>, pos: int, bytes: Seq<u8>) -> bool {
    &&& 0 <= pos
    &&& pos + bytes.len() <= s.len()
    &&& forall|i: int| 0 <= i < bytes.len() ==> s[pos + i] == #[trigger] bytes[i]
}

/// Where two runs of bytes stand one behind the other, each stands at its
/// place.
pub proof fn lemma_placed_split(s: Seq<u8>, pos: int, a: Seq<u8>, b: Seq<u8>)
    requires
        placed(s, pos, a + b),
    ensures
        placed(s, pos, a),
        placed(s, pos + a.len(), b),
{
    let ab = a + b;
    assert forall|i: int| 0 <= i < a.len() implies s[pos + i] == #[trigger] a[i] by {
        assert(ab[i] == a[i]);
    }
    assert forall|i: int| 0 <= i < b.len() implies s[pos + a.len() + i] == #[trigger] b[i] by {
        assert(ab[a.len() + i] == b[i]);
    }
}

/// Bytes that stand at a place are the bytes of the buffer there.
pub proof fn lemma_placed_subrange(s: Seq<u8>, pos: int, bytes: Seq<u8>)
    requires
        placed(s, pos, bytes),
    ensures
        s.subrange(pos, pos + bytes.len()) == bytes,
{
    assert forall|i: int| 0 <= i < bytes.len() implies s.subrange(pos, pos + bytes.len())[i]
        == bytes[i] by {
        assert(s[pos + i] == bytes[i]);
    }
    assert(s.subrange(pos, pos + bytes.len()) =~= bytes);
}

/// Where the two bytes of a number stand, the number is read.
pub proof fn lemma_placed_u16(s: Seq<u8>, pos: int, v: u16)
    requires
        placed(s, pos, u16_be(v)),
    ensures
        be_u16_at(s, pos) == v,
{
    let b = u16_be(v);
    assert(s[pos + 0] == b[0]);
    assert(s[pos + 1] == b[1]);
}

/// Where the four bytes of a number stand, the number is read.
pub proof fn lemma_placed_u32(s: Seq<u8>, pos: int, v: u32)
    requires
        placed(s, pos, u32_be(v)),
    ensures
        be_u32_at(s, pos) == v,
{
    let b = u32_be(v);
    assert(s[pos + 0] == b[0]);
    assert(s[pos + 1] == b[1]);
    assert(s[pos + 2] == b[2]);
    assert(s[pos + 3] == b[3]);
}

/// Where the four bytes of a signed number stand, the number is read.
pub proof fn lemma_placed_i32(s: Seq<u8>, pos: int, v: i32)
    requires
        placed(s, pos, i32_be(v)),
    ensures
        be_i32_at(s, pos) == v,
{
    if v < 0 {
        lemma_placed_u32(s, pos, (v + 0x1_0000_0000) as u32);
    } else {
        lemma_placed_u32(s, pos, v as u32);
    }
}

/// Where the eight bytes of a number stand, the number is read.
pub proof fn lemma_placed_u64(s: Seq<u8>, pos: int, v: u64)
    requires
        placed(s, pos, u64_be(v)),
    ensures
        be_u64_at(s, pos) == v,
{
    let hi = (v / 0x1_0000_0000) as u32;
    let lo = (v % 0x1_0000_0000) as u32;
    lemma_placed_split(s, pos, u32_be(hi), u32_be(lo));
    lemma_placed_u32(s, pos, hi);
    lemma_placed_u32(s, pos + 4, lo);
}

/// What the decoder makes of a term by the tag that the term starts with.
pub proof fn lemma_tagged(
    atoms: AtomRepresentation,
    strings: ByteStringRepresentation,
    s: Seq<u8>,
    pos: int,
)
    requires
        0 <= pos < s.len(),
    ensures
        s[pos] == TAG_SMALL_UINT ==> decoded_term(atoms, strings, s, pos) == decoded_small_uint(
            s,
            pos + 1,
        ),
        s[pos] == TAG_INT ==> decoded_term(atoms, strings, s, pos) == decoded_int(s, pos + 1),
        s[pos] == TAG_SMALL_BIG_EXT ==> decoded_term(atoms, strings, s, pos) == decoded_big(
            s,
            pos + 1,
            false,
        ),
        s[pos] == TAG_LARGE_BIG_EXT ==> decoded_term(atoms, strings, s, pos) == decoded_big(
            s,
            pos + 1,
            true,
        ),
        s[pos] == TAG_NEW_FLOAT_EXT ==> decoded_term(atoms, strings, s, pos) == decoded_float(
            s,
            pos + 1,
        ),
        s[pos] == TAG_SMALL_ATOM_UTF8_EXT ==> decoded_term(atoms, strings, s, pos) == decoded_atom(
            atoms,
            s,
            pos + 1,
            false,
            true,
        ),
        s[pos] == TAG_ATOM_UTF8_EXT ==> decoded_term(atoms, strings, s, pos) == decoded_atom(
            atoms,
            s,
            pos + 1,
            true,
            true,
        ),
        s[pos] == TAG_BINARY_EXT ==> decoded_term(atoms, strings, s, pos) == decoded_binary(
            s,
            pos + 1,
        ),
        s[pos] == TAG_BIT_BINARY_EXT ==> decoded_term(atoms, strings, s, pos)
            == decoded_bit_binary(s, pos + 1),
        s[pos] == TAG_STRING_EXT ==> decoded_term(atoms, strings, s, pos) == decoded_string(
            strings,
            s,
            pos + 1,
        ),
{
    lemma_term_is_payload(atoms, strings, s, pos);
    reveal(decoded_payload);
}

/// An integer of the 32-bit range that was encoded is read back.
pub proof fn lemma_small_int_back(
    atoms: AtomRepresentation,
    strings: ByteStringRepresentation,
    v: int,
    s: Seq<u8>,
    pos: int,
)
    requires
        encoded_small_int(v) matches Ok(bytes) && placed(s, pos, bytes),
    ensures
        decoded_term(atoms, strings, s, pos) == Ok::<(TermView, int), CodecError>(
            (TermView::Integer(v), pos + encoded_small_int(v)->Ok_0.len()),
        ),
{
    reveal(encoded_small_int);
    let bytes = encoded_small_int(v)->Ok_0;
    lemma_tagged(atoms, strings, s, pos);
    assert(s[pos + 0] == bytes[0]);
    if 0 <= v <= 255 {
        assert(s[pos + 1] == bytes[1]);
    } else {
        lemma_placed_split(s, pos, seq![TAG_INT], i32_be(v as i32));
        lemma_placed_i32(s, pos + 1, v as i32);
    }
}

/// An integer that was encoded with its digits is read back.
pub proof fn lemma_big_int_back(
    atoms: AtomRepresentation,
    strings: ByteStringRepresentation,
    v: int,
    s: Seq<u8>,
    pos: int,
)
    requires
        encoded_big_int(v) matches Ok(bytes) && placed(s, pos, bytes),
    ensures
        decoded_term(atoms, strings, s, pos) == Ok::<(TermView, int), CodecError>(
            (TermView::Integer(v), pos + encoded_big_int(v)->Ok_0.len()),
        ),
{
    reveal(encoded_big_int);
    let bytes = encoded_big_int(v)->Ok_0;
    let m = magnitude_of(v);
    let digits = le_digits(m);
    let sign: u8 = if v < 0 { 1 } else { 0 };
    lemma_digits_value(m);
    lemma_tagged(atoms, strings, s, pos);
    assert(s[pos + 0] == bytes[0]);
    if digits.len() < 256 {
        let head = seq![TAG_SMALL_BIG_EXT, digits.len() as u8, sign];
        lemma_placed_split(s, pos, head, digits);
        assert(s[pos + 1] == head[1]);
        assert(s[pos + 2] == head[2]);
        lemma_placed_subrange(s, pos + 3, digits);
        assert(decoded_big(s, pos + 1, false) == Ok::<(TermView, int), CodecError>(
            (TermView::Integer(v), pos + 3 + digits.len()),
        ));
    } else {
        let len = u32_be(digits.len() as u32);
        lemma_placed_split(s, pos, seq![TAG_LARGE_BIG_EXT] + len + seq![sign], digits);
        lemma_placed_split(s, pos, seq![TAG_LARGE_BIG_EXT] + len, seq![sign]);
        lemma_placed_split(s, pos, seq![TAG_LARGE_BIG_EXT], len);
        lemma_placed_u32(s, pos + 1, digits.len() as u32);
        assert(s[pos + 5 + 0] == seq![sign][0]);
        lemma_placed_subrange(s, pos + 6, digits);
        assert(decoded_big(s, pos + 1, true) == Ok::<(TermView, int), CodecError>(
            (TermView::Integer(v), pos + 6 + digits.len()),
        ));
    }
}

/// An integer that was encoded is read back.
pub proof fn lemma_integer_back(
    atoms: AtomRepresentation,
    strings: ByteStringRepresentation,
    v: int,
    s: Seq<u8>,
    pos: int,
)
    requires
        encoded_integer(v) matches Ok(bytes) && placed(s, pos, bytes),
    ensures
        decoded_term(atoms, strings, s, pos) == Ok::<(TermView, int), CodecError>(
            (TermView::Integer(v), pos + encoded_integer(v)->Ok_0.len()),
        ),
{
    if -0x8000_0000 <= v <= 0x7fff_ffff {
        lemma_small_int_back(atoms, strings, v, s, pos);
    } else {
        lemma_big_int_back(atoms, strings, v, s, pos);
    }
}

/// A float that was encoded is read back.
pub proof fn lemma_float_back(
    atoms: AtomRepresentation,
    strings: ByteStringRepresentation,
    bits: u64,
    s: Seq<u8>,
    pos: int,
)
    requires
        encoded_float(bits) matches Ok(bytes) && placed(s, pos, bytes),
    ensures
        decoded_term(atoms, strings, s, pos) == Ok::<(TermView, int), CodecError>(
            (TermView::Float(bits), pos + 9),
        ),
{
    reveal(encoded_float);
    let bytes = encoded_float(bits)->Ok_0;
    lemma_tagged(atoms, strings, s, pos);
    assert(s[pos + 0] == bytes[0]);
    lemma_placed_split(s, pos, seq![TAG_NEW_FLOAT_EXT], u64_be(bits));
    lemma_placed_u64(s, pos + 1, bits);
}

/// An atom that was encoded is read back as the term that stands for its
/// name.
pub proof fn lemma_atom_back(
    atoms: AtomRepresentation,
    strings: ByteStringRepresentation,
    name: Seq<char>,
    s: Seq<u8>,
    pos: int,
)
    requires
        encoded_atom(name) matches Ok(bytes) && placed(s, pos, bytes),
    ensures
        decoded_term(atoms, strings, s, pos) == Ok::<(TermView, int), CodecError>(
            (atom_term(atoms, name), pos + encoded_atom(name)->Ok_0.len()),
        ),
{
    reveal(encoded_atom);
    let bytes = encoded_atom(name)->Ok_0;
    let raw = encode_utf8(name);
    vstd::utf8::encode_utf8_valid_utf8(name);
    vstd::utf8::encode_utf8_decode_utf8(name);
    lemma_tagged(atoms, strings, s, pos);
    assert(s[pos + 0] == bytes[0]);
    if raw.len() <= 255 {
        let head = seq![TAG_SMALL_ATOM_UTF8_EXT, raw.len() as u8];
        lemma_placed_split(s, pos, head, raw);
        assert(s[pos + 1] == head[1]);
        lemma_placed_subrange(s, pos + 2, raw);
    } else {
        let head = seq![TAG_ATOM_UTF8_EXT] + u16_be(raw.len() as u16);
        lemma_placed_split(s, pos, head, raw);
        lemma_placed_split(s, pos, seq![TAG_ATOM_UTF8_EXT], u16_be(raw.len() as u16));
        lemma_placed_u16(s, pos + 1, raw.len() as u16);
        lemma_placed_subrange(s, pos + 3, raw);
    }
}

/// A binary that was encoded is read back.
pub proof fn lemma_binary_back(
    atoms: AtomRepresentation,
    strings: ByteStringRepresentation,
    data: Seq<u8>,
    s: Seq<u8>,
    pos: int,
)
    requires
        encoded_binary(data) matches Ok(bytes) && placed(s, pos, bytes),
    ensures
        decoded_term(atoms, strings, s, pos) == Ok::<(TermView, int), CodecError>(
            (TermView::Binary(data), pos + 5 + data.len()),
        ),
{
    reveal(encoded_binary);
    let bytes = encoded_binary(data)->Ok_0;
    let head = seq![TAG_BINARY_EXT] + u32_be(data.len() as u32);
    lemma_tagged(atoms, strings, s, pos);
    assert(s[pos + 0] == bytes[0]);
    lemma_placed_split(s, pos, head, data);
    lemma_placed_split(s, pos, seq![TAG_BINARY_EXT], u32_be(data.len() as u32));
    lemma_placed_u32(s, pos + 1, data.len() as u32);
    lemma_placed_subrange(s, pos + 5, data);
}

/// A bit string that was encoded is read back.
pub proof fn lemma_bit_string_back(
    atoms: AtomRepresentation,
    strings: ByteStringRepresentation,
    data: Seq<u8>,
    last_byte_bits: u8,
    s: Seq<u8>,
    pos: int,
)
    requires
        encoded_bit_string(data, last_byte_bits) matches Ok(bytes) && placed(s, pos, bytes),
    ensures
        decoded_term(atoms, strings, s, pos) == Ok::<(TermView, int), CodecError>(
            (TermView::BitString { bytes: data, last_byte_bits }, pos + 6 + data.len()),
        ),
{
    reveal(encoded_bit_string);
    let bytes = encoded_bit_string(data, last_byte_bits)->Ok_0;
    let len = u32_be(data.len() as u32);
    lemma_tagged(atoms, strings, s, pos);
    assert(s[pos + 0] == bytes[0]);
    lemma_placed_split(s, pos, seq![TAG_BIT_BINARY_EXT] + len + seq![last_byte_bits], data);
    lemma_placed_split(s, pos, seq![TAG_BIT_BINARY_EXT] + len, seq![last_byte_bits]);
    lemma_placed_split(s, pos, seq![TAG_BIT_BINARY_EXT], len);
    lemma_placed_u32(s, pos + 1, data.len() as u32);
    assert(s[pos + 5 + 0] == seq![last_byte_bits][0]);
    lemma_placed_subrange(s, pos + 6, data);
}

/// A text of at most 65535 characters, all of them ASCII, that was
/// encoded is read back by a decoder that hands out byte strings as text.
pub proof fn lemma_text_back(
    atoms: AtomRepresentation,
    text: Seq<char>,
    s: Seq<u8>,
    pos: int,
)
    requires
        is_ascii_chars(text),
        text.len() <= 65535,
        encoded_str(text) matches Ok(bytes) && placed(s, pos, bytes),
    ensures
        decoded_term(atoms, ByteStringRepresentation::Str, s, pos) == Ok::<
            (TermView, int),
            CodecError,
        >((TermView::Str(text), pos + 3 + text.len())),
{
    reveal(encoded_str);
    let bytes = encoded_str(text)->Ok_0;
    let raw = Seq::new(text.len(), |i: int| text[i] as u32 as u8);
    vstd::utf8::is_ascii_chars_encode_utf8(text);
    vstd::utf8::is_ascii_chars_nat_bound(text);
    vstd::utf8::encode_utf8_valid_utf8(text);
    vstd::utf8::encode_utf8_decode_utf8(text);
    assert(raw =~= encode_utf8(text)) by {
        assert forall|i: int| 0 <= i < text.len() implies raw[i] == encode_utf8(text)[i] by {
            assert(text[i] as u8 == encode_utf8(text)[i]);
        }
    }
    let head = seq![TAG_STRING_EXT] + u16_be(text.len() as u16);
    lemma_tagged(atoms, ByteStringRepresentation::Str, s, pos);
    assert(s[pos + 0] == bytes[0]);
    lemma_placed_split(s, pos, head, raw);
    lemma_placed_split(s, pos, seq![TAG_STRING_EXT], u16_be(text.len() as u16));
    lemma_placed_u16(s, pos + 1, text.len() as u16);
    lemma_placed_subrange(s, pos + 3, raw);
}

/// Whether a name is one of the three that stand for a boolean or for no
/// value.
pub open spec fn is_sentinel(name: Seq<char>) -> bool {
    name == true_name() || name == false_name() || name == undefined_name()
}

/// Whether a node is text that the decoder hands out as it is.
pub open spec fn is_plain_node(node: TermView) -> bool {
    node matches TermView::Str(name) && !is_sentinel(name)
}

/// Whether a term has one form only, so that a decoder with the given
/// options reads it back from its encoding as it was. That is so of
/// integers, floats, booleans, the term for no value, binaries and bit
/// strings; of an atom where the decoder hands out atoms as atoms and the
/// name is none of the three that stand for something else; of a text
/// where the decoder hands out byte strings as text and the text is ASCII
/// and fits a byte string; of a process identifier and of a reference
/// whose node is text; and of a list, a tuple and a map of such terms,
/// where no key of the map comes twice. It is not so of a function
/// object, which has no encoding.
pub open spec fn survives(
    atoms: AtomRepresentation,
    strings: ByteStringRepresentation,
    term: TermView,
) -> bool
    decreases term,
{
    match term {
        TermView::Atom(name) => !is_sentinel(name) && (atoms is TermAtom
            || atoms is TermStrictAtom),
        TermView::Str(text) => strings is Str && text.len() <= 65535 && is_ascii_chars(text),
        TermView::List { elements, tail } => {
            &&& forall|i: int| 0 <= i < elements.len() ==> survives(atoms, strings, elements[i])
            &&& tail matches Some(last) ==> survives(atoms, strings, *last)
        },
        TermView::Tuple(elements) => forall|i: int|
            0 <= i < elements.len() ==> survives(atoms, strings, elements[i]),
        TermView::Dict(entries) => {
            &&& forall|i: int|
                0 <= i < entries.len() ==> survives(atoms, strings, entries[i].0) && survives(
                    atoms,
                    strings,
                    entries[i].1,
                )
            &&& keys_distinct(entries)
        },
        TermView::Pid { node, .. } => is_plain_node(*node),
        TermView::Reference { node, .. } => is_plain_node(*node),
        TermView::Fun { .. } => false,
        _ => true,
    }
}

/// What the decoder makes of a term that starts with the tag of a list,
/// a tuple, a map, a process identifier or a reference.
pub proof fn lemma_tagged_compound(
    atoms: AtomRepresentation,
    strings: ByteStringRepresentation,
    s: Seq<u8>,
    pos: int,
)
    requires
        0 <= pos < s.len(),
    ensures
        s[pos] == TAG_LIST_EXT ==> decoded_term(atoms, strings, s, pos) == decoded_list(
            atoms,
            strings,
            s,
            pos + 1,
        ),
        s[pos] == TAG_SMALL_TUPLE_EXT ==> decoded_term(atoms, strings, s, pos) == decoded_tuple(
            atoms,
            strings,
            s,
            pos + 1,
            false,
        ),
        s[pos] == TAG_LARGE_TUPLE_EXT ==> decoded_term(atoms, strings, s, pos) == decoded_tuple(
            atoms,
            strings,
            s,
            pos + 1,
            true,
        ),
        s[pos] == TAG_MAP_EXT ==> decoded_term(atoms, strings, s, pos) == decoded_dict(
            atoms,
            strings,
            s,
            pos + 1,
        ),
        s[pos] == TAG_NEW_PID_EXT ==> decoded_term(atoms, strings, s, pos) == decoded_pid(
            strings,
            s,
            pos + 1,
            true,
        ),
        s[pos] == TAG_NEWER_REF_EXT ==> decoded_term(atoms, strings, s, pos) == decoded_reference(
            strings,
            s,
            pos + 1,
            true,
        ),
{
    lemma_term_is_payload(atoms, strings, s, pos);
    reveal(decoded_payload);
}

/// That bytes have a first byte, and that it is neither the tag of the
/// empty list nor the mark of a compressed message.
pub open spec fn starts_a_term(bytes: Seq<u8>) -> bool {
    bytes.len() > 0 && bytes[0] != TAG_NIL_EXT && bytes[0] != crate::consts::TAG_COMPRESSED
}

/// Bytes behind a first byte start with it.
pub proof fn lemma_starts_with(first: u8, head: Seq<u8>, rest: Seq<u8>)
    requires
        head.len() > 0,
        head[0] == first,
        first != TAG_NIL_EXT,
        first != crate::consts::TAG_COMPRESSED,
    ensures
        starts_a_term(head + rest),
{
    assert((head + rest)[0] == head[0]);
}

/// The encoding of an integer starts with its tag.
pub proof fn lemma_first_byte_integer(v: int)
    requires
        encoded_integer(v) is Ok,
    ensures
        starts_a_term(encoded_integer(v)->Ok_0),
{
    reveal(encoded_small_int);
    reveal(encoded_big_int);
    let digits = le_digits(magnitude_of(v));
    let sign: u8 = if v < 0 { 1 } else { 0 };
    if 0 <= v <= 255 {
    } else if -0x8000_0000 <= v <= 0x7fff_ffff {
        lemma_starts_with(TAG_INT, seq![TAG_INT], i32_be(v as i32));
    } else if digits.len() < 256 {
        lemma_starts_with(
            TAG_SMALL_BIG_EXT,
            seq![TAG_SMALL_BIG_EXT, digits.len() as u8, sign],
            digits,
        );
    } else {
        lemma_starts_with(
            TAG_LARGE_BIG_EXT,
            seq![TAG_LARGE_BIG_EXT],
            u32_be(digits.len() as u32) + seq![sign] + digits,
        );
        assert(seq![TAG_LARGE_BIG_EXT] + (u32_be(digits.len() as u32) + seq![sign] + digits)
            =~= seq![TAG_LARGE_BIG_EXT] + u32_be(digits.len() as u32) + seq![sign] + digits);
    }
}

/// The encoding of an atom starts with its tag.
pub proof fn lemma_first_byte_atom(name: Seq<char>)
    requires
        encoded_atom(name) is Ok,
    ensures
        starts_a_term(encoded_atom(name)->Ok_0),
{
    reveal(encoded_atom);
    let raw = encode_utf8(name);
    if raw.len() <= 255 {
        lemma_starts_with(
            TAG_SMALL_ATOM_UTF8_EXT,
            seq![TAG_SMALL_ATOM_UTF8_EXT, raw.len() as u8],
            raw,
        );
    } else {
        lemma_starts_with(TAG_ATOM_UTF8_EXT, seq![TAG_ATOM_UTF8_EXT], u16_be(raw.len() as u16) + raw);
        assert(seq![TAG_ATOM_UTF8_EXT] + (u16_be(raw.len() as u16) + raw) =~= seq![
            TAG_ATOM_UTF8_EXT,
        ] + u16_be(raw.len() as u16) + raw);
    }
}

/// The encoding of a text starts with its tag.
pub proof fn lemma_first_byte_str(text: Seq<char>)
    requires
        encoded_str(text) is Ok,
    ensures
        starts_a_term(encoded_str(text)->Ok_0),
{
    reveal(encoded_str);
    let bytes = encoded_str(text)->Ok_0;
    if crate::wire::fits_byte_string(text) {
        let head = seq![TAG_STRING_EXT] + u16_be(text.len() as u16);
        assert(head[0] == TAG_STRING_EXT);
        assert(bytes[0] == head[0]);
    } else {
        let head = seq![TAG_LIST_EXT] + u32_be(text.len() as u32);
        assert(head[0] == TAG_LIST_EXT);
        assert(bytes[0] == head[0]);
    }
}

/// The encoding of a float, a binary or a bit string starts with its tag.
pub proof fn lemma_first_byte_bytes(term: TermView)
    requires
        encoded_term(term) is Ok,
        term is Float || term is Binary || term is BitString,
    ensures
        starts_a_term(encoded_term(term)->Ok_0),
{
    reveal(encoded_float);
    reveal(encoded_binary);
    reveal(encoded_bit_string);
    let bytes = encoded_term(term)->Ok_0;
    match term {
        TermView::Float(bits) => {
            lemma_starts_with(TAG_NEW_FLOAT_EXT, seq![TAG_NEW_FLOAT_EXT], u64_be(bits));
        },
        TermView::Binary(data) => {
            let head = seq![TAG_BINARY_EXT] + u32_be(data.len() as u32);
            assert(head[0] == TAG_BINARY_EXT);
            assert(bytes[0] == head[0]);
        },
        TermView::BitString { bytes: data, last_byte_bits } => {
            let head = seq![TAG_BIT_BINARY_EXT] + u32_be(data.len() as u32);
            assert(head[0] == TAG_BIT_BINARY_EXT);
            assert(bytes[0] == head[0]);
        },
        _ => {},
    }
}

/// The encoding of a list, a tuple, a map, a process identifier or a reference
/// starts with its tag.
pub proof fn lemma_first_byte_compound(term: TermView)
    requires
        encoded_term(term) is Ok,
        term is List || term is Tuple || term is Dict || term is Pid || term is Reference,
    ensures
        starts_a_term(encoded_term(term)->Ok_0),
{
    reveal(encoded_pid);
    reveal(encoded_reference);
    let bytes = encoded_term(term)->Ok_0;
    match term {
        TermView::List { elements, tail } => {
            let head = encoded_list_head(elements)->Ok_0;
            let start = seq![TAG_LIST_EXT] + u32_be(elements.len() as u32);
            assert(start[0] == TAG_LIST_EXT);
            assert(head[0] == start[0]);
            assert(bytes[0] == head[0]);
        },
        TermView::Tuple(elements) => {
            if elements.len() <= 255 {
                let start = seq![TAG_SMALL_TUPLE_EXT, elements.len() as u8];
                assert(bytes[0] == start[0]);
            } else {
                let start = seq![TAG_LARGE_TUPLE_EXT] + u32_be(elements.len() as u32);
                assert(start[0] == TAG_LARGE_TUPLE_EXT);
                assert(bytes[0] == start[0]);
            }
        },
        TermView::Dict(entries) => {
            let start = seq![TAG_MAP_EXT] + u32_be(entries.len() as u32);
            assert(start[0] == TAG_MAP_EXT);
            assert(bytes[0] == start[0]);
        },
        TermView::Pid { node, id, serial, creation } => {
            assert(bytes[0] == seq![TAG_NEW_PID_EXT][0]);
        },
        TermView::Reference { node, creation, id } => {
            let start = seq![TAG_NEWER_REF_EXT] + u16_be((id.len() / 4) as u16);
            assert(start[0] == TAG_NEWER_REF_EXT);
            assert(bytes[0] == start[0]);
        },
        _ => {},
    }
}

/// An encoding has a first byte, and it is neither the tag of the empty
/// list nor the mark of a compressed message.
pub proof fn lemma_first_byte(term: TermView)
    requires
        encoded_term(term) is Ok,
    ensures
        starts_a_term(encoded_term(term)->Ok_0),
{
    match term {
        TermView::Integer(v) => lemma_first_byte_integer(v),
        TermView::Atom(name) => lemma_first_byte_atom(name),
        TermView::Bool(b) => lemma_first_byte_atom(
            if b {
                true_name()
            } else {
                false_name()
            },
        ),
        TermView::Undefined => lemma_first_byte_atom(undefined_name()),
        TermView::Str(text) => lemma_first_byte_str(text),
        TermView::Float(_) | TermView::Binary(_) | TermView::BitString { .. } => {
            lemma_first_byte_bytes(term)
        },
        TermView::Fun { .. } => {},
        _ => lemma_first_byte_compound(term),
    }
}

/// A process identifier that was encoded is read back, where its node is
/// text.
#[verifier::spinoff_prover]
pub proof fn lemma_pid_back(
    atoms: AtomRepresentation,
    strings: ByteStringRepresentation,
    name: Seq<char>,
    id: u32,
    serial: u32,
    creation: u32,
    s: Seq<u8>,
    pos: int,
)
    requires
        !is_sentinel(name),
        encoded_pid(TermView::Str(name), id, serial, creation) matches Ok(bytes) && placed(
            s,
            pos,
            bytes,
        ),
    ensures
        decoded_term(atoms, strings, s, pos) == Ok::<(TermView, int), CodecError>(
            (
                TermView::Pid { node: Box::new(TermView::Str(name)), id, serial, creation },
                pos + encoded_pid(TermView::Str(name), id, serial, creation)->Ok_0.len(),
            ),
        ),
{
    reveal(encoded_pid);
    let bytes = encoded_pid(TermView::Str(name), id, serial, creation)->Ok_0;
    let node = encoded_atom(name)->Ok_0;
    let trailer = u32_be(id) + u32_be(serial) + u32_be(creation);
    let end = pos + 1 + node.len();
    assert(bytes == seq![TAG_NEW_PID_EXT] + (node + trailer));
    assert(bytes.len() == 1 + node.len() + 12);
    assert(s[pos + 0] == bytes[0]);
    lemma_placed_split(s, pos, seq![TAG_NEW_PID_EXT], node + trailer);
    lemma_placed_split(s, pos + 1, node, trailer);
    lemma_placed_split(s, end, u32_be(id) + u32_be(serial), u32_be(creation));
    lemma_placed_split(s, end, u32_be(id), u32_be(serial));
    assert(decoded_term(AtomRepresentation::Str, strings, s, pos + 1) == Ok::<
        (TermView, int),
        CodecError,
    >((TermView::Str(name), end))) by {
        lemma_atom_back(AtomRepresentation::Str, strings, name, s, pos + 1);
    }
    assert(be_u32_at(s, end) == id && be_u32_at(s, end + 4) == serial && be_u32_at(s, end + 8)
        == creation) by {
        lemma_placed_u32(s, end, id);
        lemma_placed_u32(s, end + 4, serial);
        lemma_placed_u32(s, end + 8, creation);
    }
    assert(decoded_term(atoms, strings, s, pos) == decoded_pid(strings, s, pos + 1, true)) by {
        lemma_tagged_compound(atoms, strings, s, pos);
    }
}

/// A reference that was encoded is read back, where its node is text.
#[verifier::spinoff_prover]
pub proof fn lemma_reference_back(
    atoms: AtomRepresentation,
    strings: ByteStringRepresentation,
    name: Seq<char>,
    creation: u32,
    id: Seq<u8>,
    s: Seq<u8>,
    pos: int,
)
    requires
        !is_sentinel(name),
        encoded_reference(TermView::Str(name), creation, id) matches Ok(bytes) && placed(
            s,
            pos,
            bytes,
        ),
    ensures
        decoded_term(atoms, strings, s, pos) == Ok::<(TermView, int), CodecError>(
            (
                TermView::Reference { node: Box::new(TermView::Str(name)), creation, id },
                pos + encoded_reference(TermView::Str(name), creation, id)->Ok_0.len(),
            ),
        ),
{
    reveal(encoded_reference);
    let bytes = encoded_reference(TermView::Str(name), creation, id)->Ok_0;
    let node = encoded_atom(name)->Ok_0;
    let words = (id.len() / 4) as u16;
    let head = seq![TAG_NEWER_REF_EXT] + u16_be(words);
    let end = pos + 3 + node.len();
    assert(bytes == head + (node + (u32_be(creation) + id)));
    assert(bytes.len() == 3 + node.len() + 4 + id.len());
    assert(bytes[0] == head[0]);
    assert(s[pos + 0] == bytes[0]);
    lemma_placed_split(s, pos, head, node + (u32_be(creation) + id));
    lemma_placed_split(s, pos, seq![TAG_NEWER_REF_EXT], u16_be(words));
    lemma_placed_split(s, pos + 3, node, u32_be(creation) + id);
    lemma_placed_split(s, end, u32_be(creation), id);
    assert(decoded_term(AtomRepresentation::Str, strings, s, pos + 3) == Ok::<
        (TermView, int),
        CodecError,
    >((TermView::Str(name), end))) by {
        lemma_atom_back(AtomRepresentation::Str, strings, name, s, pos + 3);
    }
    assert(be_u16_at(s, pos + 1) == words) by {
        lemma_placed_u16(s, pos + 1, words);
    }
    assert(be_u32_at(s, end) == creation) by {
        lemma_placed_u32(s, end, creation);
    }
    assert(s.subrange(end + 4, end + 4 + 4 * words) == id) by {
        lemma_placed_subrange(s, end + 4, id);
    }
    assert(decoded_term(atoms, strings, s, pos) == decoded_reference(strings, s, pos + 3 - 2, true))
        by {
        lemma_tagged_compound(atoms, strings, s, pos);
    }
}

/// The keys and values of the first `n` entries, each key followed by
/// its value.
pub open spec fn flattened(entries: Seq<(TermView, TermView)>, n: nat) -> Seq<TermView>
    decreases n,
{
    if n == 0 {
        Seq::empty()
    } else {
        flattened(entries, (n - 1) as nat).push(entries[n - 1].0).push(entries[n - 1].1)
    }
}

/// A map that is filled with entries whose keys differ holds those
/// entries, in their order.
pub proof fn lemma_dict_of_flattened(entries: Seq<(TermView, TermView)>, n: nat)
    requires
        n <= entries.len(),
        keys_distinct(entries),
    ensures
        flattened(entries, n).len() == 2 * n,
        dict_of(flattened(entries, n)) == entries.take(n as int),
    decreases n,
{
    if n == 0 {
        assert(dict_of(flattened(entries, n)) =~= entries.take(n as int));
    } else {
        lemma_dict_of_flattened(entries, (n - 1) as nat);
        let before = flattened(entries, (n - 1) as nat);
        let all = flattened(entries, n);
        let key = entries[n - 1].0;
        let value = entries[n - 1].1;
        assert(all.take(all.len() - 2) =~= before);
        let filled = entries.take(n - 1);
        assert(dict_of(all) == dict_put(filled, key, value));
        assert(!(exists|i: int| 0 <= i < filled.len() && filled[i].0 == key)) by {
            assert forall|i: int| 0 <= i < filled.len() implies filled[i].0 != key by {
                assert(entries[i].0 != entries[n - 1].0);
            }
        }
        assert(filled.push((key, value)) =~= entries.take(n as int));
    }
}

/// The tag of a list, the number of elements and the elements as they
/// were decoded, with the end of the list, make up the list.
pub proof fn lemma_list_assemble(
    atoms: AtomRepresentation,
    strings: ByteStringRepresentation,
    elements: Seq<TermView>,
    tail: Option<Box<TermView>>,
    s: Seq<u8>,
    pos: int,
    e: int,
    end: int,
)
    requires
        elements.len() <= u32::MAX,
        placed(s, pos, seq![TAG_LIST_EXT] + u32_be(elements.len() as u32)),
        decoded_run(atoms, strings, s, pos + 5, elements.len()) == Ok::<
            (Seq<TermView>, int),
            CodecError,
        >((elements, e)),
        pos + 5 <= e < s.len(),
        match tail {
            None => s[e] == TAG_NIL_EXT && end == e + 1,
            Some(last) => s[e] != TAG_NIL_EXT && decoded_term(atoms, strings, s, e) == Ok::<
                (TermView, int),
                CodecError,
            >((*last, end)),
        },
    ensures
        decoded_term(atoms, strings, s, pos) == Ok::<(TermView, int), CodecError>(
            (TermView::List { elements, tail }, end),
        ),
{
    let header = seq![TAG_LIST_EXT] + u32_be(elements.len() as u32);
    lemma_placed_split(s, pos, seq![TAG_LIST_EXT], u32_be(elements.len() as u32));
    lemma_placed_u32(s, pos + 1, elements.len() as u32);
    assert(s[pos + 0] == header[0]);
    lemma_tagged_compound(atoms, strings, s, pos);
}

/// The tag of a tuple, the arity and the elements as they were decoded
/// make up the tuple.
pub proof fn lemma_tuple_assemble(
    atoms: AtomRepresentation,
    strings: ByteStringRepresentation,
    elements: Seq<TermView>,
    s: Seq<u8>,
    pos: int,
    end: int,
)
    requires
        elements.len() <= u32::MAX,
        if elements.len() <= 255 {
            placed(s, pos, seq![TAG_SMALL_TUPLE_EXT, elements.len() as u8]) && decoded_run(
                atoms,
                strings,
                s,
                pos + 2,
                elements.len(),
            ) == Ok::<(Seq<TermView>, int), CodecError>((elements, end))
        } else {
            placed(s, pos, seq![TAG_LARGE_TUPLE_EXT] + u32_be(elements.len() as u32))
                && decoded_run(atoms, strings, s, pos + 5, elements.len()) == Ok::<
                (Seq<TermView>, int),
                CodecError,
            >((elements, end))
        },
    ensures
        decoded_term(atoms, strings, s, pos) == Ok::<(TermView, int), CodecError>(
            (TermView::Tuple(elements), end),
        ),
{
    if elements.len() <= 255 {
        let header = seq![TAG_SMALL_TUPLE_EXT, elements.len() as u8];
        assert(s[pos + 0] == header[0]);
        assert(s[pos + 1] == header[1]);
    } else {
        let header = seq![TAG_LARGE_TUPLE_EXT] + u32_be(elements.len() as u32);
        lemma_placed_split(s, pos, seq![TAG_LARGE_TUPLE_EXT], u32_be(elements.len() as u32));
        lemma_placed_u32(s, pos + 1, elements.len() as u32);
        assert(s[pos + 0] == header[0]);
    }
    lemma_tagged_compound(atoms, strings, s, pos);
}

/// The tag of a map, the number of entries and the keys and values as
/// they were decoded make up the map, where no key comes twice.
pub proof fn lemma_dict_assemble(
    atoms: AtomRepresentation,
    strings: ByteStringRepresentation,
    entries: Seq<(TermView, TermView)>,
    s: Seq<u8>,
    pos: int,
    end: int,
)
    requires
        entries.len() <= u32::MAX,
        keys_distinct(entries),
        placed(s, pos, seq![TAG_MAP_EXT] + u32_be(entries.len() as u32)),
        decoded_run(atoms, strings, s, pos + 5, (2 * entries.len()) as nat) == Ok::<
            (Seq<TermView>, int),
            CodecError,
        >((flattened(entries, entries.len()), end)),
    ensures
        decoded_term(atoms, strings, s, pos) == Ok::<(TermView, int), CodecError>(
            (TermView::Dict(entries), end),
        ),
{
    let header = seq![TAG_MAP_EXT] + u32_be(entries.len() as u32);
    lemma_placed_split(s, pos, seq![TAG_MAP_EXT], u32_be(entries.len() as u32));
    lemma_placed_u32(s, pos + 1, entries.len() as u32);
    assert(s[pos + 0] == header[0]);
    lemma_tagged_compound(atoms, strings, s, pos);
    lemma_dict_of_flattened(entries, entries.len());
    assert(entries.take(entries.len() as int) =~= entries);
}

/// A run of terms that was encoded is read back, term by term.
#[verifier::spinoff_prover]
pub proof fn lemma_run_back(
    atoms: AtomRepresentation,
    strings: ByteStringRepresentation,
    terms: Seq<TermView>,
    from: int,
    s: Seq<u8>,
    pos: int,
)
    requires
        0 <= from <= terms.len(),
        forall|i: int| from <= i < terms.len() ==> survives(atoms, strings, terms[i]),
        encoded_run(terms, from) matches Ok(bytes) && placed(s, pos, bytes),
    ensures
        decoded_run(atoms, strings, s, pos, (terms.len() - from) as nat) == Ok::<
            (Seq<TermView>, int),
            CodecError,
        >((terms.skip(from), pos + encoded_run(terms, from)->Ok_0.len())),
    decreases terms, terms.len() - from + 2,
{
    let bytes = encoded_run(terms, from)->Ok_0;
    if from == terms.len() {
        assert(terms.skip(from) =~= Seq::<TermView>::empty());
    } else {
        let first = encoded_term(terms[from])->Ok_0;
        let rest = encoded_run(terms, from + 1)->Ok_0;
        assert(bytes == first + rest);
        lemma_placed_split(s, pos, first, rest);
        lemma_term_back(atoms, strings, terms[from], s, pos);
        let end = pos + first.len();
        lemma_run_back(atoms, strings, terms, from + 1, s, end);
        assert(onward(s, pos, end) == end);
        assert(decoded_run(atoms, strings, s, pos, (terms.len() - from) as nat) == run_after(
            terms[from],
            decoded_run(atoms, strings, s, end, (terms.len() - from - 1) as nat),
        ));
        assert(seq![terms[from]] + terms.skip(from + 1) =~= terms.skip(from));
    }
}

/// The entries of a map that were encoded are read back, each key
/// followed by its value. What was read before is `start` and what
/// is known of the run from there.
#[verifier::spinoff_prover]
pub proof fn lemma_pairs_back(
    atoms: AtomRepresentation,
    strings: ByteStringRepresentation,
    entries: Seq<(TermView, TermView)>,
    from: int,
    s: Seq<u8>,
    start: int,
    pos: int,
)
    requires
        0 <= from <= entries.len(),
        forall|i: int|
            from <= i < entries.len() ==> survives(atoms, strings, entries[i].0) && survives(
                atoms,
                strings,
                entries[i].1,
            ),
        encoded_pairs(entries, from) matches Ok(bytes) && placed(s, pos, bytes),
        decoded_run(atoms, strings, s, start, (2 * entries.len()) as nat) == run_prefixed(
            flattened(entries, from as nat),
            decoded_run(atoms, strings, s, pos, (2 * (entries.len() - from)) as nat),
        ),
    ensures
        decoded_run(atoms, strings, s, start, (2 * entries.len()) as nat) == Ok::<
            (Seq<TermView>, int),
            CodecError,
        >((flattened(entries, entries.len()), pos + encoded_pairs(entries, from)->Ok_0.len())),
    decreases entries, entries.len() - from + 2,
{
    let bytes = encoded_pairs(entries, from)->Ok_0;
    let count = (2 * entries.len()) as nat;
    let left = (2 * (entries.len() - from)) as nat;
    let done = flattened(entries, from as nat);
    if from == entries.len() {
        lemma_run_end(done, pos);
    } else {
        let key = encoded_term(entries[from].0)->Ok_0;
        let value = encoded_term(entries[from].1)->Ok_0;
        let rest = encoded_pairs(entries, from + 1)->Ok_0;
        assert(bytes == (key + value) + rest);
        lemma_placed_split(s, pos, key + value, rest);
        lemma_placed_split(s, pos, key, value);
        let mid = pos + key.len();
        let end = mid + value.len();
        lemma_term_back(atoms, strings, entries[from].0, s, pos);
        lemma_run_unfold(atoms, strings, s, start, count, done, pos, left);
        lemma_term_back(atoms, strings, entries[from].1, s, mid);
        lemma_run_unfold(
            atoms,
            strings,
            s,
            start,
            count,
            done.push(entries[from].0),
            mid,
            (left - 1) as nat,
        );
        assert(flattened(entries, (from + 1) as nat) == done.push(entries[from].0).push(
            entries[from].1,
        ));
        lemma_pairs_back(atoms, strings, entries, from + 1, s, start, end);
    }
}

/// A boolean or the term for no value that was encoded is read back.
pub proof fn lemma_sentinel_back(
    atoms: AtomRepresentation,
    strings: ByteStringRepresentation,
    term: TermView,
    s: Seq<u8>,
    pos: int,
)
    requires
        term is Bool || term is Undefined,
        encoded_term(term) matches Ok(bytes) && placed(s, pos, bytes),
    ensures
        decoded_term(atoms, strings, s, pos) == Ok::<(TermView, int), CodecError>(
            (term, pos + encoded_term(term)->Ok_0.len()),
        ),
{
    assert(true_name().len() != false_name().len());
    assert(true_name().len() != undefined_name().len());
    assert(false_name().len() != undefined_name().len());
    match term {
        TermView::Bool(b) => {
            let name = if b { true_name() } else { false_name() };
            assert(encoded_term(term) == encoded_atom(name));
            lemma_atom_back(atoms, strings, name, s, pos);
            assert(atom_term(atoms, name) == term);
        },
        _ => {
            assert(encoded_term(term) == encoded_atom(undefined_name()));
            lemma_atom_back(atoms, strings, undefined_name(), s, pos);
            assert(atom_term(atoms, undefined_name()) == term);
        },
    }
}

/// A term that is no list, tuple or map is read back.
#[verifier::spinoff_prover]
pub proof fn lemma_simple_back(
    atoms: AtomRepresentation,
    strings: ByteStringRepresentation,
    term: TermView,
    s: Seq<u8>,
    pos: int,
)
    requires
        !(term is List || term is Tuple || term is Dict),
        survives(atoms, strings, term),
        encoded_term(term) matches Ok(bytes) && placed(s, pos, bytes),
    ensures
        decoded_term(atoms, strings, s, pos) == Ok::<(TermView, int), CodecError>(
            (term, pos + encoded_term(term)->Ok_0.len()),
        ),
{
    match term {
        TermView::Integer(v) => {
            assert(encoded_term(term) == encoded_integer(v));
            lemma_integer_back(atoms, strings, v, s, pos);
        },
        TermView::Float(bits) => {
            assert(encoded_term(term) == encoded_float(bits));
            lemma_float_back(atoms, strings, bits, s, pos);
            assert(encoded_float(bits)->Ok_0.len() == 9) by {
                reveal(encoded_float);
            }
        },
        TermView::Atom(name) => {
            assert(encoded_term(term) == encoded_atom(name));
            lemma_atom_back(atoms, strings, name, s, pos);
            assert(atom_term(atoms, name) == term);
        },
        TermView::Bool(_) | TermView::Undefined => {
            lemma_sentinel_back(atoms, strings, term, s, pos);
        },
        TermView::Binary(data) => {
            assert(encoded_term(term) == encoded_binary(data));
            lemma_binary_back(atoms, strings, data, s, pos);
            assert(encoded_binary(data)->Ok_0.len() == 5 + data.len()) by {
                reveal(encoded_binary);
            }
        },
        TermView::BitString { bytes: data, last_byte_bits } => {
            assert(encoded_term(term) == encoded_bit_string(data, last_byte_bits));
            lemma_bit_string_back(atoms, strings, data, last_byte_bits, s, pos);
            assert(encoded_bit_string(data, last_byte_bits)->Ok_0.len() == 6 + data.len()) by {
                reveal(encoded_bit_string);
            }
        },
        TermView::Str(text) => {
            assert(encoded_term(term) == encoded_str(text));
            lemma_text_back(atoms, text, s, pos);
            assert(encoded_str(text)->Ok_0.len() == 3 + text.len()) by {
                reveal(encoded_str);
                vstd::utf8::is_ascii_chars_nat_bound(text);
            }
        },
        TermView::Pid { node, id, serial, creation } => {
            let name = node->Str_0;
            assert(*node == TermView::Str(name));
            assert(encoded_term(term) == encoded_pid(TermView::Str(name), id, serial, creation));
            lemma_pid_back(atoms, strings, name, id, serial, creation, s, pos);
        },
        TermView::Reference { node, creation, id } => {
            let name = node->Str_0;
            assert(*node == TermView::Str(name));
            assert(encoded_term(term) == encoded_reference(TermView::Str(name), creation, id));
            lemma_reference_back(atoms, strings, name, creation, id, s, pos);
        },
        _ => {},
    }
}

/// A list that was encoded is read back.
#[verifier::spinoff_prover]
pub proof fn lemma_list_back(
    atoms: AtomRepresentation,
    strings: ByteStringRepresentation,
    term: TermView,
    s: Seq<u8>,
    pos: int,
)
    requires
        term is List,
        survives(atoms, strings, term),
        encoded_term(term) matches Ok(bytes) && placed(s, pos, bytes),
    ensures
        decoded_term(atoms, strings, s, pos) == Ok::<(TermView, int), CodecError>(
            (term, pos + encoded_term(term)->Ok_0.len()),
        ),
    decreases term, 0nat,
{
    let elements = term->List_elements;
    let tail = term->List_tail;
    let bytes = encoded_term(term)->Ok_0;
    let head = encoded_list_head(elements)->Ok_0;
    let header = seq![TAG_LIST_EXT] + u32_be(elements.len() as u32);
    let body = encoded_run(elements, 0)->Ok_0;
    let last_bytes = match tail {
        None => seq![TAG_NIL_EXT],
        Some(last) => encoded_term(*last)->Ok_0,
    };
    let e = pos + head.len();
    assert(term == TermView::List { elements, tail });
    assert(encoded_list_head(elements) is Ok && bytes == head + last_bytes);
    assert(elements.len() <= u32::MAX && encoded_run(elements, 0) is Ok && head == header + body);
    assert(header.len() == 5);
    lemma_placed_split(s, pos, head, last_bytes);
    lemma_placed_split(s, pos, header, body);
    assert(decoded_run(atoms, strings, s, pos + 5, elements.len()) == Ok::<
        (Seq<TermView>, int),
        CodecError,
    >((elements, e))) by {
        lemma_run_back(atoms, strings, elements, 0, s, pos + 5);
        assert(elements.skip(0) =~= elements);
    }
    match tail {
        None => {
            assert(s[e + 0] == last_bytes[0]);
            lemma_list_assemble(atoms, strings, elements, tail, s, pos, e, e + 1);
        },
        Some(last) => {
            assert(starts_a_term(last_bytes)) by {
                lemma_first_byte(*last);
            }
            assert(s[e + 0] == last_bytes[0]);
            assert(decoded_term(atoms, strings, s, e) == Ok::<(TermView, int), CodecError>(
                (*last, e + last_bytes.len()),
            )) by {
                lemma_term_back(atoms, strings, *last, s, e);
            }
            lemma_list_assemble(atoms, strings, elements, tail, s, pos, e, e + last_bytes.len());
        },
    }
}

/// A tuple that was encoded is read back.
#[verifier::spinoff_prover]
pub proof fn lemma_tuple_back(
    atoms: AtomRepresentation,
    strings: ByteStringRepresentation,
    term: TermView,
    s: Seq<u8>,
    pos: int,
)
    requires
        term is Tuple,
        survives(atoms, strings, term),
        encoded_term(term) matches Ok(bytes) && placed(s, pos, bytes),
    ensures
        decoded_term(atoms, strings, s, pos) == Ok::<(TermView, int), CodecError>(
            (term, pos + encoded_term(term)->Ok_0.len()),
        ),
    decreases term, 0nat,
{
    let elements = term->Tuple_0;
    let bytes = encoded_term(term)->Ok_0;
    let body = encoded_run(elements, 0)->Ok_0;
    if elements.len() <= 255 {
        let header = seq![TAG_SMALL_TUPLE_EXT, elements.len() as u8];
        lemma_placed_split(s, pos, header, body);
        lemma_run_back(atoms, strings, elements, 0, s, pos + 2);
    } else {
        let header = seq![TAG_LARGE_TUPLE_EXT] + u32_be(elements.len() as u32);
        lemma_placed_split(s, pos, header, body);
        lemma_run_back(atoms, strings, elements, 0, s, pos + 5);
    }
    assert(elements.skip(0) =~= elements);
    lemma_tuple_assemble(atoms, strings, elements, s, pos, pos + bytes.len());
}

/// A map that was encoded is read back, where no key comes twice.
#[verifier::spinoff_prover]
pub proof fn lemma_dict_back(
    atoms: AtomRepresentation,
    strings: ByteStringRepresentation,
    term: TermView,
    s: Seq<u8>,
    pos: int,
)
    requires
        term is Dict,
        survives(atoms, strings, term),
        encoded_term(term) matches Ok(bytes) && placed(s, pos, bytes),
    ensures
        decoded_term(atoms, strings, s, pos) == Ok::<(TermView, int), CodecError>(
            (term, pos + encoded_term(term)->Ok_0.len()),
        ),
    decreases term, 0nat,
{
    let entries = term->Dict_0;
    let bytes = encoded_term(term)->Ok_0;
    let header = seq![TAG_MAP_EXT] + u32_be(entries.len() as u32);
    let body = encoded_pairs(entries, 0)->Ok_0;
    lemma_placed_split(s, pos, header, body);
    lemma_run_start(decoded_run(atoms, strings, s, pos + 5, (2 * entries.len()) as nat));
    lemma_pairs_back(atoms, strings, entries, 0, s, pos + 5, pos + 5);
    lemma_dict_assemble(atoms, strings, entries, s, pos, pos + bytes.len());
}

/// A term that has one form only and that was encoded is read back from
/// wherever its encoding stands, and the decoder ends behind it.
pub proof fn lemma_term_back(
    atoms: AtomRepresentation,
    strings: ByteStringRepresentation,
    term: TermView,
    s: Seq<u8>,
    pos: int,
)
    requires
        survives(atoms, strings, term),
        encoded_term(term) matches Ok(bytes) && placed(s, pos, bytes),
    ensures
        decoded_term(atoms, strings, s, pos) == Ok::<(TermView, int), CodecError>(
            (term, pos + encoded_term(term)->Ok_0.len()),
        ),
    decreases term, 1nat,
{
    if term is List {
        lemma_list_back(atoms, strings, term, s, pos);
    } else if term is Tuple {
        lemma_tuple_back(atoms, strings, term, s, pos);
    } else if term is Dict {
        lemma_dict_back(atoms, strings, term, s, pos);
    } else {
        lemma_simple_back(atoms, strings, term, s, pos);
    }
}

} // verus!
