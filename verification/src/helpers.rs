//! Options of the decoder, and big-endian writes to a byte vector.

use vstd::prelude::*;
use vstd::string::*;
use crate::endian::{i32_be, u16_be, u32_be, u64_be};
use crate::errors::{CodecError, CodecResult};
use crate::integer::same_bytes;

verus! {

/// How a decoded atom is handed out.
#[derive(Debug, Clone, Copy, PartialEq, Eq)]
pub enum AtomRepresentation {
    /// As an atom.
    TermAtom,
    /// As an atom of the strict kind.
    TermStrictAtom,
    /// As the bytes of its name in UTF-8.
    Bytes,
    /// As text.
    Str,
}

/// How a decoded byte string is handed out.
#[derive(Debug, Clone, Copy, PartialEq, Eq)]
pub enum ByteStringRepresentation {
    /// As bytes.
    Bytes,
    /// As text.
    Str,
    /// As a list of the bytes as integers.
    IntList,
}

/// Whether two strings hold the same text.
pub fn same_text(a: &str, b: &str) -> (r: bool)
    ensures
        r == (a@ == b@),
{
    proof {
        vstd::utf8::encode_utf8_decode_utf8(a@);
        vstd::utf8::encode_utf8_decode_utf8(b@);
    }
    same_bytes(a.as_bytes(), b.as_bytes())
}

/// The value of an option: the one given, or else the default.
pub fn get_str_opt(value: Option<&str>, default: &str) -> (r: String)
    ensures
        r@ == opt_value(value, default@),
{
    match value {
        Some(s) => s.to_owned(),
        None => default.to_owned(),
    }
}

/// The value of an option in specifications: the one given, or else the
/// default.
pub open spec fn opt_value(value: Option<&str>, default: Seq<char>) -> Seq<char> {
    match value {
        Some(s) => s@,
        None => default,
    }
}

/// What is said of a value that the option `atom` cannot take.
pub open spec fn atom_opt_message(value: Seq<char>) -> Seq<char> {
    "'atom' option is '"@ + value + "' while expected: bytes, str, Atom, StrictAtom"@
}

/// What is said of a value that the option `byte_string` cannot take.
pub open spec fn byte_str_opt_message(value: Seq<char>) -> Seq<char> {
    "'byte_string' option is '"@ + value + "' while expected: bytes, str"@
}

/// That an option was read as it must be: `parsed` where the value is one
/// that the option can take, else the error with the text `message`.
pub open spec fn reads_option<T>(r: CodecResult<T>, parsed: Option<T>, message: Seq<char>) -> bool {
    match parsed {
        Some(v) => r == Ok::<T, CodecError>(v),
        None => r matches Err(CodecError::BadOptions { txt }) && txt@ == message,
    }
}

/// What `get_atom_opt` answers to each value of the option.
pub open spec fn atom_opt_of(value: Seq<char>) -> Option<AtomRepresentation> {
    if value == "bytes"@ {
        Some(AtomRepresentation::Bytes)
    } else if value == "str"@ {
        Some(AtomRepresentation::Str)
    } else if value == "Atom"@ {
        Some(AtomRepresentation::TermAtom)
    } else if value == "StrictAtom"@ {
        Some(AtomRepresentation::TermStrictAtom)
    } else {
        None
    }
}

/// The atom representation that the option `atom` asks for; `Atom` where
/// the option is not given.
pub fn get_atom_opt(value: Option<&str>) -> (r: CodecResult<AtomRepresentation>)
    ensures
        reads_option(
            r,
            atom_opt_of(opt_value(value, "Atom"@)),
            atom_opt_message(opt_value(value, "Atom"@)),
        ),
{
    let opt_s = get_str_opt(value, "Atom");
    if same_text(opt_s.as_str(), "bytes") {
        Ok(AtomRepresentation::Bytes)
    } else if same_text(opt_s.as_str(), "str") {
        Ok(AtomRepresentation::Str)
    } else if same_text(opt_s.as_str(), "Atom") {
        Ok(AtomRepresentation::TermAtom)
    } else if same_text(opt_s.as_str(), "StrictAtom") {
        Ok(AtomRepresentation::TermStrictAtom)
    } else {
        let mut txt = String::from_str("'atom' option is '");
        txt.append(opt_s.as_str());
        txt.append("' while expected: bytes, str, Atom, StrictAtom");
        Err(CodecError::BadOptions { txt })
    }
}

/// What `get_byte_str_opt` answers to each value of the option.
pub open spec fn byte_str_opt_of(value: Seq<char>) -> Option<ByteStringRepresentation> {
    if value == "bytes"@ {
        Some(ByteStringRepresentation::Bytes)
    } else if value == "str"@ {
        Some(ByteStringRepresentation::Str)
    } else if value == "int_list"@ {
        Some(ByteStringRepresentation::IntList)
    } else {
        None
    }
}

/// The byte-string representation that the option `byte_string` asks for;
/// `str` where the option is not given.
pub fn get_byte_str_opt(value: Option<&str>) -> (r: CodecResult<ByteStringRepresentation>)
    ensures
        reads_option(
            r,
            byte_str_opt_of(opt_value(value, "str"@)),
            byte_str_opt_message(opt_value(value, "str"@)),
        ),
{
    let opt_s = get_str_opt(value, "str");
    if same_text(opt_s.as_str(), "bytes") {
        Ok(ByteStringRepresentation::Bytes)
    } else if same_text(opt_s.as_str(), "str") {
        Ok(ByteStringRepresentation::Str)
    } else if same_text(opt_s.as_str(), "int_list") {
        Ok(ByteStringRepresentation::IntList)
    } else {
        let mut txt = String::from_str("'byte_string' option is '");
        txt.append(opt_s.as_str());
        txt.append("' while expected: bytes, str");
        Err(CodecError::BadOptions { txt })
    }
}

/// Appending numbers to a byte buffer, most significant byte first.
pub trait VecWriteExt {
    /// The bytes in the buffer.
    spec fn written(&self) -> Seq<u8>;

    /// Appends the four bytes of `value`.
    fn push_u32(&mut self, value: u32)
        ensures
            final(self).written() == old(self).written() + u32_be(value),
    ;

    /// Appends the four bytes of `value` in two's complement.
    fn push_i32(&mut self, value: i32)
        ensures
            final(self).written() == old(self).written() + i32_be(value),
    ;

    /// Appends the two bytes of `value`.
    fn push_u16(&mut self, value: u16)
        ensures
            final(self).written() == old(self).written() + u16_be(value),
    ;

    /// Appends the eight bytes of a binary64 number, given by its bit
    /// pattern.
    fn push_f64(&mut self, bits: u64)
        ensures
            final(self).written() == old(self).written() + u64_be(bits),
    ;
}

impl VecWriteExt for Vec<u8> {
    open spec fn written(&self) -> Seq<u8> {
        self@
    }

    fn push_u32(&mut self, value: u32) {
        self.push((value / 0x100_0000) as u8);
        self.push((value / 0x1_0000 % 0x100) as u8);
        self.push((value / 0x100 % 0x100) as u8);
        self.push((value % 0x100) as u8);
        assert(self@ =~= old(self)@ + u32_be(value));
    }

    fn push_i32(&mut self, value: i32) {
        let unsigned: u32 = if value < 0 {
            (value + 0x4000_0000 + 0x4000_0000) as u32 + 0x8000_0000
        } else {
            value as u32
        };
        self.push_u32(unsigned);
    }

    fn push_u16(&mut self, value: u16) {
        self.push((value / 0x100) as u8);
        self.push((value % 0x100) as u8);
        assert(self@ =~= old(self)@ + u16_be(value));
    }

    fn push_f64(&mut self, bits: u64) {
        self.push_u32((bits / 0x1_0000_0000) as u32);
        self.push_u32((bits % 0x1_0000_0000) as u32);
        assert(self@ =~= old(self)@ + u64_be(bits));
    }
}

} // verus!
