//! Encoding: from terms to the bytes of the External Term Format.

use vstd::prelude::*;
use vstd::string::*;
use crate::consts::{
    TAG_ATOM_UTF8_EXT, TAG_BINARY_EXT, TAG_BIT_BINARY_EXT, TAG_INT, TAG_LARGE_BIG_EXT,
    TAG_LARGE_TUPLE_EXT, TAG_LIST_EXT, TAG_MAP_EXT, TAG_NEWER_REF_EXT, TAG_NEW_FLOAT_EXT,
    TAG_NEW_PID_EXT, TAG_NIL_EXT, TAG_SMALL_ATOM_UTF8_EXT, TAG_SMALL_BIG_EXT,
    TAG_SMALL_TUPLE_EXT, TAG_SMALL_UINT, TAG_STRING_EXT,
};
use crate::endian::{i32_be, u16_be, u32_be, u64_be};
use crate::errors::{CodecError, CodecResult};
use crate::format::{false_name, true_name, undefined_name};
use crate::helpers::VecWriteExt;
use crate::integer::Integer;
use crate::term::{view_all, view_pairs, Term, TermView};
use crate::wire::{
    encoded_atom, encoded_big_int, encoded_binary, encoded_bit_string, encoded_code_points,
    encoded_float, encoded_integer, encoded_list_head, encoded_pairs, encoded_pid, encoded_reference, encoded_run,
    encoded_small_int, encoded_str, encoded_term, fits_byte_string, framed, is_finite, Encoded,
};

verus! {

/// Encodes terms, one behind the other, into its buffer.
pub struct Encoder {
    pub data: Vec<u8>,
}

/// That a step of the encoder did what `expected` says: on success the
/// bytes stand behind what the buffer held; a failure is the expected
/// error, and the buffer holds what it held.
pub open spec fn writes(
    before: Seq<u8>,
    after: Seq<u8>,
    expected: Encoded,
    r: CodecResult<()>,
) -> bool {
    match expected {
        Ok(bytes) => r is Ok && after == before + bytes,
        Err(e) => r == Err::<(), CodecError>(e) && after == before,
    }
}

/// Bytes in front of bytes in front of an encoding can be taken together.
pub proof fn lemma_framed_twice(a: Seq<u8>, b: Seq<u8>, rest: Encoded)
    ensures
        framed(a, framed(b, rest)) == framed(a + b, rest),
{
    if let Ok(bytes) = rest {
        assert(a + (b + bytes) =~= (a + b) + bytes);
    }
}

/// Appends bytes to a buffer.
fn append_bytes(buf: &mut Vec<u8>, bytes: &[u8])
    ensures
        final(buf)@ == old(buf)@ + bytes@,
{
    let mut i: usize = 0;
    while i < bytes.len()
        invariant
            i <= bytes@.len(),
            buf@ == old(buf)@ + bytes@.take(i as int),
        decreases bytes@.len() - i,
    {
        buf.push(bytes[i]);
        i += 1;
        assert(buf@ =~= old(buf)@ + bytes@.take(i as int));
    }
    assert(bytes@.take(i as int) =~= bytes@);
}

/// Whether the binary64 number with the given bit pattern is finite.
pub fn float_is_finite(bits: u64) -> (r: bool)
    ensures
        r == is_finite(bits),
{
    bits / 0x10_0000_0000_0000 % 0x800 != 0x7ff
}

/// Whether a text can go out as a byte string: it has at most 65535
/// characters, and none lies above code point 255.
pub fn can_be_encoded_as_byte_string(s: &str) -> (r: bool)
    ensures
        r == fits_byte_string(s@),
{
    let mut count: usize = 0;
    for ch in it: s.chars()
        invariant
            it.seq() == s@,
            count == it.index(),
            count <= 65535,
            forall|i: int| 0 <= i < it.index() ==> s@[i] as u32 <= 255,
    {
        if count >= 65535 {
            return false;
        }
        if ch as u32 > 255 {
            return false;
        }
        count += 1;
    }
    true
}

impl Encoder {
    /// An encoder with an empty buffer.
    pub fn new() -> (r: Encoder)
        ensures
            r.data@ == Seq::<u8>::empty(),
    {
        Encoder { data: Vec::new() }
    }

    /// Appends the encoding of `term` to the buffer. Where the term has no
    /// encoding, the buffer is left as it was.
    pub fn encode(&mut self, term: &Term) -> (r: CodecResult<()>)
        ensures
            writes(old(self).data@, final(self).data@, encoded_term(term@), r),
            term@ matches TermView::Float(bits) ==> !is_finite(bits) ==> r == Err::<
                (),
                CodecError,
            >(CodecError::NonFiniteFloat { bits }) && final(self).data@ == old(self).data@,
        decreases term, 2nat,
    {
        self.encode_default(term)
    }

    /// Appends the encoding of `term` to the buffer, by the rule for the
    /// kind of term that it is.
    pub fn encode_default(&mut self, term: &Term) -> (r: CodecResult<()>)
        ensures
            writes(old(self).data@, final(self).data@, encoded_term(term@), r),
            term@ matches TermView::Float(bits) ==> !is_finite(bits) ==> r == Err::<
                (),
                CodecError,
            >(CodecError::NonFiniteFloat { bits }) && final(self).data@ == old(self).data@,
        decreases term, 1nat,
    {
        proof {
            reveal(encoded_float);
        }
        match term {
            Term::Integer(val) => self.write_int(val),
            Term::Float(bits) => {
                if !float_is_finite(*bits) {
                    return Err(CodecError::NonFiniteFloat { bits: *bits });
                }
                self.write_float(*bits)
            },
            Term::List { elements, tail } => self.write_list(elements, tail, Ghost(*term)),
            Term::Tuple(elements) => self.write_tuple(elements),
            Term::Dict(entries) => self.write_dict(entries),
            Term::Atom(name) => self.write_atom(name.as_str()),
            Term::Str(text) => self.write_str(text.as_str()),
            Term::Bool(val) => self.write_atom(bool_name(*val)),
            Term::Undefined => self.write_atom(null_name()),
            Term::Pid { node, id, serial, creation } => self.write_pid(
                node,
                *id,
                *serial,
                *creation,
            ),
            Term::Reference { node, creation, id } => self.write_ref(
                node,
                *creation,
                id.as_slice(),
            ),
            Term::Binary(bytes) => self.write_binary(bytes.as_slice()),
            Term::BitString { bytes, last_byte_bits } => self.write_bitstring(
                bytes.as_slice(),
                *last_byte_bits,
            ),
            Term::Fun { .. } => Err(CodecError::UnsupportedTerm),
        }
    }

    /// Writes a list: its elements behind their number, and then the
    /// empty list or, for an improper list, the term that it ends in.
    fn write_list(
        &mut self,
        elements: &Vec<Term>,
        tail: &Option<Box<Term>>,
        Ghost(list): Ghost<Term>,
    ) -> (r: CodecResult<()>)
        requires
            list == (Term::List { elements: *elements, tail: *tail }),
        ensures
            writes(old(self).data@, final(self).data@, encoded_term(list@), r),
        decreases list, 0nat,
    {
        let start = self.data.len();
        self.write_list_no_tail(elements)?;
        let ghost head = encoded_list_head(view_all(elements@))->Ok_0;
        match tail {
            None => {
                self.data.push(TAG_NIL_EXT);
                assert(self.data@ =~= old(self).data@ + (head + seq![TAG_NIL_EXT]));
                Ok(())
            },
            Some(last) => {
                match self.encode(last) {
                    Ok(()) => {
                        let ghost end = encoded_term(last@)->Ok_0;
                        assert(self.data@ =~= old(self).data@ + (head + end));
                        Ok(())
                    },
                    Err(e) => {
                        self.data.truncate(start);
                        assert(self.data@ =~= old(self).data@);
                        Err(e)
                    },
                }
            },
        }
    }

    /// Writes the tag of a list, the number of its elements and the
    /// elements, but not what the list ends in: the caller writes the
    /// empty list or the last term behind them.
    fn write_list_no_tail(&mut self, list: &Vec<Term>) -> (r: CodecResult<()>)
        ensures
            writes(old(self).data@, final(self).data@, encoded_list_head(view_all(list@)), r),
        decreases list, 1nat,
    {
        let start = self.data.len();
        let size = list.len();
        if size > 0xffff_ffff {
            return Err(CodecError::LengthOutOfRange);
        }
        self.data.push(TAG_LIST_EXT);
        self.data.push_u32(size as u32);
        let ghost header = seq![TAG_LIST_EXT] + u32_be(size as u32);
        proof {
            assert(self.data@ =~= old(self).data@ + header);
        }
        match self.write_terms(list) {
            Ok(()) => {
                let ghost body = encoded_run(view_all(list@), 0)->Ok_0;
                assert(self.data@ =~= old(self).data@ + (header + body));
                Ok(())
            },
            Err(e) => {
                self.data.truncate(start);
                assert(self.data@ =~= old(self).data@);
                Err(e)
            },
        }
    }

    /// Writes the elements of `list`, one behind the other.
    fn write_terms(&mut self, list: &Vec<Term>) -> (r: CodecResult<()>)
        ensures
            writes(old(self).data@, final(self).data@, encoded_run(view_all(list@), 0), r),
        decreases list, 0nat,
    {
        let start = self.data.len();
        let ghost terms = view_all(list@);
        let ghost acc = Seq::<u8>::empty();
        let mut i: usize = 0;
        proof {
            lemma_framed_empty(encoded_run(terms, 0));
            assert(self.data@ =~= old(self).data@ + acc);
        }
        while i < list.len()
            invariant
                i <= list@.len(),
                terms == view_all(list@),
                start == old(self).data@.len(),
                self.data@ == old(self).data@ + acc,
                encoded_run(terms, 0) == framed(acc, encoded_run(terms, i as int)),
            decreases list@.len() - i,
        {
            let ghost child = encoded_term(terms[i as int]);
            proof {
                lemma_framed_twice(acc, child->Ok_0, encoded_run(terms, i + 1));
            }
            match self.encode(&list[i]) {
                Ok(()) => {
                    proof {
                        assert(self.data@ =~= old(self).data@ + (acc + child->Ok_0));
                        acc = acc + child->Ok_0;
                    }
                },
                Err(e) => {
                    self.data.truncate(start);
                    assert(self.data@ =~= old(self).data@);
                    return Err(e);
                },
            }
            i += 1;
        }
        proof {
            assert(acc + Seq::<u8>::empty() =~= acc);
        }
        Ok(())
    }

    /// Writes a tuple: the arity, in one byte up to 255 and else in four,
    /// and the elements.
    fn write_tuple(&mut self, tup: &Vec<Term>) -> (r: CodecResult<()>)
        ensures
            writes(
                old(self).data@,
                final(self).data@,
                encoded_term(TermView::Tuple(view_all(tup@))),
                r,
            ),
        decreases tup, 1nat,
    {
        let start = self.data.len();
        let size = tup.len();
        if size <= 255 {
            self.data.push(TAG_SMALL_TUPLE_EXT);
            self.data.push(size as u8);
            assert(self.data@ =~= old(self).data@ + seq![TAG_SMALL_TUPLE_EXT, size as u8]);
        } else if size <= 0xffff_ffff {
            self.data.push(TAG_LARGE_TUPLE_EXT);
            self.data.push_u32(size as u32);
            assert(self.data@ =~= old(self).data@ + (seq![TAG_LARGE_TUPLE_EXT] + u32_be(
                size as u32,
            )));
        } else {
            return Err(CodecError::LengthOutOfRange);
        }
        let ghost header = self.data@.skip(start as int);
        let ghost body = encoded_run(view_all(tup@), 0);
        proof {
            assert(self.data@ =~= old(self).data@ + header);
            assert(header =~= if size <= 255 {
                seq![TAG_SMALL_TUPLE_EXT, size as u8]
            } else {
                seq![TAG_LARGE_TUPLE_EXT] + u32_be(size as u32)
            });
        }
        match self.write_terms(tup) {
            Ok(()) => {
                assert(self.data@ =~= old(self).data@ + (header + body->Ok_0));
                Ok(())
            },
            Err(e) => {
                self.data.truncate(start);
                assert(self.data@ =~= old(self).data@);
                Err(e)
            },
        }
    }

    /// Writes a map: the number of entries, and each key followed by its
    /// value, in the order of the entries. Nothing is done about a key
    /// that comes twice.
    fn write_dict(&mut self, dict: &Vec<(Term, Term)>) -> (r: CodecResult<()>)
        ensures
            writes(
                old(self).data@,
                final(self).data@,
                encoded_term(TermView::Dict(view_pairs(dict@))),
                r,
            ),
        decreases dict, 1nat,
    {
        let start = self.data.len();
        let size = dict.len();
        if size > 0xffff_ffff {
            return Err(CodecError::LengthOutOfRange);
        }
        self.data.push(TAG_MAP_EXT);
        self.data.push_u32(size as u32);
        let ghost header = seq![TAG_MAP_EXT] + u32_be(size as u32);
        let ghost entries = view_pairs(dict@);
        let ghost acc = Seq::<u8>::empty();
        let mut i: usize = 0;
        proof {
            lemma_framed_empty(encoded_pairs(entries, 0));
            assert(self.data@ =~= old(self).data@ + header + acc);
        }
        while i < dict.len()
            invariant
                i <= dict@.len(),
                size == dict@.len(),
                size <= u32::MAX,
                entries == view_pairs(dict@),
                start == old(self).data@.len(),
                header == seq![TAG_MAP_EXT] + u32_be(size as u32),
                self.data@ == old(self).data@ + header + acc,
                encoded_pairs(entries, 0) == framed(acc, encoded_pairs(entries, i as int)),
            decreases dict@.len() - i,
        {
            let ghost key = encoded_term(entries[i as int].0);
            let ghost value = encoded_term(entries[i as int].1);
            proof {
                lemma_framed_twice(
                    acc,
                    key->Ok_0 + value->Ok_0,
                    encoded_pairs(entries, i + 1),
                );
            }
            match self.encode(&dict[i].0) {
                Ok(()) => {},
                Err(e) => {
                    self.data.truncate(start);
                    assert(self.data@ =~= old(self).data@);
                    return Err(e);
                },
            }
            match self.encode(&dict[i].1) {
                Ok(()) => {},
                Err(e) => {
                    self.data.truncate(start);
                    assert(self.data@ =~= old(self).data@);
                    return Err(e);
                },
            }
            proof {
                assert(self.data@ =~= old(self).data@ + header + (acc + (key->Ok_0
                    + value->Ok_0)));
                acc = acc + (key->Ok_0 + value->Ok_0);
            }
            i += 1;
        }
        proof {
            assert(acc + Seq::<u8>::empty() =~= acc);
            assert(self.data@ =~= old(self).data@ + (header + acc));
        }
        Ok(())
    }

    /// Writes an integer in the shortest form that holds it.
    fn write_int(&mut self, val: &Integer) -> (r: CodecResult<()>)
        ensures
            writes(old(self).data@, final(self).data@, encoded_integer(val@), r),
    {
        match val.to_i64() {
            Some(v) => {
                if -0x8000_0000 <= v && v <= 0x7fff_ffff {
                    self.write_4byte_int(v)
                } else {
                    self.write_arbitrary_int(val)
                }
            },
            None => self.write_arbitrary_int(val),
        }
    }

    /// Writes an integer as a big integer: the number of its digits, the
    /// sign and the digits.
    fn write_arbitrary_int(&mut self, val: &Integer) -> (r: CodecResult<()>)
        ensures
            writes(old(self).data@, final(self).data@, encoded_big_int(val@), r),
    {
        proof {
            reveal(encoded_big_int);
        }
        let digits = val.magnitude();
        let size = digits.len();
        let sign: u8 = if val.is_negative() {
            1
        } else {
            0
        };
        if size < 256 {
            self.data.push(TAG_SMALL_BIG_EXT);
            self.data.push(size as u8);
        } else if size <= 0xffff_ffff {
            self.data.push(TAG_LARGE_BIG_EXT);
            self.data.push_u32(size as u32);
        } else {
            return Err(CodecError::LengthOutOfRange);
        }
        self.data.push(sign);
        append_bytes(&mut self.data, digits);
        proof {
            if size < 256 {
                assert(self.data@ =~= old(self).data@ + (seq![
                    TAG_SMALL_BIG_EXT,
                    size as u8,
                    sign,
                ] + digits@));
            } else {
                assert(self.data@ =~= old(self).data@ + (seq![TAG_LARGE_BIG_EXT] + u32_be(
                    size as u32,
                ) + seq![sign] + digits@));
            }
        }
        Ok(())
    }

    /// Writes an integer of the 32-bit range: in one byte where it lies
    /// between 0 and 255, else in four. An integer outside that range is
    /// refused, and the buffer is left as it was.
    pub fn write_4byte_int(&mut self, val: i64) -> (r: CodecResult<()>)
        ensures
            writes(old(self).data@, final(self).data@, encoded_small_int(val as int), r),
    {
        proof {
            reveal(encoded_small_int);
        }
        if val >= 0 && val <= 255 {
            self.data.push(TAG_SMALL_UINT);
            self.data.push(val as u8);
            assert(self.data@ =~= old(self).data@ + seq![TAG_SMALL_UINT, val as u8]);
        } else if val >= -0x8000_0000 && val <= 0x7fff_ffff {
            self.data.push(TAG_INT);
            self.data.push_i32(val as i32);
            assert(self.data@ =~= old(self).data@ + (seq![TAG_INT] + i32_be(val as i32)));
        } else {
            return Err(CodecError::IntegerEncodingRange { i: val });
        }
        Ok(())
    }

    /// Writes a float, given by its bit pattern.
    fn write_float(&mut self, bits: u64) -> (r: CodecResult<()>)
        ensures
            r is Ok,
            final(self).data@ == old(self).data@ + (seq![TAG_NEW_FLOAT_EXT] + u64_be(bits)),
    {
        self.data.push(TAG_NEW_FLOAT_EXT);
        self.data.push_f64(bits);
        assert(self.data@ =~= old(self).data@ + (seq![TAG_NEW_FLOAT_EXT] + u64_be(bits)));
        Ok(())
    }

    /// Writes an atom: its name in UTF-8 behind the length, which takes
    /// one byte up to 255 and two up to 65535.
    fn write_atom(&mut self, text: &str) -> (r: CodecResult<()>)
        ensures
            writes(old(self).data@, final(self).data@, encoded_atom(text@), r),
    {
        proof {
            reveal(encoded_atom);
        }
        let byte_array: &[u8] = text.as_bytes();
        let str_byte_length: usize = byte_array.len();
        if str_byte_length <= 255 {
            self.data.push(TAG_SMALL_ATOM_UTF8_EXT);
            self.data.push(str_byte_length as u8);
            append_bytes(&mut self.data, byte_array);
            assert(self.data@ =~= old(self).data@ + (seq![
                TAG_SMALL_ATOM_UTF8_EXT,
                str_byte_length as u8,
            ] + byte_array@));
        } else if str_byte_length <= 65535 {
            self.data.push(TAG_ATOM_UTF8_EXT);
            self.data.push_u16(str_byte_length as u16);
            append_bytes(&mut self.data, byte_array);
            assert(self.data@ =~= old(self).data@ + (seq![TAG_ATOM_UTF8_EXT] + u16_be(
                str_byte_length as u16,
            ) + byte_array@));
        } else {
            return Err(CodecError::AtomTooLong);
        }
        Ok(())
    }

    /// Writes a text: as a byte string with one byte for each character
    /// where the text fits one, else as the list of its code points.
    fn write_str(&mut self, text: &str) -> (r: CodecResult<()>)
        ensures
            writes(old(self).data@, final(self).data@, encoded_str(text@), r),
    {
        proof {
            reveal(encoded_str);
            reveal(encoded_small_int);
        }
        let chars_count = text.unicode_len();
        if can_be_encoded_as_byte_string(text) {
            // One byte for each character.
            self.data.push(TAG_STRING_EXT);
            self.data.push_u16(chars_count as u16);
            let ghost base = self.data@;
            for ch in it: text.chars()
                invariant
                    it.seq() == text@,
                    fits_byte_string(text@),
                    self.data@ == base + Seq::new(it.index() as nat, |i: int| text@[i] as u32 as u8),
            {
                assert(ch == text@[it.index() as int]);
                assert(text@[it.index() as int] as u32 <= 255);
                self.data.push(ch as u32 as u8);
                assert(self.data@ =~= base + Seq::new(
                    (it.index() + 1) as nat,
                    |i: int| text@[i] as u32 as u8,
                ));
            }
            assert(self.data@ =~= old(self).data@ + (seq![TAG_STRING_EXT] + u16_be(
                chars_count as u16,
            ) + Seq::new(text@.len(), |i: int| text@[i] as u32 as u8)));
        } else {
            // A list of the code points, each as an integer.
            if chars_count > 0xffff_ffff {
                return Err(CodecError::LengthOutOfRange);
            }
            self.data.push(TAG_LIST_EXT);
            self.data.push_u32(chars_count as u32);
            let ghost base = self.data@;
            let ghost whole = base + encoded_code_points(text@, 0);
            for ch in it: text.chars()
                invariant
                    it.seq() == text@,
                    whole == base + encoded_code_points(text@, 0),
                    self.data@ + encoded_code_points(text@, it.index()) == whole,
            {
                let ghost before = self.data@;
                let ghost one = encoded_small_int(ch as u32 as int)->Ok_0;
                proof {
                    reveal(encoded_small_int);
                    vstd::utf8::char_is_scalar(ch);
                }
                self.write_4byte_int(ch as u32 as i64)?;
                assert(self.data@ + encoded_code_points(text@, it.index() + 1) =~= before + (one
                    + encoded_code_points(text@, it.index() + 1)));
            }
            assert(self.data@ + Seq::<u8>::empty() =~= self.data@);
            self.data.push(TAG_NIL_EXT);
            assert(self.data@ =~= old(self).data@ + (seq![TAG_LIST_EXT] + u32_be(
                chars_count as u32,
            ) + encoded_code_points(text@, 0) + seq![TAG_NIL_EXT]));
        }
        Ok(())
    }

    /// Writes a process identifier, in the current form. The node is text
    /// or an atom, and goes out as an atom.
    fn write_pid(&mut self, node: &Term, id: u32, serial: u32, creation: u32) -> (r: CodecResult<
        (),
    >)
        ensures
            writes(
                old(self).data@,
                final(self).data@,
                encoded_pid(node@, id, serial, creation),
                r,
            ),
    {
        proof {
            reveal(encoded_pid);
        }
        let node_name: &str = match node {
            Term::Str(name) => name.as_str(),
            Term::Atom(name) => name.as_str(),
            _ => {
                return Err(CodecError::UnsupportedTerm);
            },
        };
        let start = self.data.len();
        self.data.push(TAG_NEW_PID_EXT);
        match self.write_atom(node_name) {
            Ok(()) => {},
            Err(e) => {
                self.data.truncate(start);
                assert(self.data@ =~= old(self).data@);
                return Err(e);
            },
        }
        self.data.push_u32(id);
        self.data.push_u32(serial);
        self.data.push_u32(creation);
        assert(self.data@ =~= old(self).data@ + (seq![TAG_NEW_PID_EXT] + (encoded_atom(
            node_name@,
        )->Ok_0 + (u32_be(id) + u32_be(serial) + u32_be(creation)))));
        Ok(())
    }

    /// Writes a reference, in the current form. The node is text or an
    /// atom, and goes out as an atom; the id is a whole number of
    /// four-byte words.
    fn write_ref(&mut self, node: &Term, creation: u32, id: &[u8]) -> (r: CodecResult<()>)
        ensures
            writes(old(self).data@, final(self).data@, encoded_reference(node@, creation, id@), r),
    {
        proof {
            reveal(encoded_reference);
        }
        let node_name: &str = match node {
            Term::Str(name) => name.as_str(),
            Term::Atom(name) => name.as_str(),
            _ => {
                return Err(CodecError::UnsupportedTerm);
            },
        };
        if id.len() % 4 != 0 || id.len() / 4 > 65535 {
            return Err(CodecError::LengthOutOfRange);
        }
        let start = self.data.len();
        self.data.push(TAG_NEWER_REF_EXT);
        self.data.push_u16((id.len() / 4) as u16);
        match self.write_atom(node_name) {
            Ok(()) => {},
            Err(e) => {
                self.data.truncate(start);
                assert(self.data@ =~= old(self).data@);
                return Err(e);
            },
        }
        self.data.push_u32(creation);
        append_bytes(&mut self.data, id);
        assert(self.data@ =~= old(self).data@ + ((seq![TAG_NEWER_REF_EXT] + u16_be(
            (id@.len() / 4) as u16,
        )) + (encoded_atom(node_name@)->Ok_0 + (u32_be(creation) + id@))));
        Ok(())
    }

    /// Writes a binary.
    fn write_binary(&mut self, data: &[u8]) -> (r: CodecResult<()>)
        ensures
            writes(old(self).data@, final(self).data@, encoded_binary(data@), r),
    {
        proof {
            reveal(encoded_binary);
        }
        if data.len() > 0xffff_ffff {
            return Err(CodecError::LengthOutOfRange);
        }
        self.data.push(TAG_BINARY_EXT);
        self.data.push_u32(data.len() as u32);
        append_bytes(&mut self.data, data);
        assert(self.data@ =~= old(self).data@ + (seq![TAG_BINARY_EXT] + u32_be(
            data@.len() as u32,
        ) + data@));
        Ok(())
    }

    /// Writes a bit string, of whose last byte only `last_byte_bits` bits
    /// count.
    fn write_bitstring(&mut self, data: &[u8], last_byte_bits: u8) -> (r: CodecResult<()>)
        ensures
            writes(
                old(self).data@,
                final(self).data@,
                encoded_bit_string(data@, last_byte_bits),
                r,
            ),
    {
        proof {
            reveal(encoded_bit_string);
        }
        if data.len() > 0xffff_ffff {
            return Err(CodecError::LengthOutOfRange);
        }
        self.data.push(TAG_BIT_BINARY_EXT);
        self.data.push_u32(data.len() as u32);
        self.data.push(last_byte_bits);
        append_bytes(&mut self.data, data);
        assert(self.data@ =~= old(self).data@ + (seq![TAG_BIT_BINARY_EXT] + u32_be(
            data@.len() as u32,
        ) + seq![last_byte_bits] + data@));
        Ok(())
    }
}

/// The name of the atom that a boolean goes out as.
fn bool_name(val: bool) -> (name: &'static str)
    ensures
        name@ == if val {
            true_name()
        } else {
            false_name()
        },
{
    proof {
        reveal_strlit("true");
        reveal_strlit("false");
        assert("true"@ =~= true_name());
        assert("false"@ =~= false_name());
    }
    if val {
        "true"
    } else {
        "false"
    }
}

/// The name of the atom that no value goes out as.
fn null_name() -> (name: &'static str)
    ensures
        name@ == undefined_name(),
{
    proof {
        reveal_strlit("undefined");
        assert("undefined"@ =~= undefined_name());
    }
    "undefined"
}

/// An encoding with nothing in front of it is the encoding.
pub proof fn lemma_framed_empty(rest: Encoded)
    ensures
        framed(Seq::empty(), rest) == rest,
{
    if let Ok(bytes) = rest {
        assert(Seq::<u8>::empty() + bytes =~= bytes);
    }
}

} // verus!
