//! Decoding: from the bytes of the External Term Format to terms.

use vstd::prelude::*;
use vstd::slice::slice_to_vec;
use vstd::string::*;
use crate::consts::{
    ETF_VERSION_TAG, TAG_ATOM_EXT, TAG_ATOM_UTF8_EXT, TAG_BINARY_EXT, TAG_BIT_BINARY_EXT,
    TAG_COMPRESSED, TAG_INT, TAG_LARGE_BIG_EXT, TAG_LARGE_TUPLE_EXT, TAG_LIST_EXT, TAG_MAP_EXT,
    TAG_NEWER_REF_EXT, TAG_NEW_FLOAT_EXT, TAG_NEW_FUN_EXT, TAG_NEW_PID_EXT, TAG_NEW_REF_EXT,
    TAG_NIL_EXT, TAG_PID_EXT, TAG_SMALL_ATOM_EXT, TAG_SMALL_ATOM_UTF8_EXT, TAG_SMALL_BIG_EXT,
    TAG_SMALL_TUPLE_EXT, TAG_SMALL_UINT, TAG_STRING_EXT,
};
use crate::endian::{be_u16_at, be_u32_at};
use crate::errors::{truncated, CodecError, CodecResult};
use crate::format::{
    atom_term, decoded_atom, decoded_big, decoded_binary, decoded_bit_binary, decoded_dict,
    decoded_fun, decoded_inflated, decoded_list, decoded_message, decoded_payload, decoded_pid,
    decoded_reference, decoded_run, decoded_string, decoded_term, decoded_with_rest, dict_of,
    dict_put, false_name, int_list, onward, run_after, true_name, undefined_name, Decoded,
    DecodedMessage, DecodedRun,
};
use crate::helpers::{
    atom_opt_message, atom_opt_of, byte_str_opt_message, byte_str_opt_of, get_atom_opt,
    get_byte_str_opt, opt_value, same_text, AtomRepresentation, ByteStringRepresentation,
};
use crate::integer::{le_value, signed, Integer};
use crate::reader::{advances, Reader};
use crate::term::{
    lemma_view_all_empty, lemma_view_all_push, view_all, view_pairs, Term, TermView,
};
use crate::text::latin1_string;
use crate::deflate::is_safe_to_inflate;
use crate::zlib::inflate;

verus! {

/// Decodes terms, handing out atoms and byte strings as its two options
/// say.
pub struct Decoder {
    pub atom_representation: AtomRepresentation,
    pub bytestring_repr: ByteStringRepresentation,
}

/// That a decoding step did what `expected` says: on success the term has
/// the expected value and the reader stands behind the term, further on
/// in the same buffer; a failure is the expected error.
pub open spec fn decodes(
    before: Reader,
    after: Reader,
    expected: Decoded,
    r: CodecResult<Term>,
) -> bool {
    &&& after.source() == before.source()
    &&& 0 <= before.position() <= before.source().len()
    &&& match expected {
        Ok((t, end)) => {
            &&& r matches Ok(term) && term@ == t
            &&& after.position() == end
            &&& before.position() < end <= before.source().len()
        },
        Err(e) => r == Err::<Term, CodecError>(e),
    }
}

/// That a step which decodes a run of terms did what `expected` says.
pub open spec fn decodes_run(
    before: Reader,
    after: Reader,
    expected: DecodedRun,
    r: CodecResult<Vec<Term>>,
) -> bool {
    &&& after.source() == before.source()
    &&& 0 <= before.position() <= before.source().len()
    &&& match expected {
        Ok((terms, end)) => {
            &&& r matches Ok(found) && view_all(found@) == terms
            &&& after.position() == end
            &&& before.position() <= end <= before.source().len()
        },
        Err(e) => r == Err::<Vec<Term>, CodecError>(e),
    }
}

/// That decoding a message did what `expected` says: on success the term
/// and the bytes behind it are the expected ones, a failure is the
/// expected error.
pub open spec fn decodes_message(expected: DecodedMessage, r: CodecResult<(Term, Vec<u8>)>) -> bool {
    match expected {
        Ok((t, rest)) => r matches Ok((term, tail)) && term@ == t && tail@ == rest,
        Err(e) => r == Err::<(Term, Vec<u8>), CodecError>(e),
    }
}

/// That a read of `n` bytes went as it must: it succeeds exactly when `n`
/// bytes are left, and then moves past them; else the input is truncated.
pub open spec fn takes<T>(before: Reader, after: Reader, n: nat, r: CodecResult<T>) -> bool {
    &&& advances(before, after, n, r is Ok)
    &&& r is Err ==> r == Err::<T, CodecError>(truncated())
}

/// The run that starts with the terms `done` and goes on as `rest` says.
pub open spec fn run_prefixed(done: Seq<TermView>, rest: DecodedRun) -> DecodedRun {
    match rest {
        Ok((terms, end)) => Ok((done + terms, end)),
        Err(e) => Err(e),
    }
}

/// One more term of a run: where the run is known up to position `c`, the
/// term at `c` either fails the run or extends what is known.
pub proof fn lemma_run_unfold(
    atoms: AtomRepresentation,
    strings: ByteStringRepresentation,
    s: Seq<u8>,
    start: int,
    count: nat,
    done: Seq<TermView>,
    c: int,
    left: nat,
)
    requires
        left > 0,
        decoded_run(atoms, strings, s, start, count) == run_prefixed(
            done,
            decoded_run(atoms, strings, s, c, left),
        ),
    ensures
        match decoded_term(atoms, strings, s, c) {
            Err(e) => decoded_run(atoms, strings, s, start, count) == Err::<
                (Seq<TermView>, int),
                CodecError,
            >(e),
            Ok((t, end)) => c <= end <= s.len() ==> decoded_run(atoms, strings, s, start, count)
                == run_prefixed(
                done.push(t),
                decoded_run(atoms, strings, s, end, (left - 1) as nat),
            ),
        },
{
    if let Ok((t, end)) = decoded_term(atoms, strings, s, c) {
        if c <= end <= s.len() {
            let rest = decoded_run(atoms, strings, s, end, (left - 1) as nat);
            assert(decoded_run(atoms, strings, s, c, left) == run_after(t, rest));
            if let Ok((terms, behind)) = rest {
                assert(done + (seq![t] + terms) =~= done.push(t) + terms);
            }
        }
    }
}

/// Nothing is known of a run at its start but the run itself.
pub proof fn lemma_run_start(run: DecodedRun)
    ensures
        run == run_prefixed(Seq::empty(), run),
{
    if let Ok((terms, end)) = run {
        assert(Seq::<TermView>::empty() + terms =~= terms);
    }
}

/// A run of which no term is left is what is known of it.
pub proof fn lemma_run_end(done: Seq<TermView>, c: int)
    ensures
        run_prefixed(done, Ok((Seq::<TermView>::empty(), c))) == Ok::<
            (Seq<TermView>, int),
            CodecError,
        >((done, c)),
{
    assert(done + Seq::<TermView>::empty() =~= done);
}

/// The outcome of a run that is read in two parts: the first part, and the
/// second from where the first ended.
pub open spec fn run_in_two(first: DecodedRun, second: spec_fn(int) -> DecodedRun) -> DecodedRun {
    match first {
        Ok((terms, mid)) => run_prefixed(terms, second(mid)),
        Err(e) => Err(e),
    }
}

/// A run of `a + b` terms is a run of `a` terms and, from where it ends, a
/// run of `b` terms.
pub proof fn lemma_run_split(
    atoms: AtomRepresentation,
    strings: ByteStringRepresentation,
    s: Seq<u8>,
    start: int,
    a: nat,
    b: nat,
)
    ensures
        decoded_run(atoms, strings, s, start, a + b) == run_in_two(
            decoded_run(atoms, strings, s, start, a),
            |mid: int| decoded_run(atoms, strings, s, mid, b),
        ),
    decreases a,
{
    let second = |mid: int| decoded_run(atoms, strings, s, mid, b);
    if a == 0 {
        lemma_run_start(decoded_run(atoms, strings, s, start, b));
    } else {
        if let Ok((t, end)) = decoded_term(atoms, strings, s, start) {
            let o = onward(s, start, end);
            lemma_run_split(atoms, strings, s, o, (a - 1) as nat, b);
            let short = decoded_run(atoms, strings, s, o, (a - 1) as nat);
            assert(decoded_run(atoms, strings, s, start, a) == run_after(t, short));
            assert(decoded_run(atoms, strings, s, start, a + b) == run_after(
                t,
                decoded_run(atoms, strings, s, o, (a + b - 1) as nat),
            ));
            if let Ok((terms, mid)) = short {
                if let Ok((more, behind)) = second(mid) {
                    assert(seq![t] + (terms + more) =~= (seq![t] + terms) + more);
                }
            }
        }
    }
}

/// A run that succeeds has as many terms as were asked for.
pub proof fn lemma_run_length(
    atoms: AtomRepresentation,
    strings: ByteStringRepresentation,
    s: Seq<u8>,
    start: int,
    count: nat,
)
    ensures
        decoded_run(atoms, strings, s, start, count) matches Ok((terms, end)) ==> terms.len()
            == count,
    decreases count,
{
    if count > 0 {
        if let Ok((t, end)) = decoded_term(atoms, strings, s, start) {
            lemma_run_length(atoms, strings, s, onward(s, start, end), (count - 1) as nat);
        }
    }
}

/// No two entries have the same key.
pub open spec fn keys_distinct(entries: Seq<(TermView, TermView)>) -> bool {
    forall|i: int, j: int| 0 <= i < j < entries.len() ==> entries[i].0 != entries[j].0
}

/// Puts a key with its value into the entries of a map: over the value of
/// the same key where there is one, else at the end.
fn dict_insert(entries: &mut Vec<(Term, Term)>, key: Term, value: Term)
    requires
        keys_distinct(view_pairs(old(entries)@)),
    ensures
        view_pairs(final(entries)@) == dict_put(view_pairs(old(entries)@), key@, value@),
        keys_distinct(view_pairs(final(entries)@)),
{
    let ghost before = view_pairs(entries@);
    let mut i: usize = 0;
    while i < entries.len()
        invariant
            i <= entries@.len(),
            before == view_pairs(entries@),
            before == view_pairs(old(entries)@),
            keys_distinct(before),
            forall|j: int| 0 <= j < i ==> before[j].0 != key@,
        decreases entries@.len() - i,
    {
        if entries[i].0.equals(&key) {
            assert(before[i as int].0 == key@);
            entries.set(i, (key, value));
            assert(view_pairs(entries@) =~= dict_put(before, key@, value@));
            return ;
        }
        i += 1;
    }
    entries.push((key, value));
    assert(view_pairs(entries@) =~= before.push((key@, value@)));
}

/// Reads one byte, or reports the input as truncated.
fn take_u8(reader: &mut Reader) -> (r: CodecResult<u8>)
    ensures
        takes(*old(reader), *final(reader), 1, r),
        r matches Ok(v) ==> v == old(reader).source()[old(reader).position()],
{
    match reader.read_u8() {
        Ok(v) => Ok(v),
        Err(e) => Err(CodecError::ReadError(e)),
    }
}

/// Reads a two-byte number, or reports the input as truncated.
fn take_u16(reader: &mut Reader) -> (r: CodecResult<u16>)
    ensures
        takes(*old(reader), *final(reader), 2, r),
        r matches Ok(v) ==> v == be_u16_at(old(reader).source(), old(reader).position()),
{
    match reader.read_u16() {
        Ok(v) => Ok(v),
        Err(e) => Err(CodecError::ReadError(e)),
    }
}

/// Reads a four-byte number, or reports the input as truncated.
fn take_u32(reader: &mut Reader) -> (r: CodecResult<u32>)
    ensures
        takes(*old(reader), *final(reader), 4, r),
        r matches Ok(v) ==> v == be_u32_at(old(reader).source(), old(reader).position()),
{
    match reader.read_u32() {
        Ok(v) => Ok(v),
        Err(e) => Err(CodecError::ReadError(e)),
    }
}

/// Reads `n` bytes, or reports the input as truncated.
fn take_bytes<'a>(reader: &mut Reader<'a>, n: usize) -> (r: CodecResult<&'a [u8]>)
    ensures
        takes(*old(reader), *final(reader), n as nat, r),
        r matches Ok(bytes) ==> bytes@ == old(reader).source().subrange(
            old(reader).position(),
            old(reader).position() + n,
        ),
{
    match reader.read(n) {
        Ok(bytes) => Ok(bytes),
        Err(e) => Err(CodecError::ReadError(e)),
    }
}

impl Decoder {
    /// A decoder with the options given: `atom` is one of `bytes`, `str`,
    /// `Atom` and `StrictAtom`, `byte_string` one of `bytes`, `str` and
    /// `int_list`. An option that is not given takes its default, `Atom`
    /// and `str`. Of two bad options the first is reported.
    pub fn new(atom: Option<&str>, byte_string: Option<&str>) -> (r: CodecResult<Decoder>)
        ensures
            match atom_opt_of(opt_value(atom, "Atom"@)) {
                None => r matches Err(CodecError::BadOptions { txt }) && txt@ == atom_opt_message(
                    opt_value(atom, "Atom"@),
                ),
                Some(a) => match byte_str_opt_of(opt_value(byte_string, "str"@)) {
                    None => r matches Err(CodecError::BadOptions { txt }) && txt@
                        == byte_str_opt_message(opt_value(byte_string, "str"@)),
                    Some(s) => r matches Ok(d) && d.atom_representation == a && d.bytestring_repr
                        == s,
                },
            },
    {
        let atom_representation = get_atom_opt(atom)?;
        let bytestring_repr = get_byte_str_opt(byte_string)?;
        Ok(Decoder { atom_representation, bytestring_repr })
    }

    /// The term that an atom of the given name decodes to.
    fn create_atom(&self, txt: &str) -> (term: Term)
        ensures
            term@ == atom_term(self.atom_representation, txt@),
    {
        proof {
            reveal_strlit("true");
            reveal_strlit("false");
            reveal_strlit("undefined");
            assert("true"@ =~= true_name());
            assert("false"@ =~= false_name());
            assert("undefined"@ =~= undefined_name());
        }
        if same_text(txt, "true") {
            Term::Bool(true)
        } else if same_text(txt, "false") {
            Term::Bool(false)
        } else if same_text(txt, "undefined") {
            Term::Undefined
        } else {
            match self.atom_representation {
                AtomRepresentation::Bytes => Term::Binary(txt.as_bytes_vec()),
                AtomRepresentation::Str => Term::Str(txt.to_owned()),
                _ => Term::Atom(txt.to_owned()),
            }
        }
    }

    /// Reads an atom in UTF-8 behind its tag; its length takes two bytes
    /// where `wide` holds, else one.
    fn parse_utf8_atom(&mut self, reader: &mut Reader, wide: bool) -> (r: CodecResult<Term>)
        ensures
            *final(self) == *old(self),
            takes_term(
                *old(reader),
                *final(reader),
                decoded_atom(
                    old(self).atom_representation,
                    old(reader).source(),
                    old(reader).position(),
                    wide,
                    true,
                ),
                r,
            ),
    {
        let sz: usize = if wide {
            take_u16(reader)? as usize
        } else {
            take_u8(reader)? as usize
        };
        let buf = take_bytes(reader, sz)?;
        match core::str::from_utf8(buf) {
            Ok(txt) => Ok(self.create_atom(txt)),
            Err(_) => Err(CodecError::EncodingError),
        }
    }

    /// Reads an atom with one byte for each character behind its tag; its
    /// length takes two bytes where `wide` holds, else one.
    fn parse_latin1_atom(&mut self, reader: &mut Reader, wide: bool) -> (r: CodecResult<Term>)
        ensures
            *final(self) == *old(self),
            takes_term(
                *old(reader),
                *final(reader),
                decoded_atom(
                    old(self).atom_representation,
                    old(reader).source(),
                    old(reader).position(),
                    wide,
                    false,
                ),
                r,
            ),
    {
        let sz: usize = if wide {
            take_u16(reader)? as usize
        } else {
            take_u8(reader)? as usize
        };
        let buf = take_bytes(reader, sz)?;
        let txt = latin1_string(buf);
        Ok(self.create_atom(txt.as_str()))
    }

    /// Reads the `size` digits of a big integer, least significant first,
    /// and gives the integer the sign that `sign` stands for: zero for
    /// plus, anything else for minus.
    fn parse_arbitrary_length_int(&self, reader: &mut Reader, size: usize, sign: u8) -> (r:
        CodecResult<Term>)
        ensures
            takes(*old(reader), *final(reader), size as nat, r),
            r matches Ok(term) ==> term@ == TermView::Integer(
                signed(
                    sign != 0,
                    le_value(
                        old(reader).source().subrange(
                            old(reader).position(),
                            old(reader).position() + size,
                        ),
                    ),
                ),
            ),
    {
        let bin = take_bytes(reader, size)?;
        Ok(Term::Integer(Integer::from_le_bytes(sign != 0, bin)))
    }

    /// Reads a big integer behind its tag; its size takes four bytes where
    /// `wide` holds, else one.
    fn parse_big(&self, reader: &mut Reader, wide: bool) -> (r: CodecResult<Term>)
        ensures
            takes_term(
                *old(reader),
                *final(reader),
                decoded_big(old(reader).source(), old(reader).position(), wide),
                r,
            ),
    {
        let size: usize = if wide {
            take_u32(reader)? as usize
        } else {
            take_u8(reader)? as usize
        };
        let sign = take_u8(reader)?;
        self.parse_arbitrary_length_int(reader, size, sign)
    }

    /// Reads a binary behind its tag.
    fn parse_binary(&self, reader: &mut Reader) -> (r: CodecResult<Term>)
        ensures
            takes_term(
                *old(reader),
                *final(reader),
                decoded_binary(old(reader).source(), old(reader).position()),
                r,
            ),
    {
        let sz = take_u32(reader)? as usize;
        let bin = take_bytes(reader, sz)?;
        Ok(Term::Binary(slice_to_vec(bin)))
    }

    /// Reads a bit string behind its tag.
    fn parse_bitstring(&mut self, reader: &mut Reader) -> (r: CodecResult<Term>)
        ensures
            *final(self) == *old(self),
            takes_term(
                *old(reader),
                *final(reader),
                decoded_bit_binary(old(reader).source(), old(reader).position()),
                r,
            ),
    {
        let sz = take_u32(reader)? as usize;
        let last_byte_bits: u8 = take_u8(reader)?;
        let bin = take_bytes(reader, sz)?;
        Ok(Term::BitString { bytes: slice_to_vec(bin), last_byte_bits })
    }

    /// Reads a byte string behind its tag, and hands it out as the option
    /// for byte strings says.
    fn parse_string(&self, reader: &mut Reader) -> (r: CodecResult<Term>)
        ensures
            takes_term(
                *old(reader),
                *final(reader),
                decoded_string(self.bytestring_repr, old(reader).source(), old(reader).position()),
                r,
            ),
    {
        let sz = take_u16(reader)? as usize;
        let arr = take_bytes(reader, sz)?;
        match self.bytestring_repr {
            ByteStringRepresentation::Str => {
                match core::str::from_utf8(arr) {
                    Ok(rust_str) => Ok(Term::Str(rust_str.to_owned())),
                    Err(_) => Err(CodecError::EncodingError),
                }
            },
            ByteStringRepresentation::Bytes => Ok(Term::Binary(slice_to_vec(arr))),
            ByteStringRepresentation::IntList => {
                let mut lst: Vec<Term> = Vec::new();
                let mut i: usize = 0;
                while i < arr.len()
                    invariant
                        i <= arr@.len(),
                        lst@.len() == i,
                        forall|j: int|
                            0 <= j < i ==> (#[trigger] lst@[j])@ == TermView::Integer(
                                arr@[j] as int,
                            ),
                    decreases arr@.len() - i,
                {
                    lst.push(Term::Integer(Integer::from_i64(arr[i] as i64)));
                    i += 1;
                }
                proof {
                    assert(view_all(lst@) =~= int_list(arr@)->List_elements);
                }
                Ok(Term::List { elements: lst, tail: None })
            },
        }
    }

    /// Reads `count` terms that follow one another.
    fn parse_terms(&mut self, reader: &mut Reader, count: usize) -> (r: CodecResult<Vec<Term>>)
        ensures
            *final(self) == *old(self),
            decodes_run(
                *old(reader),
                *final(reader),
                decoded_run(
                    old(self).atom_representation,
                    old(self).bytestring_repr,
                    old(reader).source(),
                    old(reader).position(),
                    count as nat,
                ),
                r,
            ),
        decreases old(reader).source().len() - old(reader).position(), 1nat,
    {
        let ghost s = reader.source();
        let ghost start = reader.position();
        let ghost atoms = self.atom_representation;
        let ghost strings = self.bytestring_repr;
        let mut lst: Vec<Term> = Vec::new();
        let mut i: usize = 0;
        proof {
            reader.lemma_position_in_bounds();
            lemma_run_start(decoded_run(atoms, strings, s, start, count as nat));
            lemma_view_all_empty();
        }
        while i < count
            invariant
                i <= count,
                *self == *old(self),
                atoms == self.atom_representation,
                strings == self.bytestring_repr,
                s == old(reader).source(),
                start == old(reader).position(),
                reader.source() == s,
                0 <= start <= reader.position() <= s.len(),
                decoded_run(atoms, strings, s, start, count as nat) == run_prefixed(
                    view_all(lst@),
                    decoded_run(atoms, strings, s, reader.position(), (count - i) as nat),
                ),
            decreases count - i,
        {
            proof {
                lemma_run_unfold(
                    atoms,
                    strings,
                    s,
                    start,
                    count as nat,
                    view_all(lst@),
                    reader.position(),
                    (count - i) as nat,
                );
            }
            let val = self.decode(reader)?;
            proof {
                lemma_view_all_push(lst@, val);
            }
            lst.push(val);
            i += 1;
        }
        proof {
            lemma_run_end(view_all(lst@), reader.position());
        }
        Ok(lst)
    }

    /// Reads a list behind its tag: the elements, and then the empty list
    /// or the term in which the list ends.
    fn parse_list(&mut self, reader: &mut Reader) -> (r: CodecResult<Term>)
        ensures
            *final(self) == *old(self),
            takes_term(
                *old(reader),
                *final(reader),
                decoded_list(
                    old(self).atom_representation,
                    old(self).bytestring_repr,
                    old(reader).source(),
                    old(reader).position(),
                ),
                r,
            ),
        decreases old(reader).source().len() - old(reader).position(), 1nat,
    {
        let sz = take_u32(reader)? as usize;
        let lst = self.parse_terms(reader, sz)?;
        // The list ends in the empty list, or in another term.
        let next = match reader.peek() {
            Ok(tag) => tag,
            Err(e) => {
                return Err(CodecError::ReadError(e));
            },
        };
        if next == TAG_NIL_EXT {
            let _ = take_u8(reader);
            Ok(Term::List { elements: lst, tail: None })
        } else {
            let tail_val = self.decode(reader)?;
            Ok(Term::List { elements: lst, tail: Some(Box::new(tail_val)) })
        }
    }

    /// Reads a map behind its tag. A key that comes again keeps its place
    /// and takes the later value.
    fn parse_map(&mut self, reader: &mut Reader) -> (r: CodecResult<Term>)
        ensures
            *final(self) == *old(self),
            takes_term(
                *old(reader),
                *final(reader),
                decoded_dict(
                    old(self).atom_representation,
                    old(self).bytestring_repr,
                    old(reader).source(),
                    old(reader).position(),
                ),
                r,
            ),
        decreases old(reader).source().len() - old(reader).position(), 1nat,
    {
        let ghost s = reader.source();
        let ghost atoms = self.atom_representation;
        let ghost strings = self.bytestring_repr;
        let arity = take_u32(reader)? as usize;
        let ghost start = reader.position();
        let ghost count: nat = (2 * arity) as nat;
        let ghost done: Seq<TermView> = Seq::empty();
        let mut result: Vec<(Term, Term)> = Vec::new();
        let mut i: usize = 0;
        proof {
            lemma_run_start(decoded_run(atoms, strings, s, start, count));
            assert(view_pairs(result@) =~= dict_of(done));
        }
        while i < arity
            invariant
                i <= arity,
                count == 2 * arity,
                *self == *old(self),
                atoms == self.atom_representation,
                strings == self.bytestring_repr,
                s == old(reader).source(),
                reader.source() == s,
                start == old(reader).position() + 4,
                arity == be_u32_at(s, old(reader).position()),
                0 <= old(reader).position(),
                start <= reader.position() <= s.len(),
                done.len() == 2 * i,
                view_pairs(result@) == dict_of(done),
                keys_distinct(view_pairs(result@)),
                decoded_run(atoms, strings, s, start, count) == run_prefixed(
                    done,
                    decoded_run(atoms, strings, s, reader.position(), (count - 2 * i) as nat),
                ),
            decreases arity - i,
        {
            proof {
                lemma_run_unfold(
                    atoms,
                    strings,
                    s,
                    start,
                    count,
                    done,
                    reader.position(),
                    (count - 2 * i) as nat,
                );
            }
            let key = self.decode(reader)?;
            proof {
                lemma_run_unfold(
                    atoms,
                    strings,
                    s,
                    start,
                    count,
                    done.push(key@),
                    reader.position(),
                    (count - 2 * i - 1) as nat,
                );
            }
            let val = self.decode(reader)?;
            proof {
                let next = done.push(key@).push(val@);
                assert(next.take(next.len() - 2) =~= done);
                done = next;
            }
            dict_insert(&mut result, key, val);
            i += 1;
        }
        proof {
            lemma_run_end(done, reader.position());
        }
        Ok(Term::Dict(result))
    }

    /// Reads the `arity` elements of a tuple.
    fn parse_tuple(&mut self, reader: &mut Reader, arity: usize) -> (r: CodecResult<Term>)
        ensures
            *final(self) == *old(self),
            final(reader).source() == old(reader).source(),
            match decoded_run(
                old(self).atom_representation,
                old(self).bytestring_repr,
                old(reader).source(),
                old(reader).position(),
                arity as nat,
            ) {
                Ok((terms, end)) => {
                    &&& r matches Ok(term) && term@ == TermView::Tuple(terms)
                    &&& final(reader).position() == end
                    &&& old(reader).position() <= end <= old(reader).source().len()
                },
                Err(e) => r == Err::<Term, CodecError>(e),
            },
        decreases old(reader).source().len() - old(reader).position(), 2nat,
    {
        let result = self.parse_terms(reader, arity)?;
        Ok(Term::Tuple(result))
    }

    /// Reads the node of a process identifier or of a reference. Its atom
    /// comes out as text, whatever the option for atoms says.
    fn parse_node(&mut self, reader: &mut Reader) -> (r: CodecResult<Term>)
        ensures
            *final(self) == *old(self),
            decodes(
                *old(reader),
                *final(reader),
                decoded_term(
                    AtomRepresentation::Str,
                    old(self).bytestring_repr,
                    old(reader).source(),
                    old(reader).position(),
                ),
                r,
            ),
        decreases old(reader).source().len() - old(reader).position(), 1nat,
    {
        let save_repr = self.atom_representation;
        self.atom_representation = AtomRepresentation::Str;
        let node = self.decode(reader);
        self.atom_representation = save_repr;
        node
    }

    /// Reads a process identifier in the old form behind its tag.
    fn parse_pid(&mut self, reader: &mut Reader) -> (r: CodecResult<Term>)
        ensures
            *final(self) == *old(self),
            decodes(
                *old(reader),
                *final(reader),
                decoded_pid(
                    old(self).bytestring_repr,
                    old(reader).source(),
                    old(reader).position(),
                    false,
                ),
                r,
            ),
        decreases old(reader).source().len() - old(reader).position(), 2nat,
    {
        let node = self.parse_node(reader)?;
        let id: u32 = take_u32(reader)?;
        let serial: u32 = take_u32(reader)?;
        let creation: u8 = take_u8(reader)?;
        Ok(Term::Pid { node: Box::new(node), id, serial, creation: creation as u32 })
    }

    /// Reads a process identifier in the current form behind its tag.
    fn parse_new_pid(&mut self, reader: &mut Reader) -> (r: CodecResult<Term>)
        ensures
            *final(self) == *old(self),
            decodes(
                *old(reader),
                *final(reader),
                decoded_pid(
                    old(self).bytestring_repr,
                    old(reader).source(),
                    old(reader).position(),
                    true,
                ),
                r,
            ),
        decreases old(reader).source().len() - old(reader).position(), 2nat,
    {
        let node = self.parse_node(reader)?;
        let id: u32 = take_u32(reader)?;
        let serial: u32 = take_u32(reader)?;
        let creation: u32 = take_u32(reader)?;
        Ok(Term::Pid { node: Box::new(node), id, serial, creation })
    }

    /// Reads a reference in the old form behind its tag.
    fn parse_ref(&mut self, reader: &mut Reader) -> (r: CodecResult<Term>)
        ensures
            *final(self) == *old(self),
            takes_term(
                *old(reader),
                *final(reader),
                decoded_reference(
                    old(self).bytestring_repr,
                    old(reader).source(),
                    old(reader).position(),
                    false,
                ),
                r,
            ),
        decreases old(reader).source().len() - old(reader).position(), 2nat,
    {
        let term_len = take_u16(reader)? as usize;
        let node = self.parse_node(reader)?;
        let creation: u8 = take_u8(reader)?;
        let id = take_bytes(reader, term_len * 4)?;
        Ok(Term::Reference { node: Box::new(node), creation: creation as u32, id: slice_to_vec(id) })
    }

    /// Reads a reference in the current form behind its tag.
    fn parse_newer_ref(&mut self, reader: &mut Reader) -> (r: CodecResult<Term>)
        ensures
            *final(self) == *old(self),
            takes_term(
                *old(reader),
                *final(reader),
                decoded_reference(
                    old(self).bytestring_repr,
                    old(reader).source(),
                    old(reader).position(),
                    true,
                ),
                r,
            ),
        decreases old(reader).source().len() - old(reader).position(), 2nat,
    {
        let term_len = take_u16(reader)? as usize;
        let node = self.parse_node(reader)?;
        let creation: u32 = take_u32(reader)?;
        let id = take_bytes(reader, term_len * 4)?;
        Ok(Term::Reference { node: Box::new(node), creation, id: slice_to_vec(id) })
    }

    /// Reads a function object behind its tag.
    fn parse_fun(&mut self, reader: &mut Reader) -> (r: CodecResult<Term>)
        ensures
            *final(self) == *old(self),
            takes_term(
                *old(reader),
                *final(reader),
                decoded_fun(
                    old(self).atom_representation,
                    old(self).bytestring_repr,
                    old(reader).source(),
                    old(reader).position(),
                ),
                r,
            ),
        decreases old(reader).source().len() - old(reader).position(), 1nat,
    {
        let ghost s = reader.source();
        let ghost atoms = self.atom_representation;
        let ghost strings = self.bytestring_repr;
        let _size = take_u32(reader)?;
        let arity = take_u8(reader)?;
        let uniq_md5 = take_bytes(reader, 16)?;
        let index = take_u32(reader)?;
        let num_free = take_u32(reader)?;
        proof {
            lemma_run_split(atoms, strings, s, reader.position(), 4, num_free as nat);
            lemma_run_length(atoms, strings, s, reader.position(), 4);
        }
        // Module, old index, old uniqueness and owner, in this order.
        let mut head = self.parse_terms(reader, 4)?;
        let ghost head_views = view_all(head@);
        assert(head@.len() == 4);
        let pid = head.pop().unwrap();
        let old_uniq = head.pop().unwrap();
        let old_index = head.pop().unwrap();
        let module = head.pop().unwrap();
        // The free variables follow the owner.
        let frozen_vars = self.parse_terms(reader, num_free as usize)?;
        proof {
            assert((head_views + view_all(frozen_vars@)).skip(4) =~= view_all(frozen_vars@));
        }
        Ok(
            Term::Fun {
                module: Box::new(module),
                arity,
                pid: Box::new(pid),
                index,
                uniq: slice_to_vec(uniq_md5),
                old_index: Box::new(old_index),
                old_uniq: Box::new(old_uniq),
                free_vars: frozen_vars,
            },
        )
    }

    /// Decodes the term at the reader's position and moves the reader
    /// past it.
    pub fn decode(&mut self, reader: &mut Reader) -> (r: CodecResult<Term>)
        ensures
            *final(self) == *old(self),
            decodes(
                *old(reader),
                *final(reader),
                decoded_term(
                    old(self).atom_representation,
                    old(self).bytestring_repr,
                    old(reader).source(),
                    old(reader).position(),
                ),
                r,
            ),
        decreases old(reader).source().len() - old(reader).position(), 0nat,
    {
        let tag = take_u8(reader)?;
        proof {
            reveal(decoded_payload);
        }
        if tag == TAG_ATOM_EXT {
            self.parse_latin1_atom(reader, true)
        } else if tag == TAG_ATOM_UTF8_EXT {
            self.parse_utf8_atom(reader, true)
        } else if tag == TAG_SMALL_ATOM_EXT {
            self.parse_latin1_atom(reader, false)
        } else if tag == TAG_SMALL_ATOM_UTF8_EXT {
            self.parse_utf8_atom(reader, false)
        } else if tag == TAG_BINARY_EXT {
            self.parse_binary(reader)
        } else if tag == TAG_BIT_BINARY_EXT {
            self.parse_bitstring(reader)
        } else if tag == TAG_NIL_EXT {
            proof {
                lemma_view_all_empty();
            }
            Ok(Term::List { elements: Vec::new(), tail: None })
        } else if tag == TAG_LIST_EXT {
            self.parse_list(reader)
        } else if tag == TAG_STRING_EXT {
            self.parse_string(reader)
        } else if tag == TAG_SMALL_UINT {
            let v = take_u8(reader)?;
            Ok(Term::Integer(Integer::from_i64(v as i64)))
        } else if tag == TAG_INT {
            match reader.read_i32() {
                Ok(v) => Ok(Term::Integer(Integer::from_i64(v as i64))),
                Err(e) => Err(CodecError::ReadError(e)),
            }
        } else if tag == TAG_SMALL_BIG_EXT {
            self.parse_big(reader, false)
        } else if tag == TAG_LARGE_BIG_EXT {
            self.parse_big(reader, true)
        } else if tag == TAG_NEW_FLOAT_EXT {
            match reader.read_f64() {
                Ok(bits) => Ok(Term::Float(bits)),
                Err(e) => Err(CodecError::ReadError(e)),
            }
        } else if tag == TAG_MAP_EXT {
            self.parse_map(reader)
        } else if tag == TAG_SMALL_TUPLE_EXT {
            let arity = take_u8(reader)? as usize;
            self.parse_tuple(reader, arity)
        } else if tag == TAG_LARGE_TUPLE_EXT {
            let arity = take_u32(reader)? as usize;
            self.parse_tuple(reader, arity)
        } else if tag == TAG_PID_EXT {
            self.parse_pid(reader)
        } else if tag == TAG_NEW_PID_EXT {
            self.parse_new_pid(reader)
        } else if tag == TAG_NEW_REF_EXT {
            self.parse_ref(reader)
        } else if tag == TAG_NEWER_REF_EXT {
            self.parse_newer_ref(reader)
        } else if tag == TAG_NEW_FUN_EXT {
            self.parse_fun(reader)
        } else {
            Err(CodecError::UnknownTermTagByte { b: tag })
        }
    }

    /// Decodes the term at the reader's position and hands it out with the
    /// bytes that follow it. The reader moves past the term.
    pub fn decode_and_wrap(&mut self, reader: &mut Reader) -> (r: CodecResult<(Term, Vec<u8>)>)
        ensures
            *final(self) == *old(self),
            final(reader).source() == old(reader).source(),
            r is Ok ==> final(reader).remaining() == r->Ok_0.1@,
            decodes_message(
                decoded_with_rest(
                    old(self).atom_representation,
                    old(self).bytestring_repr,
                    old(reader).source(),
                    old(reader).position(),
                ),
                r,
            ),
    {
        let result = self.decode(reader)?;
        let tail = slice_to_vec(reader.rest());
        Ok((result, tail))
    }

    /// Decodes what the compressed part of a message inflated to, where
    /// the message declares `declared` bytes for it: a size that disagrees
    /// is an error, and no term is looked for.
    pub fn decode_inflated(&mut self, declared: usize, inflated: &[u8]) -> (r: CodecResult<
        (Term, Vec<u8>),
    >)
        ensures
            *final(self) == *old(self),
            decodes_message(
                decoded_inflated(
                    old(self).atom_representation,
                    old(self).bytestring_repr,
                    declared as int,
                    inflated@,
                ),
                r,
            ),
    {
        if inflated.len() != declared {
            return Err(CodecError::CompressedSizeMismatch);
        }
        let mut decompressed_reader = Reader::new(inflated);
        self.decode_and_wrap(&mut decompressed_reader)
    }

    /// Decodes a message that starts at the reader's position: checks the
    /// version byte, inflates the message if it is compressed and its
    /// stream is of the kinds that are handed to the zlib decoder, and
    /// hands out the term with the bytes that follow it. For a compressed
    /// message these are the bytes that follow the term in what the
    /// message inflated to. The reader itself stays where it is.
    pub fn decode_with_131tag(&mut self, reader: &mut Reader) -> (r: CodecResult<(Term, Vec<u8>)>)
        ensures
            *final(self) == *old(self),
            *final(reader) == *old(reader),
            decodes_message(
                decoded_message(
                    old(self).atom_representation,
                    old(self).bytestring_repr,
                    old(reader).remaining(),
                ),
                r,
            ),
            old(reader).remaining().len() > 0 && old(reader).remaining()[0] != ETF_VERSION_TAG
                ==> r == Err::<(Term, Vec<u8>), CodecError>(CodecError::UnsupportedETFVersion),
    {
        let message = reader.rest();
        let mut reader = Reader::new(message);
        let pre_tag = take_u8(&mut reader)?;
        if pre_tag != ETF_VERSION_TAG {
            return Err(CodecError::UnsupportedETFVersion);
        }
        // The first byte of the term may be the mark of a compressed term.
        let tag = match reader.peek() {
            Ok(tag) => tag,
            Err(e) => {
                return Err(CodecError::ReadError(e));
            },
        };
        if tag == TAG_COMPRESSED {
            let _ = take_u8(&mut reader);
            let decomp_size = take_u32(&mut reader)? as usize;
            let stream = reader.rest();
            if !is_safe_to_inflate(stream) {
                return Err(CodecError::IOError);
            }
            match inflate(stream) {
                Ok(decompressed) => self.decode_inflated(decomp_size, decompressed.as_slice()),
                Err(_) => Err(CodecError::IOError),
            }
        } else {
            // The byte was not taken: the term starts at it.
            self.decode_and_wrap(&mut reader)
        }
    }
}

/// That a step which reads what follows a tag did what `expected` says.
/// Such a step may take no byte at all.
pub open spec fn takes_term(
    before: Reader,
    after: Reader,
    expected: Decoded,
    r: CodecResult<Term>,
) -> bool {
    &&& after.source() == before.source()
    &&& 0 <= before.position() <= before.source().len()
    &&& match expected {
        Ok((t, end)) => {
            &&& r matches Ok(term) && term@ == t
            &&& after.position() == end
            &&& before.position() <= end <= before.source().len()
        },
        Err(e) => r == Err::<Term, CodecError>(e),
    }
}

} // verus!
