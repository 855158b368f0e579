//! Decoding a buffer that was cut short: what was decoded before the cut
//! stays as it was, and what reaches over the cut is reported as
//! truncated.

use vstd::prelude::*;
use crate::errors::{truncated, CodecError};
use crate::format::{
    decoded_atom, decoded_big, decoded_binary, decoded_bit_binary, decoded_dict, decoded_float,
    decoded_fun, decoded_int, decoded_list, decoded_payload, decoded_pid, decoded_reference,
    decoded_run, decoded_small_uint, decoded_string, decoded_term, decoded_tuple,
    lemma_term_is_payload,
};
use crate::helpers::{AtomRepresentation, ByteStringRepresentation};

verus! {

/// How the outcome `short` on a buffer cut to `j` bytes goes with the
/// outcome `full` on the whole buffer of `len` bytes, for a step that
/// starts at position `from`. A success ends within the buffer, behind
/// `from`. Where the step starts before the cut, it is the same success
/// on the cut buffer if it ends before the cut, and else it is truncated.
pub open spec fn cut_outcome<T>(
    full: Result<(T, int), CodecError>,
    short: Result<(T, int), CodecError>,
    from: int,
    len: int,
    j: int,
) -> bool {
    full matches Ok((v, end)) ==> {
        &&& from <= end <= len
        &&& from <= j ==> short == if end <= j {
            full
        } else {
            Err(truncated())
        }
    }
}

/// A one-byte integer decoded from a buffer that is cut to `j` bytes.
pub proof fn lemma_cut_small_uint(s: Seq<u8>, pos: int, j: int)
    requires
        0 <= pos,
        0 <= j <= s.len(),
    ensures
        cut_outcome(
            decoded_small_uint(s, pos),
            decoded_small_uint(s.take(j), pos),
            pos,
            s.len() as int,
            j,
        ),
{
}

/// A four-byte integer decoded from a buffer that is cut to `j` bytes.
pub proof fn lemma_cut_int(s: Seq<u8>, pos: int, j: int)
    requires
        0 <= pos,
        0 <= j <= s.len(),
    ensures
        cut_outcome(decoded_int(s, pos), decoded_int(s.take(j), pos), pos, s.len() as int, j),
{
}

/// A float decoded from a buffer that is cut to `j` bytes.
pub proof fn lemma_cut_float(s: Seq<u8>, pos: int, j: int)
    requires
        0 <= pos,
        0 <= j <= s.len(),
    ensures
        cut_outcome(
            decoded_float(s, pos),
            decoded_float(s.take(j), pos),
            pos,
            s.len() as int,
            j,
        ),
{
}

/// An atom decoded from a buffer that is cut to `j` bytes.
pub proof fn lemma_cut_atom(
    atoms: AtomRepresentation,
    s: Seq<u8>,
    pos: int,
    wide: bool,
    utf8: bool,
    j: int,
)
    requires
        0 <= pos,
        0 <= j <= s.len(),
    ensures
        cut_outcome(
            decoded_atom(atoms, s, pos, wide, utf8),
            decoded_atom(atoms, s.take(j), pos, wide, utf8),
            pos,
            s.len() as int,
            j,
        ),
{
    let c = s.take(j);
    if let Ok((t, end)) = decoded_atom(atoms, s, pos, wide, utf8) {
        let width: int = if wide { 2 } else { 1 };
        if end <= j {
            assert(c.subrange(pos + width, end) =~= s.subrange(pos + width, end));
        }
    }
}

/// A byte string decoded from a buffer that is cut to `j` bytes.
pub proof fn lemma_cut_string(strings: ByteStringRepresentation, s: Seq<u8>, pos: int, j: int)
    requires
        0 <= pos,
        0 <= j <= s.len(),
    ensures
        cut_outcome(
            decoded_string(strings, s, pos),
            decoded_string(strings, s.take(j), pos),
            pos,
            s.len() as int,
            j,
        ),
{
    let c = s.take(j);
    if let Ok((t, end)) = decoded_string(strings, s, pos) {
        if end <= j {
            assert(c.subrange(pos + 2, end) =~= s.subrange(pos + 2, end));
        }
    }
}

/// A binary decoded from a buffer that is cut to `j` bytes.
pub proof fn lemma_cut_binary(s: Seq<u8>, pos: int, j: int)
    requires
        0 <= pos,
        0 <= j <= s.len(),
    ensures
        cut_outcome(
            decoded_binary(s, pos),
            decoded_binary(s.take(j), pos),
            pos,
            s.len() as int,
            j,
        ),
{
    let c = s.take(j);
    if let Ok((t, end)) = decoded_binary(s, pos) {
        if end <= j {
            assert(c.subrange(pos + 4, end) =~= s.subrange(pos + 4, end));
        }
    }
}

/// A bit string decoded from a buffer that is cut to `j` bytes.
pub proof fn lemma_cut_bit_binary(s: Seq<u8>, pos: int, j: int)
    requires
        0 <= pos,
        0 <= j <= s.len(),
    ensures
        cut_outcome(
            decoded_bit_binary(s, pos),
            decoded_bit_binary(s.take(j), pos),
            pos,
            s.len() as int,
            j,
        ),
{
    let c = s.take(j);
    if let Ok((t, end)) = decoded_bit_binary(s, pos) {
        if end <= j {
            assert(c.subrange(pos + 5, end) =~= s.subrange(pos + 5, end));
        }
    }
}

/// A big integer decoded from a buffer that is cut to `j` bytes.
pub proof fn lemma_cut_big(s: Seq<u8>, pos: int, wide: bool, j: int)
    requires
        0 <= pos,
        0 <= j <= s.len(),
    ensures
        cut_outcome(
            decoded_big(s, pos, wide),
            decoded_big(s.take(j), pos, wide),
            pos,
            s.len() as int,
            j,
        ),
{
    let c = s.take(j);
    if let Ok((t, end)) = decoded_big(s, pos, wide) {
        let width: int = if wide { 4 } else { 1 };
        if end <= j {
            assert(c.subrange(pos + width + 1, end) =~= s.subrange(pos + width + 1, end));
        }
    }
}

/// A term decoded from a buffer that is cut to `j` bytes.
#[verifier::spinoff_prover]
#[verifier::rlimit(50)]
pub proof fn lemma_cut_term(
    atoms: AtomRepresentation,
    strings: ByteStringRepresentation,
    s: Seq<u8>,
    pos: int,
    j: int,
)
    requires
        0 <= pos,
        0 <= j <= s.len(),
    ensures
        cut_outcome(
            decoded_term(atoms, strings, s, pos),
            decoded_term(atoms, strings, s.take(j), pos),
            pos,
            s.len() as int,
            j,
        ),
        decoded_term(atoms, strings, s, pos) matches Ok((t, end)) ==> pos < end,
    decreases s.len() - pos, 0nat,
{
    let c = s.take(j);
    if pos < s.len() {
        lemma_cut_payload(atoms, strings, s[pos], s, pos + 1, j);
        lemma_term_is_payload(atoms, strings, s, pos);
        if pos < j {
            lemma_term_is_payload(atoms, strings, c, pos);
        }
    }
}

/// What follows a tag, decoded from a buffer that is cut to `j` bytes.
#[verifier::spinoff_prover]
#[verifier::rlimit(50)]
pub proof fn lemma_cut_payload(
    atoms: AtomRepresentation,
    strings: ByteStringRepresentation,
    tag: u8,
    s: Seq<u8>,
    pos: int,
    j: int,
)
    requires
        0 <= pos <= s.len(),
        0 <= j <= s.len(),
    ensures
        cut_outcome(
            decoded_payload(atoms, strings, tag, s, pos),
            decoded_payload(atoms, strings, tag, s.take(j), pos),
            pos,
            s.len() as int,
            j,
        ),
    decreases s.len() - pos, 3nat,
{
    reveal(decoded_payload);
    lemma_cut_atom(atoms, s, pos, true, false, j);
    lemma_cut_atom(atoms, s, pos, true, true, j);
    lemma_cut_atom(atoms, s, pos, false, false, j);
    lemma_cut_atom(atoms, s, pos, false, true, j);
    lemma_cut_binary(s, pos, j);
    lemma_cut_bit_binary(s, pos, j);
    lemma_cut_string(strings, s, pos, j);
    lemma_cut_small_uint(s, pos, j);
    lemma_cut_int(s, pos, j);
    lemma_cut_big(s, pos, false, j);
    lemma_cut_big(s, pos, true, j);
    lemma_cut_float(s, pos, j);
    lemma_cut_list(atoms, strings, s, pos, j);
    lemma_cut_dict(atoms, strings, s, pos, j);
    lemma_cut_tuple(atoms, strings, s, pos, false, j);
    lemma_cut_tuple(atoms, strings, s, pos, true, j);
    lemma_cut_pid(strings, s, pos, false, j);
    lemma_cut_pid(strings, s, pos, true, j);
    lemma_cut_reference(strings, s, pos, false, j);
    lemma_cut_reference(strings, s, pos, true, j);
    lemma_cut_fun(atoms, strings, s, pos, j);
}

/// A run of terms decoded from a buffer that is cut to `j` bytes.
#[verifier::spinoff_prover]
#[verifier::rlimit(50)]
pub proof fn lemma_cut_run(
    atoms: AtomRepresentation,
    strings: ByteStringRepresentation,
    s: Seq<u8>,
    pos: int,
    count: nat,
    j: int,
)
    requires
        0 <= pos <= s.len(),
        0 <= j <= s.len(),
    ensures
        cut_outcome(
            decoded_run(atoms, strings, s, pos, count),
            decoded_run(atoms, strings, s.take(j), pos, count),
            pos,
            s.len() as int,
            j,
        ),
    decreases s.len() - pos, count + 4,
{
    if count > 0 {
        lemma_cut_term(atoms, strings, s, pos, j);
        if let Ok((first, end)) = decoded_term(atoms, strings, s, pos) {
            lemma_cut_run(atoms, strings, s, end, (count - 1) as nat, j);
        }
    }
}

/// A tuple decoded from a buffer that is cut to `j` bytes.
#[verifier::spinoff_prover]
#[verifier::rlimit(50)]
pub proof fn lemma_cut_tuple(
    atoms: AtomRepresentation,
    strings: ByteStringRepresentation,
    s: Seq<u8>,
    pos: int,
    wide: bool,
    j: int,
)
    requires
        0 <= pos <= s.len(),
        0 <= j <= s.len(),
    ensures
        cut_outcome(
            decoded_tuple(atoms, strings, s, pos, wide),
            decoded_tuple(atoms, strings, s.take(j), pos, wide),
            pos,
            s.len() as int,
            j,
        ),
    decreases s.len() - pos, 1nat,
{
    let width: int = if wide { 4 } else { 1 };
    if s.len() - pos >= width {
        let arity = if wide { crate::endian::be_u32_at(s, pos) } else { s[pos] as int };
        lemma_cut_run(atoms, strings, s, pos + width, arity as nat, j);
    }
}

/// A list decoded from a buffer that is cut to `j` bytes.
#[verifier::spinoff_prover]
#[verifier::rlimit(50)]
pub proof fn lemma_cut_list(
    atoms: AtomRepresentation,
    strings: ByteStringRepresentation,
    s: Seq<u8>,
    pos: int,
    j: int,
)
    requires
        0 <= pos <= s.len(),
        0 <= j <= s.len(),
    ensures
        cut_outcome(
            decoded_list(atoms, strings, s, pos),
            decoded_list(atoms, strings, s.take(j), pos),
            pos,
            s.len() as int,
            j,
        ),
    decreases s.len() - pos, 1nat,
{
    if s.len() - pos >= 4 {
        let count = crate::endian::be_u32_at(s, pos) as nat;
        lemma_cut_run(atoms, strings, s, pos + 4, count, j);
        if let Ok((terms, end)) = decoded_run(atoms, strings, s, pos + 4, count) {
            if end < s.len() {
                lemma_cut_term(atoms, strings, s, end, j);
            }
        }
    }
}

/// A map decoded from a buffer that is cut to `j` bytes.
#[verifier::spinoff_prover]
#[verifier::rlimit(50)]
pub proof fn lemma_cut_dict(
    atoms: AtomRepresentation,
    strings: ByteStringRepresentation,
    s: Seq<u8>,
    pos: int,
    j: int,
)
    requires
        0 <= pos <= s.len(),
        0 <= j <= s.len(),
    ensures
        cut_outcome(
            decoded_dict(atoms, strings, s, pos),
            decoded_dict(atoms, strings, s.take(j), pos),
            pos,
            s.len() as int,
            j,
        ),
    decreases s.len() - pos, 1nat,
{
    if s.len() - pos >= 4 {
        let count = (2 * crate::endian::be_u32_at(s, pos)) as nat;
        lemma_cut_run(atoms, strings, s, pos + 4, count, j);
    }
}

/// A process identifier decoded from a buffer that is cut to `j` bytes.
#[verifier::spinoff_prover]
#[verifier::rlimit(50)]
pub proof fn lemma_cut_pid(
    strings: ByteStringRepresentation,
    s: Seq<u8>,
    pos: int,
    wide: bool,
    j: int,
)
    requires
        0 <= pos <= s.len(),
        0 <= j <= s.len(),
    ensures
        cut_outcome(
            decoded_pid(strings, s, pos, wide),
            decoded_pid(strings, s.take(j), pos, wide),
            pos,
            s.len() as int,
            j,
        ),
    decreases s.len() - pos, 1nat,
{
    lemma_cut_term(AtomRepresentation::Str, strings, s, pos, j);
}

/// A reference decoded from a buffer that is cut to `j` bytes.
#[verifier::spinoff_prover]
#[verifier::rlimit(50)]
pub proof fn lemma_cut_reference(
    strings: ByteStringRepresentation,
    s: Seq<u8>,
    pos: int,
    wide: bool,
    j: int,
)
    requires
        0 <= pos <= s.len(),
        0 <= j <= s.len(),
    ensures
        cut_outcome(
            decoded_reference(strings, s, pos, wide),
            decoded_reference(strings, s.take(j), pos, wide),
            pos,
            s.len() as int,
            j,
        ),
    decreases s.len() - pos, 1nat,
{
    let c = s.take(j);
    if s.len() - pos >= 2 {
        lemma_cut_term(AtomRepresentation::Str, strings, s, pos + 2, j);
        if let Ok((node, e)) = decoded_term(AtomRepresentation::Str, strings, s, pos + 2) {
            let width: int = if wide { 4 } else { 1 };
            let words = crate::endian::be_u16_at(s, pos);
            let end = e + width + 4 * words;
            if s.len() - e >= width + 4 * words && pos <= j {
                if end <= j {
                    assert(c.subrange(e + width, end) =~= s.subrange(e + width, end));
                } else if j - pos >= 2 && e <= j {
                    assert(crate::endian::be_u16_at(c, pos) == words);
                    assert(c.len() - e < width + 4 * words);
                }
            }
        }
    }
}

/// A function object decoded from a buffer that is cut to `j` bytes.
#[verifier::spinoff_prover]
#[verifier::rlimit(50)]
pub proof fn lemma_cut_fun(
    atoms: AtomRepresentation,
    strings: ByteStringRepresentation,
    s: Seq<u8>,
    pos: int,
    j: int,
)
    requires
        0 <= pos <= s.len(),
        0 <= j <= s.len(),
    ensures
        cut_outcome(
            decoded_fun(atoms, strings, s, pos),
            decoded_fun(atoms, strings, s.take(j), pos),
            pos,
            s.len() as int,
            j,
        ),
    decreases s.len() - pos, 1nat,
{
    let c = s.take(j);
    if s.len() - pos >= 29 {
        let free = crate::endian::be_u32_at(s, pos + 25);
        lemma_cut_run(atoms, strings, s, pos + 29, (4 + free) as nat, j);
        if j >= pos + 29 {
            assert(c.subrange(pos + 5, pos + 21) =~= s.subrange(pos + 5, pos + 21));
        }
    }
}

} // verus!
