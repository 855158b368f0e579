//! What holds of decoding and encoding for every input.

use vstd::prelude::*;
use crate::consts::{ETF_VERSION_TAG, TAG_COMPRESSED};
use crate::endian::be_u32_at;
use crate::errors::{truncated, CodecError};
use crate::decoder::{keys_distinct, lemma_run_length};
use crate::format::{
    decoded_dict, decoded_message, decoded_run, decoded_term, decoded_with_rest, dict_of,
    dict_put,
};
use crate::roundtrip::{lemma_first_byte, lemma_term_back, placed, survives};
use crate::truncation::lemma_cut_term;
use crate::helpers::{AtomRepresentation, ByteStringRepresentation};
use crate::term::TermView;
use crate::integer::{le_digits, lemma_digits_trimmed, magnitude_of};
use crate::wire::{encoded_big_int, encoded_float, encoded_term, is_finite};
use crate::deflate::safe_to_inflate;
use crate::zlib::zlib_inflated;

verus! {

/// A message that starts with another byte than the version byte is
/// refused for its version, whatever follows.
pub proof fn lemma_wrong_version(
    atoms: AtomRepresentation,
    strings: ByteStringRepresentation,
    b: Seq<u8>,
)
    requires
        b.len() > 0,
        b[0] != ETF_VERSION_TAG,
    ensures
        decoded_message(atoms, strings, b) == Err::<(TermView, Seq<u8>), CodecError>(
            CodecError::UnsupportedETFVersion,
        ),
{
}

/// A compressed message whose stream is handed to the zlib decoder and
/// inflates to another number of bytes than the message declares is
/// refused for that, and no term comes of it.
pub proof fn lemma_compressed_size_mismatch(
    atoms: AtomRepresentation,
    strings: ByteStringRepresentation,
    b: Seq<u8>,
)
    requires
        b.len() >= 6,
        b[0] == ETF_VERSION_TAG,
        b[1] == TAG_COMPRESSED,
    ensures
        safe_to_inflate(b.skip(6)) ==> (zlib_inflated(b.skip(6)) matches Some(data) && data.len()
            != be_u32_at(b, 2)) ==> decoded_message(atoms, strings, b) == Err::<(TermView, Seq<u8>), CodecError>(
            CodecError::CompressedSizeMismatch,
        ),
{
}

/// A compressed message whose stream is not one that is handed to the
/// zlib decoder is refused like one that the decoder reports as broken.
pub proof fn lemma_stream_kept_from_the_decoder(
    atoms: AtomRepresentation,
    strings: ByteStringRepresentation,
    b: Seq<u8>,
)
    requires
        b.len() >= 6,
        b[0] == ETF_VERSION_TAG,
        b[1] == TAG_COMPRESSED,
        !safe_to_inflate(b.skip(6)),
    ensures
        decoded_message(atoms, strings, b) == Err::<(TermView, Seq<u8>), CodecError>(
            CodecError::IOError,
        ),
{
}

/// A float that is an infinity or not a number has no encoding.
pub proof fn lemma_non_finite_float(bits: u64)
    requires
        !is_finite(bits),
    ensures
        encoded_term(TermView::Float(bits)) == Err::<Seq<u8>, CodecError>(
            CodecError::NonFiniteFloat { bits },
        ),
{
    reveal(encoded_float);
}

/// Of a buffer that holds a term, every beginning that ends before the
/// term does is reported as truncated: it is never taken for another
/// term, and never fails in another way.
pub proof fn lemma_truncated_term(
    atoms: AtomRepresentation,
    strings: ByteStringRepresentation,
    b: Seq<u8>,
    pos: int,
    j: int,
)
    requires
        0 <= pos,
        0 <= j,
        decoded_term(atoms, strings, b, pos) matches Ok((t, end)) && j < end,
    ensures
        j < b.len(),
        decoded_term(atoms, strings, b.take(j), pos) == Err::<(TermView, int), CodecError>(
            truncated(),
        ),
{
    if pos < b.len() {
        lemma_cut_term(atoms, strings, b, pos, 0);
        lemma_cut_term(atoms, strings, b, pos, j);
    }
}

/// Of a message that is not compressed, every beginning that ends before
/// the term of the message does is reported as truncated. Of a
/// compressed message the same holds of every beginning that ends
/// before the compressed part starts.
pub proof fn lemma_truncated_message(
    atoms: AtomRepresentation,
    strings: ByteStringRepresentation,
    b: Seq<u8>,
    j: int,
)
    requires
        0 <= j,
        decoded_message(atoms, strings, b) matches Ok((t, rest)) && if b[1] == TAG_COMPRESSED {
            j < 6
        } else {
            j < b.len() - rest.len()
        },
    ensures
        j < b.len(),
        decoded_message(atoms, strings, b.take(j)) == Err::<(TermView, Seq<u8>), CodecError>(
            truncated(),
        ),
{
    if b[1] != TAG_COMPRESSED {
        lemma_cut_term(atoms, strings, b, 1, 0);
        lemma_cut_term(atoms, strings, b, 1, j);
    }
}

/// Decoding what was encoded gives the term back, and what stood behind
/// the encoding is what is left: for every term that has one form only,
/// and for a message as well as for a term alone.
pub proof fn lemma_decode_encoded(
    atoms: AtomRepresentation,
    strings: ByteStringRepresentation,
    term: TermView,
    rest: Seq<u8>,
)
    requires
        survives(atoms, strings, term),
        encoded_term(term) is Ok,
    ensures
        decoded_with_rest(atoms, strings, encoded_term(term)->Ok_0 + rest, 0) == Ok::<
            (TermView, Seq<u8>),
            CodecError,
        >((term, rest)),
        decoded_message(
            atoms,
            strings,
            seq![ETF_VERSION_TAG] + encoded_term(term)->Ok_0 + rest,
        ) == Ok::<(TermView, Seq<u8>), CodecError>((term, rest)),
{
    let bytes = encoded_term(term)->Ok_0;
    let alone = bytes + rest;
    let message = seq![ETF_VERSION_TAG] + bytes + rest;
    lemma_first_byte(term);
    assert(placed(alone, 0, bytes)) by {
        assert forall|i: int| 0 <= i < bytes.len() implies alone[0 + i] == #[trigger] bytes[i] by {}
    }
    lemma_term_back(atoms, strings, term, alone, 0);
    assert(alone.skip(bytes.len() as int) =~= rest);
    assert(placed(message, 1, bytes)) by {
        assert forall|i: int| 0 <= i < bytes.len() implies message[1 + i] == #[trigger] bytes[i] by {}
    }
    lemma_term_back(atoms, strings, term, message, 1);
    assert(message[1] == bytes[0]);
    assert(message.skip(1 + bytes.len() as int) =~= rest);
}

/// An integer outside the 32-bit range goes out with no digit more than
/// it needs: the last byte of its encoding, which is its most significant
/// digit, is not zero.
pub proof fn lemma_no_leading_zero_digit(v: int)
    requires
        v < -0x8000_0000 || v > 0x7fff_ffff,
        encoded_term(TermView::Integer(v)) is Ok,
    ensures
        encoded_term(TermView::Integer(v))->Ok_0.last() != 0,
{
    reveal(encoded_big_int);
    let digits = le_digits(magnitude_of(v));
    let bytes = encoded_term(TermView::Integer(v))->Ok_0;
    lemma_digits_trimmed(magnitude_of(v));
    assert(bytes.last() == digits.last());
}

/// Whether no pair of keys and values behind pair `j` of a run has the
/// key of pair `j`.
pub open spec fn is_last_of_its_key(terms: Seq<TermView>, j: int) -> bool {
    forall|k: int| j < k < terms.len() / 2 ==> #[trigger] terms[2 * k] != terms[2 * j]
}

/// Whether an entry is a pair of a run of keys and values, and the last
/// pair with its key.
pub open spec fn is_last_pair(terms: Seq<TermView>, entry: (TermView, TermView)) -> bool {
    exists|j: int|
        0 <= j < terms.len() / 2 && #[trigger] terms[2 * j] == entry.0 && terms[2 * j + 1]
            == entry.1 && is_last_of_its_key(terms, j)
}

/// Whether a key is among the keys of the entries.
pub open spec fn has_key(entries: Seq<(TermView, TermView)>, key: TermView) -> bool {
    exists|i: int| 0 <= i < entries.len() && (#[trigger] entries[i]).0 == key
}

/// A map that is filled from a run of keys and values holds every key of
/// the run once, with the value of the last pair that has the key, and
/// nothing else.
pub proof fn lemma_map_holds_last_values(terms: Seq<TermView>)
    requires
        terms.len() % 2 == 0,
    ensures
        keys_distinct(dict_of(terms)),
        dict_of(terms).len() <= terms.len() / 2,
        forall|i: int|
            0 <= i < dict_of(terms).len() ==> is_last_pair(terms, #[trigger] dict_of(terms)[i]),
        forall|j: int|
            0 <= j < terms.len() / 2 ==> has_key(dict_of(terms), #[trigger] terms[2 * j]),
    decreases terms.len(),
{
    if terms.len() >= 2 {
        let n = terms.len() / 2;
        let before = terms.take(terms.len() - 2);
        let key = terms[terms.len() - 2];
        let value = terms[terms.len() - 1];
        let filled = dict_of(before);
        let all = dict_of(terms);
        lemma_map_holds_last_values(before);
        assert(all == dict_put(filled, key, value));
        assert(key == terms[2 * (n - 1)]);
        assert(is_last_of_its_key(terms, n - 1));
        assert(is_last_pair(terms, (key, value)));
        assert forall|i: int| 0 <= i < all.len() implies is_last_pair(terms, #[trigger] all[i]) by {
            if all[i].0 != key {
                assert(all[i] == filled[i]);
                assert(is_last_pair(before, filled[i]));
                let j = choose|j: int|
                    0 <= j < before.len() / 2 && #[trigger] before[2 * j] == filled[i].0
                        && before[2 * j + 1] == filled[i].1 && is_last_of_its_key(before, j);
                assert(terms[2 * j] == before[2 * j]);
                assert(terms[2 * j + 1] == before[2 * j + 1]);
                assert forall|k: int| j < k < terms.len() / 2 implies #[trigger] terms[2 * k]
                    != terms[2 * j] by {
                    if k < n - 1 {
                        assert(terms[2 * k] == before[2 * k]);
                    }
                }
                assert(is_last_of_its_key(terms, j));
            } else {
                assert(all[i] == (key, value));
            }
        }
        assert forall|j: int| 0 <= j < terms.len() / 2 implies has_key(
            all,
            #[trigger] terms[2 * j],
        ) by {
            if terms[2 * j] == key {
                if has_key(filled, key) {
                    let i = choose|i: int| 0 <= i < filled.len() && (#[trigger] filled[i]).0 == key;
                    assert(all[i].0 == key);
                } else {
                    assert(all[all.len() - 1].0 == key);
                }
            } else {
                assert(j < n - 1);
                assert(terms[2 * j] == before[2 * j]);
                assert(has_key(filled, before[2 * j]));
                let i = choose|i: int|
                    0 <= i < filled.len() && (#[trigger] filled[i]).0 == before[2 * j];
                assert(all[i].0 == terms[2 * j]);
            }
        }
        assert(keys_distinct(all)) by {
            assert forall|a: int, b: int| 0 <= a < b < all.len() implies all[a].0 != all[b].0 by {
                if has_key(filled, key) {
                    assert(all[a].0 == filled[a].0 && all[b].0 == filled[b].0);
                } else if b == all.len() - 1 {
                    assert(all[b].0 == key);
                    assert(all[a] == filled[a]);
                } else {
                    assert(all[a] == filled[a] && all[b] == filled[b]);
                }
            }
        }
    }
}

/// A map that is decoded holds every key that stands in its bytes once,
/// each with the value that stands behind the last of its occurrences.
pub proof fn lemma_decoded_map(
    atoms: AtomRepresentation,
    strings: ByteStringRepresentation,
    s: Seq<u8>,
    pos: int,
)
    requires
        decoded_dict(atoms, strings, s, pos) is Ok,
    ensures
        ({
            let pairs = be_u32_at(s, pos);
            let run = decoded_run(atoms, strings, s, pos + 4, (2 * pairs) as nat);
            let map = decoded_dict(atoms, strings, s, pos)->Ok_0.0;
            &&& run matches Ok((terms, end))
            &&& map matches TermView::Dict(entries)
            &&& terms.len() == 2 * pairs
            &&& keys_distinct(entries)
            &&& entries.len() <= pairs
            &&& forall|i: int| 0 <= i < entries.len() ==> is_last_pair(terms, #[trigger] entries[i])
            &&& forall|j: int| 0 <= j < pairs ==> has_key(entries, #[trigger] terms[2 * j])
        }),
{
    let pairs = be_u32_at(s, pos);
    lemma_run_length(atoms, strings, s, pos + 4, (2 * pairs) as nat);
    let terms = decoded_run(atoms, strings, s, pos + 4, (2 * pairs) as nat)->Ok_0.0;
    lemma_map_holds_last_values(terms);
}

} // verus!
