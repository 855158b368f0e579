//! Signed integers of any size, kept as a sign and little-endian digits in
//! base 256.

use vstd::prelude::*;
use vstd::slice::{slice_subrange, slice_to_vec};

verus! {

/// The number whose base-256 digits, least significant first, are `digits`.
pub open spec fn le_value(digits: Seq<u8>) -> nat
    decreases digits.len(),
{
    if digits.len() == 0 {
        0
    } else {
        digits[0] as nat + 256 * le_value(digits.drop_first())
    }
}

/// The base-256 digits of `v`, least significant first, with no digit more
/// than `v` needs: zero has none.
pub open spec fn le_digits(v: nat) -> Seq<u8>
    decreases v,
{
    if v == 0 {
        Seq::empty()
    } else {
        seq![(v % 256) as u8] + le_digits(v / 256)
    }
}

/// The integer with the given sign and magnitude.
pub open spec fn signed(negative: bool, magnitude: nat) -> int {
    if negative {
        -(magnitude as int)
    } else {
        magnitude as int
    }
}

/// The magnitude of `v`.
pub open spec fn magnitude_of(v: int) -> nat {
    if v < 0 {
        (-v) as nat
    } else {
        v as nat
    }
}

/// Digits have no leading zero when the most significant one is not zero.
pub open spec fn is_trimmed(digits: Seq<u8>) -> bool {
    digits.len() > 0 ==> digits.last() != 0
}

/// The digits of a number stand for that number.
pub proof fn lemma_digits_value(v: nat)
    ensures
        le_value(le_digits(v)) == v,
    decreases v,
{
    if v != 0 {
        lemma_digits_value(v / 256);
        let d = le_digits(v);
        assert(d.drop_first() =~= le_digits(v / 256));
    }
}

/// The digits of a number have no leading zero, and only zero has none.
pub proof fn lemma_digits_trimmed(v: nat)
    ensures
        is_trimmed(le_digits(v)),
        le_digits(v).len() == 0 <==> v == 0,
    decreases v,
{
    if v != 0 {
        lemma_digits_trimmed(v / 256);
        let d = le_digits(v);
        let rest = le_digits(v / 256);
        if rest.len() > 0 {
            assert(d.last() == rest.last());
        } else {
            assert(v / 256 == 0);
            assert(d.last() == (v % 256) as u8);
        }
    }
}

/// Digits without a leading zero are the digits of the number they stand for.
pub proof fn lemma_trimmed_digits(digits: Seq<u8>)
    requires
        is_trimmed(digits),
    ensures
        le_digits(le_value(digits)) == digits,
        digits.len() > 0 ==> le_value(digits) > 0,
    decreases digits.len(),
{
    if digits.len() > 0 {
        let rest = digits.drop_first();
        if rest.len() > 0 {
            assert(rest.last() == digits.last());
        }
        lemma_trimmed_digits(rest);
        let v = le_value(digits);
        assert(v == digits[0] as nat + 256 * le_value(rest));
        assert(v % 256 == digits[0] as nat);
        assert(v / 256 == le_value(rest));
        assert(le_digits(v) =~= digits);
    }
}

/// Zero digits above position `k` add nothing to the value.
pub proof fn lemma_leading_zeros(digits: Seq<u8>, k: int)
    requires
        0 <= k <= digits.len(),
        forall|i: int| k <= i < digits.len() ==> digits[i] == 0,
    ensures
        le_value(digits) == le_value(digits.take(k)),
    decreases digits.len(),
{
    if digits.len() > 0 {
        let rest = digits.drop_first();
        if k == 0 {
            lemma_leading_zeros(rest, 0);
            assert(rest.take(0) =~= Seq::<u8>::empty());
            assert(digits.take(0) =~= Seq::<u8>::empty());
        } else {
            lemma_leading_zeros(rest, k - 1);
            assert(digits.take(k).drop_first() =~= rest.take(k - 1));
        }
    } else {
        assert(digits.take(k) =~= digits);
    }
}

/// An integer of any size.
#[derive(Debug, PartialEq, Eq)]
pub struct Integer {
    negative: bool,
    magnitude: Vec<u8>,
}

impl View for Integer {
    type V = int;

    closed spec fn view(&self) -> int {
        signed(self.negative, le_value(self.magnitude@))
    }
}

impl Clone for Integer {
    fn clone(&self) -> (r: Self)
        ensures
            r@ == self@,
    {
        proof {
            use_type_invariant(self);
        }
        let magnitude = slice_to_vec(self.magnitude.as_slice());
        Integer { negative: self.negative, magnitude }
    }
}

impl Integer {
    #[verifier::type_invariant]
    spec fn is_canonical(self) -> bool {
        &&& is_trimmed(self.magnitude@)
        &&& self.negative ==> self.magnitude@.len() > 0
    }

    /// The integer with the given sign whose magnitude has the base-256
    /// digits `digits`, least significant first. Leading zeros are accepted.
    pub fn from_le_bytes(negative: bool, digits: &[u8]) -> (r: Integer)
        ensures
            r@ == signed(negative, le_value(digits@)),
    {
        let mut k: usize = digits.len();
        while k > 0 && digits[k - 1] == 0
            invariant
                k <= digits@.len(),
                forall|i: int| k <= i < digits@.len() ==> digits@[i] == 0,
            decreases k,
        {
            k -= 1;
        }
        proof {
            lemma_leading_zeros(digits@, k as int);
            assert(digits@.take(k as int) =~= digits@.subrange(0, k as int));
        }
        let magnitude = slice_to_vec(slice_subrange(digits, 0, k));
        Integer { negative: negative && k > 0, magnitude }
    }

    /// The integer `v`.
    pub fn from_i64(v: i64) -> (r: Integer)
        ensures
            r@ == v,
    {
        let negative = v < 0;
        let mut m: u64 = if v < 0 {
            (-(v + 1)) as u64 + 1
        } else {
            v as u64
        };
        let ghost whole: nat = m as nat;
        let mut magnitude: Vec<u8> = Vec::new();
        while m > 0
            invariant
                magnitude@ + le_digits(m as nat) == le_digits(whole),
            decreases m,
        {
            proof {
                assert(magnitude@.push((m % 256) as u8) + le_digits((m / 256) as nat)
                    =~= magnitude@ + le_digits(m as nat));
            }
            magnitude.push((m % 256) as u8);
            m = m / 256;
        }
        proof {
            assert(magnitude@ =~= le_digits(whole));
            lemma_digits_value(whole);
            lemma_digits_trimmed(whole);
        }
        Integer { negative, magnitude }
    }

    /// Whether the integer is below zero.
    pub fn is_negative(&self) -> (r: bool)
        ensures
            r == (self@ < 0),
    {
        proof {
            use_type_invariant(self);
            lemma_trimmed_digits(self.magnitude@);
        }
        self.negative
    }

    /// The base-256 digits of the magnitude, least significant first and
    /// without leading zeros.
    pub fn magnitude(&self) -> (digits: &[u8])
        ensures
            digits@ == le_digits(magnitude_of(self@)),
    {
        proof {
            use_type_invariant(self);
            lemma_trimmed_digits(self.magnitude@);
        }
        self.magnitude.as_slice()
    }

    /// The integer as an `i64`, where it is one.
    pub fn to_i64(&self) -> (r: Option<i64>)
        ensures
            r == if i64::MIN <= self@ <= i64::MAX {
                Some(self@ as i64)
            } else {
                None::<i64>
            },
    {
        let n = self.magnitude.len();
        let mut acc: u64 = 0;
        let mut i: usize = n;
        while i > 0
            invariant
                i <= n,
                n == self.magnitude@.len(),
                acc == le_value(self.magnitude@.skip(i as int)),
                acc <= 0x8000_0000_0000_0000,
            decreases i,
        {
            let d = self.magnitude[i - 1];
            proof {
                let tail = self.magnitude@.skip(i - 1);
                assert(tail.drop_first() =~= self.magnitude@.skip(i as int));
                assert(le_value(tail) == d as nat + 256 * acc);
                lemma_suffix_bound(self.magnitude@, i - 1);
            }
            if acc >= 0x80_0000_0000_0000 {
                if !(acc == 0x80_0000_0000_0000 && d == 0) {
                    return None;
                }
            }
            acc = acc * 256 + d as u64;
            i -= 1;
        }
        assert(self.magnitude@.skip(0) =~= self.magnitude@);
        if self.negative {
            if acc == 0x8000_0000_0000_0000 {
                Some(i64::MIN)
            } else {
                Some(-(acc as i64))
            }
        } else if acc == 0x8000_0000_0000_0000 {
            None
        } else {
            Some(acc as i64)
        }
    }

    /// Whether two integers are the same number.
    pub fn equals(&self, other: &Integer) -> (r: bool)
        ensures
            r == (self@ == other@),
    {
        proof {
            use_type_invariant(self);
            use_type_invariant(other);
            lemma_trimmed_digits(self.magnitude@);
            lemma_trimmed_digits(other.magnitude@);
        }
        self.negative == other.negative && same_bytes(
            self.magnitude.as_slice(),
            other.magnitude.as_slice(),
        )
    }
}

/// A number is at least the number that its digits from position `i` up
/// stand for.
pub proof fn lemma_suffix_bound(digits: Seq<u8>, i: int)
    requires
        0 <= i <= digits.len(),
    ensures
        le_value(digits.skip(i)) <= le_value(digits),
    decreases i,
{
    if i > 0 {
        lemma_suffix_bound(digits, i - 1);
        let tail = digits.skip(i - 1);
        assert(tail.drop_first() =~= digits.skip(i));
    } else {
        assert(digits.skip(0) =~= digits);
    }
}

/// Whether two byte strings hold the same bytes.
pub fn same_bytes(a: &[u8], b: &[u8]) -> (r: bool)
    ensures
        r == (a@ == b@),
{
    if a.len() != b.len() {
        return false;
    }
    let mut i: usize = 0;
    while i < a.len()
        invariant
            i <= a@.len(),
            a@.len() == b@.len(),
            forall|j: int| 0 <= j < i ==> a@[j] == b@[j],
        decreases a@.len() - i,
    {
        if a[i] != b[i] {
            return false;
        }
        i += 1;
    }
    assert(a@ =~= b@);
    true
}

} // verus!
