//! A walk over the blocks of a zlib stream before the stream is handed to
//! the decoder. The decoder cannot take every stream: on a block with the
//! fixed codes that uses the code 286, and on a header that repeats a
//! length past the end of the table of lengths, it fails outright. The
//! walk reads the stream as the decoder does, without keeping what the
//! stream inflates to, and finds whether one of the two is met.

use vstd::prelude::*;
use vstd::slice::{slice_subrange, slice_to_vec};

verus! {

/// The longest stream, in bytes, that is looked over.
pub const MAX_STREAM: usize = 0x0fff_ffff;

/// Bit `p` of a stream, where bit 0 is the lowest bit of the first byte.
pub open spec fn bit(s: Seq<u8>, p: int) -> int {
    let byte = s[p / 8] as int;
    let k = p % 8;
    if k == 0 {
        byte % 2
    } else if k == 1 {
        byte / 2 % 2
    } else if k == 2 {
        byte / 4 % 2
    } else if k == 3 {
        byte / 8 % 2
    } else if k == 4 {
        byte / 16 % 2
    } else if k == 5 {
        byte / 32 % 2
    } else if k == 6 {
        byte / 64 % 2
    } else {
        byte / 128 % 2
    }
}

/// The number that the five bits from `p` on spell, lowest bit first.
pub open spec fn five_bits(s: Seq<u8>, p: int) -> int {
    bit(s, p) + 2 * bit(s, p + 1) + 4 * bit(s, p + 2) + 8 * bit(s, p + 3) + 16 * bit(s, p + 4)
}

/// The code that the five bits from `p` on spell, highest bit first.
pub open spec fn code5(s: Seq<u8>, p: int) -> int {
    16 * bit(s, p) + 8 * bit(s, p + 1) + 4 * bit(s, p + 2) + 2 * bit(s, p + 3) + bit(s, p + 4)
}

/// The code that the seven bits from `p` on spell, highest bit first.
pub open spec fn code7(s: Seq<u8>, p: int) -> int {
    64 * bit(s, p) + 32 * bit(s, p + 1) + code5(s, p + 2)
}

/// How many extra bits follow the code of a length, for the codes 257 to
/// 285, counted from 0.
pub open spec fn extra_length_bits(n: int) -> int {
    if n < 8 || n == 28 {
        0
    } else {
        (n - 4) / 4
    }
}

/// How many extra bits follow the code of a distance, for the codes 0 to
/// 29.
pub open spec fn extra_distance_bits(d: int) -> int {
    if d < 4 {
        0
    } else {
        (d - 2) / 2
    }
}

/// The number that the three bits from `p` on spell, lowest bit first.
pub open spec fn three_bits(s: Seq<u8>, p: int) -> int {
    bit(s, p) + 2 * bit(s, p + 1) + 4 * bit(s, p + 2)
}

/// The number that the seven bits from `p` on spell, lowest bit first.
pub open spec fn seven_bits(s: Seq<u8>, p: int) -> int {
    bit(s, p) + 2 * bit(s, p + 1) + 4 * five_bits(s, p + 2)
}

/// The place in the table of nineteen lengths that the length with the
/// number `j` in a header goes to.
pub open spec fn order(j: int) -> int {
    if j == 0 {
        16
    } else if j == 1 {
        17
    } else if j == 2 {
        18
    } else if j == 3 {
        0
    } else if j % 2 == 0 {
        6 + j / 2
    } else {
        9 - j / 2
    }
}

/// The table of nineteen lengths after the first `j` lengths of a header,
/// of three bits each from bit `p` on, have gone to their places.
pub open spec fn header_lengths(s: Seq<u8>, p: int, j: nat) -> Seq<u8>
    decreases j,
{
    if j == 0 {
        Seq::new(19, |k: int| 0u8)
    } else {
        header_lengths(s, p, (j - 1) as nat).update(
            order(j - 1),
            three_bits(s, p + 3 * (j - 1)) as u8,
        )
    }
}

/// A table of lengths in which `count` entries from place `i` on have
/// been set to `v`.
pub open spec fn repeated(lens: Seq<u8>, i: int, count: nat, v: u8) -> Seq<u8>
    decreases count,
{
    if count == 0 {
        lens
    } else {
        repeated(lens, i, (count - 1) as nat, v).update(i + count - 1, v)
    }
}

/// How many of the first `upto` codes have the length `l`.
pub open spec fn count_len(lens: Seq<u8>, l: int, upto: int) -> int
    decreases upto,
{
    if upto <= 0 {
        0
    } else {
        count_len(lens, l, upto - 1) + if lens[upto - 1] as int == l {
            1int
        } else {
            0int
        }
    }
}

/// The code that is number `k`, counted from 0, among those of length `l`
/// from `from` on; the number of codes where there is none.
pub open spec fn kth_len(lens: Seq<u8>, l: int, k: int, from: int) -> int
    decreases lens.len() - from,
{
    if from < 0 || from >= lens.len() {
        lens.len() as int
    } else if lens[from] as int == l {
        if k <= 0 {
            from
        } else {
            kth_len(lens, l, k - 1, from + 1)
        }
    } else {
        kth_len(lens, l, k, from + 1)
    }
}

/// Reads one code from bit `p` on, where the codes have the lengths
/// `lens` and are numbered in the usual way: shorter codes first, and
/// codes of one length in the order of what they stand for. `len` is the
/// length tried, `code` the bits read before, `first` the first code of
/// that length. Hands out what the code stands for and the bit behind it,
/// or nothing where the stream ends or no code is found.
pub open spec fn read_code(
    s: Seq<u8>,
    p: int,
    lens: Seq<u8>,
    len: int,
    code: int,
    first: int,
) -> Option<(int, int)>
    decreases 16 - len,
{
    if len < 1 || len > 15 || p < 0 || p >= 8 * s.len() || code < 0 || code >= 0x1_0000 || first
        < 0 || first >= 0x1_0000 {
        None
    } else {
        let c = 2 * code + bit(s, p);
        let count = count_len(lens, len, lens.len() as int);
        if c < first {
            None
        } else if c < first + count {
            let symbol = kth_len(lens, len, c - first, 0);
            if symbol < lens.len() {
                Some((symbol, p + 1))
            } else {
                None
            }
        } else {
            read_code(s, p + 1, lens, len + 1, c, 2 * (first + count))
        }
    }
}

/// Whether the codes of a block with codes of its own, read from bit `p`
/// on, and the blocks behind it are of the kinds that are handed to the
/// decoder. `lit` holds the lengths of the codes for bytes and lengths,
/// `dist` those of the codes for distances.
pub open spec fn plain_codes(s: Seq<u8>, p: int, lit: Seq<u8>, dist: Seq<u8>, last: bool) -> bool
    decreases 8 * s.len() - p, 1nat,
{
    if p < 16 || lit.len() > 286 || dist.len() > 30 {
        true
    } else {
        match read_code(s, p, lit, 1, 0, 0) {
            None => true,
            Some((symbol, q)) => if q <= p || q > 8 * s.len() {
                true
            } else if symbol < 256 {
                plain_codes(s, q, lit, dist, last)
            } else if symbol == 256 {
                last || plain_blocks(s, q)
            } else {
                match read_code(s, q + extra_length_bits(symbol - 257), dist, 1, 0, 0) {
                    None => true,
                    Some((d, r)) => {
                        let behind = r + extra_distance_bits(d);
                        if behind <= q || behind > 8 * s.len() {
                            true
                        } else {
                            plain_codes(s, behind, lit, dist, last)
                        }
                    },
                }
            },
        }
    }
}

/// Whether the header of a block with codes of its own, read from bit `p`
/// on, nowhere repeats a length past the end of the table of lengths, and
/// whether what follows is of the kinds that are handed to the decoder.
/// `chain` holds the lengths of the nineteen codes in which the header is
/// written, `lens` the table of lengths, filled up to place `i`; `many`
/// codes are for bytes and lengths, `total` codes are there in all.
pub open spec fn plain_lengths(
    s: Seq<u8>,
    p: int,
    chain: Seq<u8>,
    lens: Seq<u8>,
    i: int,
    many: int,
    total: int,
    last: bool,
) -> bool
    decreases 8 * s.len() - p, 2nat,
{
    if p < 16 || i < 0 || lens.len() != 316 || chain.len() != 19 || !(257 <= many <= 286) || !(
    many < total <= many + 30) {
        true
    } else if i > total {
        true
    } else if i == total {
        plain_codes(s, p, lens.take(many), lens.subrange(many, total), last)
    } else {
        match read_code(s, p, chain, 1, 0, 0) {
            None => true,
            Some((symbol, q)) => if q <= p || q > 8 * s.len() {
                true
            } else if symbol < 16 {
                plain_lengths(s, q, chain, lens.update(i, symbol as u8), i + 1, many, total, last)
            } else if symbol == 16 {
                if i == 0 || q + 2 > 8 * s.len() {
                    true
                } else {
                    let count = 3 + bit(s, q) + 2 * bit(s, q + 1);
                    if i + count > 316 {
                        false
                    } else {
                        plain_lengths(
                            s,
                            q + 2,
                            chain,
                            repeated(lens, i, count as nat, lens[i - 1]),
                            i + count,
                            many,
                            total,
                            last,
                        )
                    }
                }
            } else if symbol == 17 {
                if q + 3 > 8 * s.len() {
                    true
                } else {
                    plain_lengths(
                        s,
                        q + 3,
                        chain,
                        lens,
                        i + 3 + three_bits(s, q),
                        many,
                        total,
                        last,
                    )
                }
            } else {
                if q + 7 > 8 * s.len() {
                    true
                } else {
                    plain_lengths(
                        s,
                        q + 7,
                        chain,
                        lens,
                        i + 11 + seven_bits(s, q),
                        many,
                        total,
                        last,
                    )
                }
            },
        }
    }
}

/// Whether a block with codes of its own, whose header starts at bit `p`,
/// and the blocks behind it are of the kinds that are handed to the
/// decoder.
pub open spec fn plain_dynamic(s: Seq<u8>, p: int, last: bool) -> bool
    decreases 8 * s.len() - p, 3nat,
{
    if p < 16 || p + 14 > 8 * s.len() {
        true
    } else {
        let many = 257 + five_bits(s, p);
        let total = many + 1 + five_bits(s, p + 5);
        let chained = 4 + bit(s, p + 10) + 2 * three_bits(s, p + 11);
        if many > 286 || total > many + 30 || p + 14 + 3 * chained > 8 * s.len() {
            true
        } else {
            plain_lengths(
                s,
                p + 14 + 3 * chained,
                header_lengths(s, p + 14, chained as nat),
                Seq::new(316, |k: int| 0u8),
                0,
                many,
                total,
                last,
            )
        }
    }
}

/// Whether the blocks of a stream from bit `p` on are of the kinds that
/// are handed to the decoder: stored blocks; blocks with the fixed codes
/// that nowhere use the code 286; and blocks with codes of their own
/// whose header nowhere repeats a length past the end of the table of
/// lengths. A stream that ends too soon, or that the decoder is bound to
/// report as broken at the point looked at, counts as of these kinds.
pub open spec fn plain_blocks(s: Seq<u8>, p: int) -> bool
    decreases 8 * s.len() - p, 4nat,
{
    if p < 16 || p + 3 > 8 * s.len() {
        true
    } else {
        let last = bit(s, p) == 1;
        let kind = bit(s, p + 1) + 2 * bit(s, p + 2);
        if kind == 0 {
            // A stored block starts at the next whole byte: its length in
            // two bytes, the length's complement, and the bytes.
            let at = (p + 10) / 8;
            if at + 4 > s.len() {
                true
            } else {
                let n = s[at] as int + 256 * s[at + 1] as int;
                let complement = s[at + 2] as int + 256 * s[at + 3] as int;
                if n + complement != 65535 || at + 4 + n > s.len() || last {
                    true
                } else {
                    plain_blocks(s, 8 * (at + 4 + n))
                }
            }
        } else if kind == 1 {
            plain_fixed(s, p + 3, last)
        } else if kind == 2 {
            plain_dynamic(s, p + 3, last)
        } else {
            true
        }
    }
}

/// Whether a block with the fixed codes, read from bit `p` on, nowhere
/// uses the code 286, and whether the blocks behind it are of the kinds
/// that are handed to the decoder.
pub open spec fn plain_fixed(s: Seq<u8>, p: int, last: bool) -> bool
    decreases 8 * s.len() - p, 5nat,
{
    if p < 16 || p + 7 > 8 * s.len() {
        true
    } else {
        let c7 = code7(s, p);
        if c7 < 24 {
            // The codes of seven bits: 256 to 279.
            plain_after(s, p + 7, 256 + c7, last)
        } else if p + 8 > 8 * s.len() {
            true
        } else {
            let c8 = 2 * c7 + bit(s, p + 7);
            if c8 < 192 {
                // The codes of eight bits for the bytes 0 to 143.
                plain_after(s, p + 8, c8 - 48, last)
            } else if c8 < 200 {
                // The codes of eight bits for 280 to 287.
                plain_after(s, p + 8, 280 + c8 - 192, last)
            } else if p + 9 > 8 * s.len() {
                true
            } else {
                // The codes of nine bits for the bytes 144 to 255.
                plain_after(s, p + 9, 144 + 2 * c8 + bit(s, p + 8) - 400, last)
            }
        }
    }
}

/// What follows the code `symbol` of a block with the fixed codes, which
/// ended just before bit `p`.
pub open spec fn plain_after(s: Seq<u8>, p: int, symbol: int, last: bool) -> bool
    decreases 8 * s.len() - p, 6nat,
{
    if p < 23 || p > 8 * s.len() {
        true
    } else if symbol < 256 {
        plain_fixed(s, p, last)
    } else if symbol == 256 {
        last || plain_blocks(s, p)
    } else if symbol == 286 {
        false
    } else if symbol > 286 {
        true
    } else {
        // A length: its extra bits, the code of the distance in five
        // bits, and the extra bits of the distance.
        let at = p + extra_length_bits(symbol - 257);
        if at + 5 > 8 * s.len() || code5(s, at) >= 30 {
            true
        } else {
            let behind = at + 5 + extra_distance_bits(code5(s, at));
            if behind > 8 * s.len() {
                true
            } else {
                plain_fixed(s, behind, last)
            }
        }
    }
}

/// Whether a zlib stream is one that is handed to the decoder: it is not
/// longer than [`MAX_STREAM`], and the walk over its blocks, which start
/// behind its two bytes of header, meets neither the code 286 in a block
/// with the fixed codes nor a header that repeats a length past the end of
/// the table.
pub open spec fn safe_to_inflate(s: Seq<u8>) -> bool {
    s.len() <= MAX_STREAM && plain_blocks(s, 16)
}

/// Bit `p` of a stream.
fn bit_of(s: &[u8], p: usize) -> (r: usize)
    requires
        p < 8 * s@.len(),
    ensures
        r == bit(s@, p as int),
        r <= 1,
{
    let byte: usize = s[p / 8] as usize;
    let k = p % 8;
    if k == 0 {
        byte % 2
    } else if k == 1 {
        byte / 2 % 2
    } else if k == 2 {
        byte / 4 % 2
    } else if k == 3 {
        byte / 8 % 2
    } else if k == 4 {
        byte / 16 % 2
    } else if k == 5 {
        byte / 32 % 2
    } else if k == 6 {
        byte / 64 % 2
    } else {
        byte / 128 % 2
    }
}

/// The number that five bits spell, lowest bit first.
fn five_bits_of(s: &[u8], p: usize) -> (r: usize)
    requires
        p + 5 <= 8 * s@.len(),
        s@.len() <= MAX_STREAM,
    ensures
        r == five_bits(s@, p as int),
        r <= 31,
{
    bit_of(s, p) + 2 * bit_of(s, p + 1) + 4 * bit_of(s, p + 2) + 8 * bit_of(s, p + 3) + 16 * bit_of(
        s,
        p + 4,
    )
}

/// The code that five bits spell, highest bit first.
fn code5_of(s: &[u8], p: usize) -> (r: usize)
    requires
        p + 5 <= 8 * s@.len(),
        s@.len() <= MAX_STREAM,
    ensures
        r == code5(s@, p as int),
        r <= 31,
{
    16 * bit_of(s, p) + 8 * bit_of(s, p + 1) + 4 * bit_of(s, p + 2) + 2 * bit_of(s, p + 3) + bit_of(
        s,
        p + 4,
    )
}

/// The code that seven bits spell, highest bit first.
fn code7_of(s: &[u8], p: usize) -> (r: usize)
    requires
        p + 7 <= 8 * s@.len(),
        s@.len() <= MAX_STREAM,
    ensures
        r == code7(s@, p as int),
        r <= 127,
{
    64 * bit_of(s, p) + 32 * bit_of(s, p + 1) + code5_of(s, p + 2)
}

/// The number that three bits spell, lowest bit first.
fn three_bits_of(s: &[u8], p: usize) -> (r: usize)
    requires
        p + 3 <= 8 * s@.len(),
        s@.len() <= MAX_STREAM,
    ensures
        r == three_bits(s@, p as int),
        r <= 7,
{
    bit_of(s, p) + 2 * bit_of(s, p + 1) + 4 * bit_of(s, p + 2)
}

/// The number that seven bits spell, lowest bit first.
fn seven_bits_of(s: &[u8], p: usize) -> (r: usize)
    requires
        p + 7 <= 8 * s@.len(),
        s@.len() <= MAX_STREAM,
    ensures
        r == seven_bits(s@, p as int),
        r <= 127,
{
    bit_of(s, p) + 2 * bit_of(s, p + 1) + 4 * five_bits_of(s, p + 2)
}

/// The place in the table of nineteen lengths for the length with the
/// number `j` in a header.
fn order_of(j: usize) -> (r: usize)
    requires
        j < 19,
    ensures
        r == order(j as int),
        r < 19,
{
    if j == 0 {
        16
    } else if j == 1 {
        17
    } else if j == 2 {
        18
    } else if j == 3 {
        0
    } else if j % 2 == 0 {
        6 + j / 2
    } else {
        9 - j / 2
    }
}

/// How many codes have the length `l`.
fn count_len_of(lens: &Vec<u8>, l: u8) -> (r: usize)
    ensures
        r == count_len(lens@, l as int, lens@.len() as int),
        r <= lens@.len(),
{
    let mut count: usize = 0;
    let mut i: usize = 0;
    while i < lens.len()
        invariant
            i <= lens@.len(),
            count <= i,
            count == count_len(lens@, l as int, i as int),
        decreases lens@.len() - i,
    {
        if lens[i] == l {
            count += 1;
        }
        i += 1;
    }
    count
}

/// The code that is number `k` among those of length `l`; the number of
/// codes where there is none.
fn kth_len_of(lens: &Vec<u8>, l: u8, k: usize) -> (r: usize)
    ensures
        r == kth_len(lens@, l as int, k as int, 0),
        r <= lens@.len(),
{
    let mut left: usize = k;
    let mut i: usize = 0;
    while i < lens.len()
        invariant
            i <= lens@.len(),
            kth_len(lens@, l as int, k as int, 0) == kth_len(lens@, l as int, left as int, i as int),
        decreases lens@.len() - i,
    {
        if lens[i] == l {
            if left == 0 {
                return i;
            }
            left -= 1;
        }
        i += 1;
    }
    lens.len()
}

/// That `counts` says of each length from 1 to 15 how many codes have
/// it.
pub open spec fn counts_fit(counts: Seq<usize>, lens: Seq<u8>) -> bool {
    &&& counts.len() == 16
    &&& forall|l: int|
        1 <= l <= 15 ==> counts[l] as int == count_len(lens, l, lens.len() as int) && counts[l]
            <= lens.len()
}

/// How many codes have each of the lengths from 1 to 15.
fn counts_of(lens: &Vec<u8>) -> (counts: Vec<usize>)
    ensures
        counts_fit(counts@, lens@),
{
    let mut counts: Vec<usize> = Vec::new();
    counts.push(0);
    let mut l: u8 = 1;
    while l <= 15
        invariant
            1 <= l <= 16,
            counts@.len() == l,
            forall|k: int|
                1 <= k < l ==> counts@[k] as int == count_len(lens@, k, lens@.len() as int)
                    && counts@[k] <= lens@.len(),
        decreases 16 - l,
    {
        let count = count_len_of(lens, l);
        counts.push(count);
        l += 1;
    }
    counts
}

/// Reads one code from bit `p` on, where the codes have the lengths
/// `lens`.
fn read_code_of(s: &[u8], p: usize, lens: &Vec<u8>, counts: &Vec<usize>) -> (r: Option<
    (usize, usize),
>)
    requires
        s@.len() <= MAX_STREAM,
        p <= 8 * s@.len(),
        lens@.len() <= 316,
        counts_fit(counts@, lens@),
    ensures
        match read_code(s@, p as int, lens@, 1, 0, 0) {
            None => r is None,
            Some((symbol, q)) => r == Some((symbol as usize, q as usize)) && 0 <= symbol
                < lens@.len() && p < q <= 8 * s@.len(),
        },
{
    let total: usize = 8 * s.len();
    let mut len: u8 = 1;
    let mut code: usize = 0;
    let mut first: usize = 0;
    let mut q: usize = p;
    while len <= 15
        invariant
            1 <= len <= 16,
            total == 8 * s@.len(),
            s@.len() <= MAX_STREAM,
            lens@.len() <= 316,
            counts_fit(counts@, lens@),
            p <= q <= total,
            q == p + len - 1,
            code <= 0x2_0000,
            first <= 0x4_0000,
            read_code(s@, p as int, lens@, 1, 0, 0) == read_code(
                s@,
                q as int,
                lens@,
                len as int,
                code as int,
                first as int,
            ),
        decreases 16 - len,
    {
        if q >= total || code >= 0x1_0000 || first >= 0x1_0000 {
            return None;
        }
        let c = 2 * code + bit_of(s, q);
        let count = counts[len as usize];
        if c < first {
            return None;
        }
        if c < first + count {
            let symbol = kth_len_of(lens, len, c - first);
            if symbol < lens.len() {
                return Some((symbol, q + 1));
            } else {
                return None;
            }
        }
        q += 1;
        len += 1;
        code = c;
        first = 2 * (first + count);
    }
    None
}

/// Where the walk over a stream stands: before a block, before a code of
/// a block with the fixed codes or behind such a code, or in a block with
/// codes of its own, before its header, at a length of its header or at
/// one of its codes.
pub enum Walk {
    Block,
    Fixed { last: bool },
    After { symbol: usize, last: bool },
    Dynamic { last: bool },
    Lengths { i: usize, many: usize, total: usize, last: bool },
    Codes { last: bool },
}

/// What is yet to be found out at a place of the walk, with the tables
/// of lengths as they stand.
pub open spec fn plain_from(
    s: Seq<u8>,
    p: int,
    walk: Walk,
    chain: Seq<u8>,
    lens: Seq<u8>,
    lit: Seq<u8>,
    dist: Seq<u8>,
) -> bool {
    match walk {
        Walk::Block => plain_blocks(s, p),
        Walk::Fixed { last } => plain_fixed(s, p, last),
        Walk::After { symbol, last } => plain_after(s, p, symbol as int, last),
        Walk::Dynamic { last } => plain_dynamic(s, p, last),
        Walk::Lengths { i, many, total, last } => plain_lengths(
            s,
            p,
            chain,
            lens,
            i as int,
            many as int,
            total as int,
            last,
        ),
        Walk::Codes { last } => plain_codes(s, p, lit, dist, last),
    }
}

/// How many steps a place of the walk may take without moving on in the
/// stream.
pub open spec fn walk_rank(walk: Walk) -> int {
    match walk {
        Walk::Block => 0,
        Walk::Fixed { .. } => 1,
        Walk::After { .. } => 2,
        Walk::Dynamic { .. } => 0,
        Walk::Codes { .. } => 1,
        Walk::Lengths { .. } => 3,
    }
}

/// What the tables of lengths must be like at a place of the walk.
pub open spec fn walk_fits(
    walk: Walk,
    p: int,
    chain: Seq<u8>,
    lens: Seq<u8>,
    lit: Seq<u8>,
    dist: Seq<u8>,
    counts: (Seq<usize>, Seq<usize>, Seq<usize>),
) -> bool {
    match walk {
        Walk::After { symbol, .. } => symbol <= 287 && p >= 23,
        Walk::Lengths { i, many, total, .. } => chain.len() == 19 && lens.len() == 316 && 257
            <= many <= 286 && many < total <= many + 30 && i <= 500 && counts_fit(
            counts.0,
            chain,
        ),
        Walk::Codes { .. } => lit.len() <= 286 && dist.len() <= 30 && counts_fit(counts.1, lit)
            && counts_fit(counts.2, dist),
        _ => true,
    }
}

/// What a step of the walk comes to: the answer, or the next place.
pub enum Stepped {
    Verdict(bool),
    On { p: usize, walk: Walk },
}

/// That a step from the place `walk` at bit `p` came to `r`: the answer
/// is that of the place, or the next place has the same answer and lies
/// further on.
pub open spec fn steps(
    s: Seq<u8>,
    p: int,
    walk: Walk,
    r: Stepped,
    chain: Seq<u8>,
    lens: Seq<u8>,
    next_lens: Seq<u8>,
    lit: Seq<u8>,
    dist: Seq<u8>,
    counts: (Seq<usize>, Seq<usize>, Seq<usize>),
) -> bool {
    let answer = plain_from(s, p, walk, chain, lens, lit, dist);
    match r {
        Stepped::Verdict(b) => b == answer,
        Stepped::On { p: q, walk: next } => {
            &&& answer == plain_from(s, q as int, next, chain, next_lens, lit, dist)
            &&& p <= q <= 8 * s.len()
            &&& q > p || walk_rank(next) < walk_rank(walk)
            &&& walk_fits(next, q as int, chain, next_lens, lit, dist, counts)
        },
    }
}

/// A step from before a block.
fn step_block(s: &[u8], p: usize) -> (r: Stepped)
    requires
        s@.len() <= MAX_STREAM,
        16 <= p <= 8 * s@.len(),
    ensures
        forall|
            chain: Seq<u8>,
            lens: Seq<u8>,
            lit: Seq<u8>,
            dist: Seq<u8>,
            counts: (Seq<usize>, Seq<usize>, Seq<usize>),
        |
            #![trigger steps(s@, p as int, Walk::Block, r, chain, lens, lens, lit, dist, counts)]
            !(r matches Stepped::On { walk, .. } && (walk is Lengths || walk is Codes)) && steps(
                s@,
                p as int,
                Walk::Block,
                r,
                chain,
                lens,
                lens,
                lit,
                dist,
                counts,
            ),
{
    let len = s.len();
    let total: usize = 8 * len;
    if p + 3 > total {
        return Stepped::Verdict(true);
    }
    let last = bit_of(s, p) == 1;
    let kind = bit_of(s, p + 1) + 2 * bit_of(s, p + 2);
    if kind == 0 {
        let at = (p + 10) / 8;
        if at + 4 > len {
            return Stepped::Verdict(true);
        }
        let n: usize = s[at] as usize + 256 * (s[at + 1] as usize);
        let complement: usize = s[at + 2] as usize + 256 * (s[at + 3] as usize);
        if n + complement != 65535 || at + 4 + n > len || last {
            return Stepped::Verdict(true);
        }
        Stepped::On { p: 8 * (at + 4 + n), walk: Walk::Block }
    } else if kind == 1 {
        Stepped::On { p: p + 3, walk: Walk::Fixed { last } }
    } else if kind == 2 {
        Stepped::On { p: p + 3, walk: Walk::Dynamic { last } }
    } else {
        Stepped::Verdict(true)
    }
}

/// A step from before a code of a block with the fixed codes.
fn step_fixed(s: &[u8], p: usize, last: bool) -> (r: Stepped)
    requires
        s@.len() <= MAX_STREAM,
        16 <= p <= 8 * s@.len(),
    ensures
        forall|
            chain: Seq<u8>,
            lens: Seq<u8>,
            lit: Seq<u8>,
            dist: Seq<u8>,
            counts: (Seq<usize>, Seq<usize>, Seq<usize>),
        |
            #![trigger steps(s@, p as int, Walk::Fixed { last }, r, chain, lens, lens, lit, dist, counts)]
            !(r matches Stepped::On { walk, .. } && (walk is Lengths || walk is Codes)) && steps(
                s@,
                p as int,
                Walk::Fixed { last },
                r,
                chain,
                lens,
                lens,
                lit,
                dist,
                counts,
            ),
{
    let total: usize = 8 * s.len();
    if p + 7 > total {
        return Stepped::Verdict(true);
    }
    let c7 = code7_of(s, p);
    if c7 < 24 {
        Stepped::On { p: p + 7, walk: Walk::After { symbol: 256 + c7, last } }
    } else if p + 8 > total {
        Stepped::Verdict(true)
    } else {
        let c8 = 2 * c7 + bit_of(s, p + 7);
        if c8 < 192 {
            Stepped::On { p: p + 8, walk: Walk::After { symbol: c8 - 48, last } }
        } else if c8 < 200 {
            Stepped::On { p: p + 8, walk: Walk::After { symbol: 280 + c8 - 192, last } }
        } else if p + 9 > total {
            Stepped::Verdict(true)
        } else {
            let c9 = 2 * c8 + bit_of(s, p + 8);
            Stepped::On { p: p + 9, walk: Walk::After { symbol: 144 + c9 - 400, last } }
        }
    }
}

/// A step from behind a code of a block with the fixed codes.
fn step_after(s: &[u8], p: usize, symbol: usize, last: bool) -> (r: Stepped)
    requires
        s@.len() <= MAX_STREAM,
        23 <= p <= 8 * s@.len(),
        symbol <= 287,
    ensures
        forall|
            chain: Seq<u8>,
            lens: Seq<u8>,
            lit: Seq<u8>,
            dist: Seq<u8>,
            counts: (Seq<usize>, Seq<usize>, Seq<usize>),
        |
            #![trigger steps(s@, p as int, Walk::After { symbol, last }, r, chain, lens, lens, lit, dist, counts)]
            !(r matches Stepped::On { walk, .. } && (walk is Lengths || walk is Codes)) && steps(
                s@,
                p as int,
                Walk::After { symbol, last },
                r,
                chain,
                lens,
                lens,
                lit,
                dist,
                counts,
            ),
{
    let total: usize = 8 * s.len();
    if symbol < 256 {
        Stepped::On { p, walk: Walk::Fixed { last } }
    } else if symbol == 256 {
        if last {
            Stepped::Verdict(true)
        } else {
            Stepped::On { p, walk: Walk::Block }
        }
    } else if symbol == 286 {
        Stepped::Verdict(false)
    } else if symbol > 286 {
        Stepped::Verdict(true)
    } else {
        let at = p + extra_length_bits_of(symbol - 257);
        if at + 5 > total {
            return Stepped::Verdict(true);
        }
        let d = code5_of(s, at);
        if d >= 30 {
            return Stepped::Verdict(true);
        }
        let behind = at + 5 + extra_distance_bits_of(d);
        if behind > total {
            return Stepped::Verdict(true);
        }
        Stepped::On { p: behind, walk: Walk::Fixed { last } }
    }
}

/// The start of a block with codes of its own: the answer, or the table
/// of nineteen lengths with the bit behind it and the two numbers of
/// codes.
fn start_dynamic(s: &[u8], p: usize, last: bool) -> (r: Result<(Vec<u8>, usize, usize, usize), bool>)
    requires
        s@.len() <= MAX_STREAM,
        16 <= p <= 8 * s@.len(),
    ensures
        match r {
            Err(b) => b == plain_dynamic(s@, p as int, last),
            Ok((chain, q, many, total)) => {
                &&& plain_dynamic(s@, p as int, last) == plain_lengths(
                    s@,
                    q as int,
                    chain@,
                    Seq::new(316, |k: int| 0u8),
                    0,
                    many as int,
                    total as int,
                    last,
                )
                &&& p < q <= 8 * s@.len()
                &&& chain@.len() == 19
                &&& 257 <= many <= 286
                &&& many < total <= many + 30
            },
        },
{
    let all_bits: usize = 8 * s.len();
    if p + 14 > all_bits {
        return Err(true);
    }
    let many = 257 + five_bits_of(s, p);
    let total = many + 1 + five_bits_of(s, p + 5);
    let chained = 4 + bit_of(s, p + 10) + 2 * three_bits_of(s, p + 11);
    if many > 286 || total > many + 30 || p + 14 + 3 * chained > all_bits {
        return Err(true);
    }
    let chain = header_lengths_of(s, p + 14, chained);
    Ok((chain, p + 14 + 3 * chained, many, total))
}

/// A step from a length of the header of a block with codes of its own.
fn step_lengths(
    s: &[u8],
    p: usize,
    i: usize,
    many: usize,
    total: usize,
    last: bool,
    chain: &Vec<u8>,
    counts: &Vec<usize>,
    lens: &mut Vec<u8>,
) -> (r: Stepped)
    requires
        s@.len() <= MAX_STREAM,
        16 <= p <= 8 * s@.len(),
        chain@.len() == 19,
        counts_fit(counts@, chain@),
        old(lens)@.len() == 316,
        257 <= many <= 286,
        many < total <= many + 30,
        i < total,
    ensures
        final(lens)@.len() == 316,
        forall|lit: Seq<u8>, dist: Seq<u8>, others: (Seq<usize>, Seq<usize>)|
            #![trigger steps(s@, p as int, Walk::Lengths { i, many, total, last }, r, chain@, old(lens)@, final(lens)@, lit, dist, (counts@, others.0, others.1))]
            !(r matches Stepped::On { walk, .. } && walk is Codes) && steps(
                s@,
                p as int,
                Walk::Lengths { i, many, total, last },
                r,
                chain@,
                old(lens)@,
                final(lens)@,
                lit,
                dist,
                (counts@, others.0, others.1),
            ),
{
    let all_bits: usize = 8 * s.len();
    match read_code_of(s, p, chain, counts) {
        None => Stepped::Verdict(true),
        Some((symbol, q)) => {
            if symbol < 16 {
                lens.set(i, symbol as u8);
                Stepped::On { p: q, walk: Walk::Lengths { i: i + 1, many, total, last } }
            } else if symbol == 16 {
                if i == 0 || q + 2 > all_bits {
                    return Stepped::Verdict(true);
                }
                let count = 3 + bit_of(s, q) + 2 * bit_of(s, q + 1);
                if i + count > 316 {
                    return Stepped::Verdict(false);
                }
                let v = lens[i - 1];
                repeat_into(lens, i, count, v);
                Stepped::On { p: q + 2, walk: Walk::Lengths { i: i + count, many, total, last } }
            } else if symbol == 17 {
                if q + 3 > all_bits {
                    return Stepped::Verdict(true);
                }
                let skip = 3 + three_bits_of(s, q);
                Stepped::On { p: q + 3, walk: Walk::Lengths { i: i + skip, many, total, last } }
            } else {
                if q + 7 > all_bits {
                    return Stepped::Verdict(true);
                }
                let skip = 11 + seven_bits_of(s, q);
                Stepped::On { p: q + 7, walk: Walk::Lengths { i: i + skip, many, total, last } }
            }
        },
    }
}

/// A step from a code of a block with codes of its own.
fn step_codes(
    s: &[u8],
    p: usize,
    last: bool,
    lit: &Vec<u8>,
    lit_counts: &Vec<usize>,
    dist: &Vec<u8>,
    dist_counts: &Vec<usize>,
) -> (r: Stepped)
    requires
        s@.len() <= MAX_STREAM,
        16 <= p <= 8 * s@.len(),
        lit@.len() <= 286,
        dist@.len() <= 30,
        counts_fit(lit_counts@, lit@),
        counts_fit(dist_counts@, dist@),
    ensures
        forall|chain: Seq<u8>, lens: Seq<u8>, other: Seq<usize>|
            #![trigger steps(s@, p as int, Walk::Codes { last }, r, chain, lens, lens, lit@, dist@, (other, lit_counts@, dist_counts@))]
            !(r matches Stepped::On { walk, .. } && walk is Lengths) && steps(
                s@,
                p as int,
                Walk::Codes { last },
                r,
                chain,
                lens,
                lens,
                lit@,
                dist@,
                (other, lit_counts@, dist_counts@),
            ),
{
    let all_bits: usize = 8 * s.len();
    match read_code_of(s, p, lit, lit_counts) {
        None => Stepped::Verdict(true),
        Some((symbol, q)) => {
            if symbol < 256 {
                Stepped::On { p: q, walk: Walk::Codes { last } }
            } else if symbol == 256 {
                if last {
                    Stepped::Verdict(true)
                } else {
                    Stepped::On { p: q, walk: Walk::Block }
                }
            } else {
                let at = q + extra_length_bits_of(symbol - 257);
                if at > all_bits {
                    return Stepped::Verdict(true);
                }
                match read_code_of(s, at, dist, dist_counts) {
                    None => Stepped::Verdict(true),
                    Some((d, r)) => {
                        let behind = r + extra_distance_bits_of(d);
                        if behind > all_bits {
                            return Stepped::Verdict(true);
                        }
                        Stepped::On { p: behind, walk: Walk::Codes { last } }
                    },
                }
            }
        },
    }
}

/// The table of nineteen lengths of a header whose `chained` lengths
/// start at bit `p`.
fn header_lengths_of(s: &[u8], p: usize, chained: usize) -> (chain: Vec<u8>)
    requires
        s@.len() <= MAX_STREAM,
        chained <= 19,
        p + 3 * chained <= 8 * s@.len(),
    ensures
        chain@ == header_lengths(s@, p as int, chained as nat),
        chain@.len() == 19,
{
    let mut chain: Vec<u8> = Vec::new();
    while chain.len() < 19
        invariant
            chain@.len() <= 19,
            forall|k: int| 0 <= k < chain@.len() ==> chain@[k] == 0,
        decreases 19 - chain@.len(),
    {
        chain.push(0);
    }
    assert(chain@ =~= header_lengths(s@, p as int, 0));
    let mut j: usize = 0;
    while j < chained
        invariant
            j <= chained <= 19,
            s@.len() <= MAX_STREAM,
            p + 3 * chained <= 8 * s@.len(),
            chain@.len() == 19,
            chain@ == header_lengths(s@, p as int, j as nat),
        decreases chained - j,
    {
        let v = three_bits_of(s, p + 3 * j) as u8;
        chain.set(order_of(j), v);
        j += 1;
    }
    chain
}

/// Sets `count` entries of a table of lengths from place `i` on to `v`.
fn repeat_into(lens: &mut Vec<u8>, i: usize, count: usize, v: u8)
    requires
        i + count <= old(lens)@.len(),
        old(lens)@.len() <= 316,
    ensures
        final(lens)@ == repeated(old(lens)@, i as int, count as nat, v),
        final(lens)@.len() == old(lens)@.len(),
{
    let mut done: usize = 0;
    while done < count
        invariant
            done <= count,
            i + count <= lens@.len(),
            lens@.len() == old(lens)@.len(),
            lens@.len() <= 316,
            lens@ == repeated(old(lens)@, i as int, done as nat, v),
        decreases count - done,
    {
        lens.set(i + done, v);
        done += 1;
    }
}

/// The two tables of lengths that a filled table of lengths holds: the
/// first `many` for bytes and lengths, the rest up to `total` for
/// distances; each with the number of codes of each length.
fn split_lengths(lens: &Vec<u8>, many: usize, total: usize) -> (r: (
    Vec<u8>,
    Vec<usize>,
    Vec<u8>,
    Vec<usize>,
))
    requires
        lens@.len() == 316,
        many < total <= 316,
    ensures
        r.0@ == lens@.take(many as int),
        r.2@ == lens@.subrange(many as int, total as int),
        counts_fit(r.1@, r.0@),
        counts_fit(r.3@, r.2@),
{
    let lit = slice_to_vec(slice_subrange(lens.as_slice(), 0, many));
    let dist = slice_to_vec(slice_subrange(lens.as_slice(), many, total));
    assert(lit@ =~= lens@.take(many as int));
    let lit_counts = counts_of(&lit);
    let dist_counts = counts_of(&dist);
    (lit, lit_counts, dist, dist_counts)
}

/// A table of 316 lengths that are all zero.
fn no_lengths() -> (lens: Vec<u8>)
    ensures
        lens@ == Seq::new(316, |k: int| 0u8),
{
    let mut lens: Vec<u8> = Vec::new();
    while lens.len() < 316
        invariant
            lens@.len() <= 316,
            forall|k: int| 0 <= k < lens@.len() ==> lens@[k] == 0,
        decreases 316 - lens@.len(),
    {
        lens.push(0);
    }
    assert(lens@ =~= Seq::new(316, |k: int| 0u8));
    lens
}

/// Whether a zlib stream is one that is handed to the decoder.
pub fn is_safe_to_inflate(stream: &[u8]) -> (r: bool)
    ensures
        r == safe_to_inflate(stream@),
{
    let len = stream.len();
    if len > MAX_STREAM {
        return false;
    }
    let total: usize = 8 * len;
    if total < 19 {
        return true;
    }
    let mut p: usize = 16;
    let mut walk = Walk::Block;
    let mut chain: Vec<u8> = Vec::new();
    let mut lens: Vec<u8> = Vec::new();
    let mut lit: Vec<u8> = Vec::new();
    let mut dist: Vec<u8> = Vec::new();
    let mut chain_counts: Vec<usize> = Vec::new();
    let mut lit_counts: Vec<usize> = Vec::new();
    let mut dist_counts: Vec<usize> = Vec::new();
    loop
        invariant
            len == stream@.len(),
            len <= MAX_STREAM,
            total == 8 * len,
            16 <= p <= total,
            safe_to_inflate(stream@) == plain_from(
                stream@,
                p as int,
                walk,
                chain@,
                lens@,
                lit@,
                dist@,
            ),
            walk_fits(
                walk,
                p as int,
                chain@,
                lens@,
                lit@,
                dist@,
                (chain_counts@, lit_counts@, dist_counts@),
            ),
        decreases total - p, walk_rank(walk),
    {
        let ghost before = lens@;
        let ghost at = p as int;
        let ghost from = walk;
        let stepped = match walk {
            Walk::Block => step_block(stream, p),
            Walk::Fixed { last } => step_fixed(stream, p, last),
            Walk::After { symbol, last } => step_after(stream, p, symbol, last),
            Walk::Dynamic { last } => {
                match start_dynamic(stream, p, last) {
                    Err(answer) => Stepped::Verdict(answer),
                    Ok((table, q, many, all)) => {
                        chain = table;
                        chain_counts = counts_of(&chain);
                        lens = no_lengths();
                        Stepped::On { p: q, walk: Walk::Lengths { i: 0, many, total: all, last } }
                    },
                }
            },
            Walk::Lengths { i, many, total: all, last } => {
                if i > all {
                    Stepped::Verdict(true)
                } else if i == all {
                    let tables = split_lengths(&lens, many, all);
                    lit = tables.0;
                    lit_counts = tables.1;
                    dist = tables.2;
                    dist_counts = tables.3;
                    Stepped::On { p, walk: Walk::Codes { last } }
                } else {
                    step_lengths(stream, p, i, many, all, last, &chain, &chain_counts, &mut lens)
                }
            },
            Walk::Codes { last } => step_codes(
                stream,
                p,
                last,
                &lit,
                &lit_counts,
                &dist,
                &dist_counts,
            ),
        };
        proof {
            // Each step is taken at its own place: what it promises is
            // asked for there.
            let counts = (chain_counts@, lit_counts@, dist_counts@);
            let (c, l, t, d) = (chain@, lens@, lit@, dist@);
            match from {
                Walk::Block => {
                    assert(steps(stream@, at, Walk::Block, stepped, c, l, l, t, d, counts));
                },
                Walk::Fixed { last } => {
                    assert(steps(stream@, at, Walk::Fixed { last }, stepped, c, l, l, t, d, counts));
                },
                Walk::After { symbol, last } => {
                    assert(steps(
                        stream@,
                        at,
                        Walk::After { symbol, last },
                        stepped,
                        c,
                        l,
                        l,
                        t,
                        d,
                        counts,
                    ));
                },
                Walk::Codes { last } => {
                    assert(steps(stream@, at, Walk::Codes { last }, stepped, c, l, l, t, d, counts));
                },
                Walk::Lengths { i, many, total: all, last } => {
                    if i < all {
                        let others = (lit_counts@, dist_counts@);
                        assert(steps(
                            stream@,
                            at,
                            Walk::Lengths { i, many, total: all, last },
                            stepped,
                            c,
                            before,
                            l,
                            t,
                            d,
                            (chain_counts@, others.0, others.1),
                        ));
                    }
                },
                Walk::Dynamic { .. } => {},
            }
        }
        assert(steps(
            stream@,
            at,
            from,
            stepped,
            chain@,
            before,
            lens@,
            lit@,
            dist@,
            (chain_counts@, lit_counts@, dist_counts@),
        ));
        match stepped {
            Stepped::Verdict(answer) => {
                return answer;
            },
            Stepped::On { p: q, walk: next } => {
                p = q;
                walk = next;
            },
        }
    }
}

/// How many extra bits follow the code of a length.
fn extra_length_bits_of(n: usize) -> (r: usize)
    requires
        n <= 28,
    ensures
        r == extra_length_bits(n as int),
        r <= 5,
{
    if n < 8 || n == 28 {
        0
    } else {
        (n - 4) / 4
    }
}

/// How many extra bits follow the code of a distance.
fn extra_distance_bits_of(d: usize) -> (r: usize)
    requires
        d <= 29,
    ensures
        r == extra_distance_bits(d as int),
        r <= 13,
{
    if d < 4 {
        0
    } else {
        (d - 2) / 2
    }
}

} // verus!
