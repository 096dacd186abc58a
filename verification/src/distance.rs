//! Hamming distances, and the key-length estimate built on them: for each
//! candidate key length, how many bits differ per byte between neighbouring
//! chunks of that length. The right length tends to give the smallest figure.

use crate::fraction::Fraction;
use std::collections::HashMap;
use vstd::prelude::*;
use vstd::slice::slice_subrange;

verus! {

/// How many chunk pairs [`avg_normalized_hamming_distance`] looks at for each
/// key length, at most. Two pairs keep the cost low on large inputs.
pub const SAMPLE_PAIRS: usize = 2;

/// The longest slice that goes to the counting routine in one piece, so that
/// its 64-bit count cannot run over whatever the input's length.
const BLOCK_BYTES: usize = 0x1000_0000;

/// The number of bits set in `b`.
pub open spec fn ones(b: u8) -> nat
    decreases b,
{
    if b == 0 {
        0
    } else {
        (b % 2) as nat + ones(b / 2)
    }
}

/// The Hamming distance of two byte sequences of one length: the number of
/// bit positions in which they differ.
pub open spec fn bit_distance(left: Seq<u8>, right: Seq<u8>) -> nat
    recommends
        left.len() == right.len(),
    decreases left.len(),
{
    if left.len() == 0 {
        0
    } else {
        bit_distance(left.drop_last(), right.drop_last()) + ones(left.last() ^ right.last())
    }
}

/// A byte has at most eight bits set.
pub proof fn lemma_ones_bound(b: u8)
    ensures
        ones(b) <= 8,
{
    reveal_with_fuel(ones, 9);
}

/// Two sequences differ in at most eight bits per byte.
pub proof fn lemma_bit_distance_bound(left: Seq<u8>, right: Seq<u8>)
    ensures
        bit_distance(left, right) <= 8 * left.len(),
    decreases left.len(),
{
    if left.len() > 0 {
        lemma_bit_distance_bound(left.drop_last(), right.drop_last());
        lemma_ones_bound(left.last() ^ right.last());
    }
}

/// The distance of two sequences is the sum of the distances of their parts.
pub proof fn lemma_bit_distance_concat(
    left_a: Seq<u8>,
    left_b: Seq<u8>,
    right_a: Seq<u8>,
    right_b: Seq<u8>,
)
    requires
        left_a.len() == right_a.len(),
        left_b.len() == right_b.len(),
    ensures
        bit_distance(left_a + left_b, right_a + right_b) == bit_distance(left_a, right_a)
            + bit_distance(left_b, right_b),
    decreases left_b.len(),
{
    if left_b.len() == 0 {
        assert(left_a + left_b =~= left_a);
        assert(right_a + right_b =~= right_a);
    } else {
        lemma_bit_distance_concat(left_a, left_b.drop_last(), right_a, right_b.drop_last());
        assert((left_a + left_b).drop_last() =~= left_a + left_b.drop_last());
        assert((right_a + right_b).drop_last() =~= right_a + right_b.drop_last());
    }
}

/// A chunk of zero bytes and a chunk of `0xFF` bytes of the same length differ
/// in every bit: their distance is eight times the length.
pub proof fn lemma_opposite_chunks_distance(zeros: Seq<u8>, all_ones: Seq<u8>)
    requires
        zeros.len() == all_ones.len(),
        forall|i: int| 0 <= i < zeros.len() ==> zeros[i] == 0x00,
        forall|i: int| 0 <= i < all_ones.len() ==> all_ones[i] == 0xFF,
    ensures
        bit_distance(zeros, all_ones) == 8 * zeros.len(),
    decreases zeros.len(),
{
    if zeros.len() > 0 {
        lemma_opposite_chunks_distance(zeros.drop_last(), all_ones.drop_last());
        assert(0x00u8 ^ 0xFFu8 == 0xFFu8) by (bit_vector);
        assert(ones(0xFF) == 8) by {
            reveal_with_fuel(ones, 9);
        }
    }
}

/// Calls `hamming::distance`, which counts the bits in which two slices of
/// one length differ and panics when the lengths differ. It counts in 64
/// bits, so the contract leaves out slices whose count could run over.
#[verifier::external_body]
fn count_differing_bits(left: &[u8], right: &[u8]) -> (bits: u64)
    requires
        left@.len() == right@.len(),
        8 * left@.len() <= u64::MAX,
    ensures
        bits == bit_distance(left@, right@),
{
    hamming::distance(left, right)
}

/// The Hamming distance between two slices of one length.
pub fn hamming_distance(left: &[u8], right: &[u8]) -> (bits: u128)
    requires
        left@.len() == right@.len(),
    ensures
        bits == bit_distance(left@, right@),
{
    let len = left.len();
    let mut bits: u128 = 0;
    let mut done: usize = 0;
    while done < len
        invariant
            len == left@.len(),
            len == right@.len(),
            done <= len,
            bits == bit_distance(left@.take(done as int), right@.take(done as int)),
            bits <= 8 * done,
        decreases len - done,
    {
        let step = if len - done < BLOCK_BYTES {
            len - done
        } else {
            BLOCK_BYTES
        };
        let left_block = slice_subrange(left, done, done + step);
        let right_block = slice_subrange(right, done, done + step);
        let block_bits = count_differing_bits(left_block, right_block);
        proof {
            lemma_bit_distance_concat(
                left@.take(done as int),
                left_block@,
                right@.take(done as int),
                right_block@,
            );
            lemma_bit_distance_bound(left_block@, right_block@);
            assert(left@.take(done + step) =~= left@.take(done as int) + left_block@);
            assert(right@.take(done + step) =~= right@.take(done as int) + right_block@);
        }
        bits = bits + block_bits as u128;
        done = done + step;
    }
    proof {
        assert(left@.take(done as int) =~= left@);
        assert(right@.take(done as int) =~= right@);
    }
    bits
}

/// How many chunk pairs of `keysize` bytes each are compared in an input of
/// `len` bytes: the whole pairs that fit, capped at `max_pairs`. A short last
/// chunk, or a chunk without a partner, is not compared.
pub open spec fn pairs_compared(len: nat, keysize: nat, max_pairs: nat) -> nat {
    if keysize == 0 {
        0
    } else if len / (2 * keysize) < max_pairs {
        len / (2 * keysize)
    } else {
        max_pairs
    }
}

/// The bits that differ, summed over the first `pairs` chunk pairs: the input
/// is cut into chunks of `keysize` bytes, and chunk `2j` is held against chunk
/// `2j + 1`.
pub open spec fn pairs_distance(input: Seq<u8>, keysize: nat, pairs: nat) -> nat
    decreases pairs,
{
    if pairs == 0 {
        0
    } else {
        let start = 2 * (pairs - 1) * keysize;
        pairs_distance(input, keysize, (pairs - 1) as nat) + bit_distance(
            input.subrange(start, start + keysize),
            input.subrange(start + keysize, start + 2 * keysize),
        )
    }
}

/// Whether `avg` is the average normalized Hamming distance of `input` for
/// `keysize`: the differing bits of the compared pairs over the bytes
/// compared, which is the mean over those pairs of distance divided by
/// `keysize`.
pub open spec fn is_avg_distance(
    avg: Fraction,
    input: Seq<u8>,
    keysize: nat,
    max_pairs: nat,
) -> bool {
    let pairs = pairs_compared(input.len(), keysize, max_pairs);
    &&& avg.num == pairs_distance(input, keysize, pairs)
    &&& avg.den == keysize * pairs
}

/// For an input that is one chunk of zero bytes followed by one chunk of
/// `0xFF` bytes, the average normalized distance for that chunk length is
/// exactly eight bits per byte.
pub proof fn lemma_opposite_chunks_normalized(
    input: Seq<u8>,
    keysize: nat,
    max_pairs: nat,
    avg: Fraction,
)
    requires
        keysize >= 1,
        max_pairs >= 1,
        input.len() == 2 * keysize,
        forall|i: int| 0 <= i < keysize ==> input[i] == 0x00,
        forall|i: int| keysize <= i < 2 * keysize ==> input[i] == 0xFF,
        is_avg_distance(avg, input, keysize, max_pairs),
    ensures
        avg.den == keysize,
        avg.num == 8 * avg.den,
{
    vstd::arithmetic::div_mod::lemma_div_by_self((2 * keysize) as int);
    assert(pairs_compared(input.len(), keysize, max_pairs) == 1);
    assert(keysize * 1 == keysize) by (nonlinear_arith);
    reveal_with_fuel(pairs_distance, 2);
    let start = 2 * (1 - 1) * keysize;
    assert(start == 0) by (nonlinear_arith)
        requires
            start == 2 * (1 - 1) * keysize,
    ;
    lemma_opposite_chunks_distance(
        input.subrange(0, keysize as int),
        input.subrange(keysize as int, 2 * keysize as int),
    );
}

/// A sequence is at distance zero from itself.
pub proof fn lemma_bit_distance_to_self(bytes: Seq<u8>)
    ensures
        bit_distance(bytes, bytes) == 0,
    decreases bytes.len(),
{
    if bytes.len() > 0 {
        lemma_bit_distance_to_self(bytes.drop_last());
        let last = bytes.last();
        assert(last ^ last == 0) by (bit_vector);
    }
}

/// Why the smallest distance points to the key length: an input that repeats
/// with period `keysize` has neighbouring chunks that are alike, and so the
/// distance zero for that key length. A ciphertext comes close to this where
/// its plaintext varies little, because the key repeats exactly.
pub proof fn lemma_periodic_input_has_zero_distance(input: Seq<u8>, keysize: nat, pairs: nat)
    requires
        keysize >= 1,
        2 * pairs * keysize <= input.len(),
        forall|i: int|
            0 <= i && i + keysize < input.len() ==> #[trigger] input[i + keysize] == input[i],
    ensures
        pairs_distance(input, keysize, pairs) == 0,
    decreases pairs,
{
    if pairs > 0 {
        assert(2 * (pairs - 1) * keysize + 2 * keysize == 2 * pairs * keysize)
            by (nonlinear_arith);
        assert(0 <= 2 * (pairs - 1) * keysize) by (nonlinear_arith)
            requires
                pairs >= 1,
        ;
        lemma_periodic_input_has_zero_distance(input, keysize, (pairs - 1) as nat);
        let start = 2 * (pairs - 1) * keysize;
        let left = input.subrange(start, start + keysize);
        let right = input.subrange(start + keysize, start + 2 * keysize);
        assert forall|i: int| 0 <= i < keysize implies left[i] == right[i] by {
            assert(input[(start + i) + keysize] == input[start + i]);
        }
        assert(left =~= right);
        lemma_bit_distance_to_self(left);
    }
}

/// As many whole pairs as are compared fit into the input.
proof fn lemma_pair_fits(len: nat, keysize: nat, pairs: nat, j: nat)
    requires
        keysize > 0,
        pairs <= len / (2 * keysize),
        j < pairs,
    ensures
        2 * j * keysize + 2 * keysize <= len,
        2 * (j + 1) * keysize == 2 * j * keysize + 2 * keysize,
        (j + 1) * keysize == j * keysize + keysize,
{
    let d = 2 * keysize;
    vstd::arithmetic::div_mod::lemma_fundamental_div_mod(len as int, d as int);
    vstd::arithmetic::div_mod::lemma_mod_pos_bound(len as int, d as int);
    let q = len as int / d as int;
    assert((j + 1) * d <= d * q) by (nonlinear_arith)
        requires
            j + 1 <= q,
            d > 0,
    ;
    assert((j + 1) * d == 2 * j * keysize + 2 * keysize) by (nonlinear_arith)
        requires
            d == 2 * keysize,
    ;
    assert(2 * (j + 1) * keysize == 2 * j * keysize + 2 * keysize) by (nonlinear_arith);
    assert((j + 1) * keysize == j * keysize + keysize) by (nonlinear_arith);
}

/// The average normalized Hamming distance of `input` for one key length,
/// over at most `max_pairs` chunk pairs; `None` when not even one pair fits.
pub fn keysize_distance(input: &[u8], keysize: usize, max_pairs: usize) -> (avg: Option<Fraction>)
    ensures
        avg is Some <==> keysize >= 1 && max_pairs >= 1 && 2 * keysize <= input@.len(),
        avg matches Some(f) ==> f.den > 0 && f.num <= 8 * f.den && is_avg_distance(
            f,
            input@,
            keysize as nat,
            max_pairs as nat,
        ),
{
    let len = input.len();
    if keysize == 0 || max_pairs == 0 || keysize > len / 2 {
        return None;
    }
    let available = len / (2 * keysize);
    let pairs = if available < max_pairs {
        available
    } else {
        max_pairs
    };
    proof {
        vstd::arithmetic::div_mod::lemma_div_non_zero(len as int, 2 * keysize);
    }
    let mut bits: u128 = 0;
    let mut bytes: usize = 0;
    let mut start: usize = 0;
    let mut j: usize = 0;
    while j < pairs
        invariant
            len == input@.len(),
            keysize > 0,
            pairs <= (len as int) / (2 * keysize),
            j <= pairs,
            start == 2 * j * keysize,
            bytes == j * keysize,
            2 * bytes == start,
            start <= len,
            bits == pairs_distance(input@, keysize as nat, j as nat),
            bits <= 4 * start,
        decreases pairs - j,
    {
        proof {
            lemma_pair_fits(len as nat, keysize as nat, pairs as nat, j as nat);
        }
        let left = slice_subrange(input, start, start + keysize);
        let right = slice_subrange(input, start + keysize, start + 2 * keysize);
        let pair_bits = hamming_distance(left, right);
        proof {
            lemma_bit_distance_bound(left@, right@);
        }
        bits = bits + pair_bits;
        bytes = bytes + keysize;
        start = start + 2 * keysize;
        j = j + 1;
    }
    proof {
        assert(bytes >= keysize && bytes == keysize * pairs) by (nonlinear_arith)
            requires
                bytes == pairs * keysize,
                pairs >= 1,
                keysize > 0,
        ;
        assert(pairs == pairs_compared(len as nat, keysize as nat, max_pairs as nat));
    }
    Some(Fraction { num: bits, den: bytes as u128 })
}

/// The key-length estimate with an explicit sampling bound: a table from each
/// key length in `1..=max_keysize` to its average normalized Hamming distance
/// over at most `max_pairs` chunk pairs. A length for which the input holds
/// no whole pair has no entry.
pub fn avg_normalized_hamming_distance_sampled(
    input: &Vec<u8>,
    max_keysize: usize,
    max_pairs: usize,
) -> (table: HashMap<usize, Fraction>)
    ensures
        forall|keysize: usize| #[trigger]
            table@.contains_key(keysize) <==> 1 <= keysize <= max_keysize && max_pairs >= 1 && 2
                * keysize <= input@.len(),
        forall|keysize: usize| #[trigger]
            table@.contains_key(keysize) ==> table@[keysize].den > 0 && table@[keysize].num <= 8
                * table@[keysize].den && is_avg_distance(
                table@[keysize],
                input@,
                keysize as nat,
                max_pairs as nat,
            ),
{
    let mut table: HashMap<usize, Fraction> = HashMap::new();
    let half = input.len() / 2;
    let limit = if max_keysize < half {
        max_keysize
    } else {
        half
    };
    let mut keysize: usize = 1;
    while keysize <= limit
        invariant
            limit <= max_keysize,
            limit <= input@.len() / 2,
            limit < usize::MAX,
            limit >= max_keysize || limit >= input@.len() / 2,
            1 <= keysize <= limit + 1,
            forall|k: usize| #[trigger]
                table@.contains_key(k) <==> 1 <= k < keysize && max_pairs >= 1 && 2 * k
                    <= input@.len(),
            forall|k: usize| #[trigger]
                table@.contains_key(k) ==> table@[k].den > 0 && table@[k].num <= 8 * table@[k].den
                    && is_avg_distance(
                    table@[k],
                    input@,
                    k as nat,
                    max_pairs as nat,
                ),
        decreases limit + 1 - keysize,
    {
        match keysize_distance(input.as_slice(), keysize, max_pairs) {
            Some(avg) => {
                table.insert(keysize, avg);
            },
            None => {},
        }
        keysize = keysize + 1;
    }
    table
}

/// The key-length estimate: a table from each key length in `1..=max_keysize`
/// to its average normalized Hamming distance over the first
/// [`SAMPLE_PAIRS`] chunk pairs. The smaller the distance, the likelier the
/// length. A length that needs more than the input holds has no entry, and
/// an empty input gives an empty table.
pub fn avg_normalized_hamming_distance(input: &Vec<u8>, max_keysize: usize) -> (table: HashMap<
    usize,
    Fraction,
>)
    ensures
        forall|keysize: usize| #[trigger]
            table@.contains_key(keysize) <==> 1 <= keysize <= max_keysize && 2 * keysize
                <= input@.len(),
        forall|keysize: usize|
            input@.len() < 2 * keysize ==> !(#[trigger] table@.contains_key(keysize)),
        forall|keysize: usize| #[trigger]
            table@.contains_key(keysize) ==> table@[keysize].den > 0 && table@[keysize].num <= 8
                * table@[keysize].den && is_avg_distance(
                table@[keysize],
                input@,
                keysize as nat,
                SAMPLE_PAIRS as nat,
            ),
{
    avg_normalized_hamming_distance_sampled(input, max_keysize, SAMPLE_PAIRS)
}

} // verus!
