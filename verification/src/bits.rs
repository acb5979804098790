//! Bit-level facts about 32-bit words, shared by the simplifier and the minterm bridge.
//!
//! Every fact here is proved by Verus's bit-vector solver; the rest of the crate reasons about single bits through
//! [`bit`] and these lemmas.

use vstd::prelude::*;

verus! {

/// Bit `i` of the word `x` (bit 0 is the least significant).
pub open spec fn bit(x: u32, i: u32) -> bool {
    (x >> i) & 1u32 == 1u32
}

/// `x` has exactly one bit set.
pub open spec fn single_bit(x: u32) -> bool {
    exists|j: u32| j < 32 && x == (1u32 << j)
}

pub proof fn lemma_bit_or(x: u32, y: u32, i: u32)
    requires
        i < 32,
    ensures
        bit(x | y, i) == (bit(x, i) || bit(y, i)),
{
    assert(((x | y) >> i) & 1u32 == 1u32 <==> ((x >> i) & 1u32 == 1u32 || (y >> i) & 1u32 == 1u32))
        by (bit_vector)
        requires
            i < 32,
    ;
}

pub proof fn lemma_bit_and_not(x: u32, y: u32, i: u32)
    requires
        i < 32,
    ensures
        bit(x & !y, i) == (bit(x, i) && !bit(y, i)),
        bit(x & y, i) == (bit(x, i) && bit(y, i)),
{
    assert(((x & !y) >> i) & 1u32 == 1u32 <==> ((x >> i) & 1u32 == 1u32 && !((y >> i) & 1u32
        == 1u32))) by (bit_vector)
        requires
            i < 32,
    ;
    assert(((x & y) >> i) & 1u32 == 1u32 <==> ((x >> i) & 1u32 == 1u32 && (y >> i) & 1u32 == 1u32))
        by (bit_vector)
        requires
            i < 32,
    ;
}

/// The bit `1 << j` has exactly bit `j` set, and testing `x & (1 << j)` reads bit `j` of `x`.
pub proof fn lemma_bit_shl(x: u32, i: u32, j: u32)
    requires
        i < 32,
        j < 32,
    ensures
        bit(1u32 << j, i) == (i == j),
        (x & (1u32 << j) != 0) == bit(x, j),
{
    assert(((1u32 << j) >> i) & 1u32 == 1u32 <==> i == j) by (bit_vector)
        requires
            i < 32,
            j < 32,
    ;
    assert((x & (1u32 << j) != 0) <==> (x >> j) & 1u32 == 1u32) by (bit_vector)
        requires
            j < 32,
    ;
}

pub proof fn lemma_bit_zero(i: u32)
    requires
        i < 32,
    ensures
        !bit(0, i),
{
    assert(!((0u32 >> i) & 1u32 == 1u32)) by (bit_vector);
}

/// Bits at positions `>= n` of a word below `2^n` are clear, and a word whose bits at positions `>= n` are clear is below
/// `2^n`.
pub proof fn lemma_bit_below(x: u32, n: u32, i: u32)
    requires
        n < 32,
        i < 32,
        n <= i,
        x < (1u32 << n),
    ensures
        !bit(x, i),
{
    assert(!((x >> i) & 1u32 == 1u32)) by (bit_vector)
        requires
            n < 32,
            i < 32,
            n <= i,
            x < (1u32 << n),
    ;
}

/// Two words are equal when every bit is.
pub proof fn lemma_bits_ext(x: u32, y: u32)
    requires
        forall|i: u32| i < 32 ==> bit(x, i) == bit(y, i),
    ensures
        x == y,
{
    let b0 = bit(x, 0) == bit(y, 0);
    let b1 = bit(x, 1) == bit(y, 1);
    let b2 = bit(x, 2) == bit(y, 2);
    let b3 = bit(x, 3) == bit(y, 3);
    let b4 = bit(x, 4) == bit(y, 4);
    let b5 = bit(x, 5) == bit(y, 5);
    let b6 = bit(x, 6) == bit(y, 6);
    let b7 = bit(x, 7) == bit(y, 7);
    let b8 = bit(x, 8) == bit(y, 8);
    let b9 = bit(x, 9) == bit(y, 9);
    let b10 = bit(x, 10) == bit(y, 10);
    let b11 = bit(x, 11) == bit(y, 11);
    let b12 = bit(x, 12) == bit(y, 12);
    let b13 = bit(x, 13) == bit(y, 13);
    let b14 = bit(x, 14) == bit(y, 14);
    let b15 = bit(x, 15) == bit(y, 15);
    let b16 = bit(x, 16) == bit(y, 16);
    let b17 = bit(x, 17) == bit(y, 17);
    let b18 = bit(x, 18) == bit(y, 18);
    let b19 = bit(x, 19) == bit(y, 19);
    let b20 = bit(x, 20) == bit(y, 20);
    let b21 = bit(x, 21) == bit(y, 21);
    let b22 = bit(x, 22) == bit(y, 22);
    let b23 = bit(x, 23) == bit(y, 23);
    let b24 = bit(x, 24) == bit(y, 24);
    let b25 = bit(x, 25) == bit(y, 25);
    let b26 = bit(x, 26) == bit(y, 26);
    let b27 = bit(x, 27) == bit(y, 27);
    let b28 = bit(x, 28) == bit(y, 28);
    let b29 = bit(x, 29) == bit(y, 29);
    let b30 = bit(x, 30) == bit(y, 30);
    let b31 = bit(x, 31) == bit(y, 31);
    assert(b0 && b1 && b2 && b3 && b4 && b5 && b6 && b7 && b8 && b9 && b10 && b11 && b12 && b13
        && b14 && b15 && b16 && b17 && b18 && b19 && b20 && b21 && b22 && b23 && b24 && b25 && b26
        && b27 && b28 && b29 && b30 && b31);
    assert(x == y) by (bit_vector)
        requires
            ((x >> 0u32) & 1u32 == 1u32) == ((y >> 0u32) & 1u32 == 1u32),
            ((x >> 1u32) & 1u32 == 1u32) == ((y >> 1u32) & 1u32 == 1u32),
            ((x >> 2u32) & 1u32 == 1u32) == ((y >> 2u32) & 1u32 == 1u32),
            ((x >> 3u32) & 1u32 == 1u32) == ((y >> 3u32) & 1u32 == 1u32),
            ((x >> 4u32) & 1u32 == 1u32) == ((y >> 4u32) & 1u32 == 1u32),
            ((x >> 5u32) & 1u32 == 1u32) == ((y >> 5u32) & 1u32 == 1u32),
            ((x >> 6u32) & 1u32 == 1u32) == ((y >> 6u32) & 1u32 == 1u32),
            ((x >> 7u32) & 1u32 == 1u32) == ((y >> 7u32) & 1u32 == 1u32),
            ((x >> 8u32) & 1u32 == 1u32) == ((y >> 8u32) & 1u32 == 1u32),
            ((x >> 9u32) & 1u32 == 1u32) == ((y >> 9u32) & 1u32 == 1u32),
            ((x >> 10u32) & 1u32 == 1u32) == ((y >> 10u32) & 1u32 == 1u32),
            ((x >> 11u32) & 1u32 == 1u32) == ((y >> 11u32) & 1u32 == 1u32),
            ((x >> 12u32) & 1u32 == 1u32) == ((y >> 12u32) & 1u32 == 1u32),
            ((x >> 13u32) & 1u32 == 1u32) == ((y >> 13u32) & 1u32 == 1u32),
            ((x >> 14u32) & 1u32 == 1u32) == ((y >> 14u32) & 1u32 == 1u32),
            ((x >> 15u32) & 1u32 == 1u32) == ((y >> 15u32) & 1u32 == 1u32),
            ((x >> 16u32) & 1u32 == 1u32) == ((y >> 16u32) & 1u32 == 1u32),
            ((x >> 17u32) & 1u32 == 1u32) == ((y >> 17u32) & 1u32 == 1u32),
            ((x >> 18u32) & 1u32 == 1u32) == ((y >> 18u32) & 1u32 == 1u32),
            ((x >> 19u32) & 1u32 == 1u32) == ((y >> 19u32) & 1u32 == 1u32),
            ((x >> 20u32) & 1u32 == 1u32) == ((y >> 20u32) & 1u32 == 1u32),
            ((x >> 21u32) & 1u32 == 1u32) == ((y >> 21u32) & 1u32 == 1u32),
            ((x >> 22u32) & 1u32 == 1u32) == ((y >> 22u32) & 1u32 == 1u32),
            ((x >> 23u32) & 1u32 == 1u32) == ((y >> 23u32) & 1u32 == 1u32),
            ((x >> 24u32) & 1u32 == 1u32) == ((y >> 24u32) & 1u32 == 1u32),
            ((x >> 25u32) & 1u32 == 1u32) == ((y >> 25u32) & 1u32 == 1u32),
            ((x >> 26u32) & 1u32 == 1u32) == ((y >> 26u32) & 1u32 == 1u32),
            ((x >> 27u32) & 1u32 == 1u32) == ((y >> 27u32) & 1u32 == 1u32),
            ((x >> 28u32) & 1u32 == 1u32) == ((y >> 28u32) & 1u32 == 1u32),
            ((x >> 29u32) & 1u32 == 1u32) == ((y >> 29u32) & 1u32 == 1u32),
            ((x >> 30u32) & 1u32 == 1u32) == ((y >> 30u32) & 1u32 == 1u32),
            ((x >> 31u32) & 1u32 == 1u32) == ((y >> 31u32) & 1u32 == 1u32),
    ;
}

/// The mask of the low `n` bits has exactly the bits below `n` set, and masking with it keeps a word below `2^n`.
pub proof fn lemma_low_mask(x: u32, n: u32, i: u32)
    requires
        n < 32,
        i < 32,
    ensures
        bit(((1u32 << n) - 1) as u32, i) == (i < n),
        (x & (((1u32 << n) - 1) as u32)) < (1u32 << n),
        (1u32 << n) as usize == (1usize << n),
{
    assert(((((1u32 << n) - 1) as u32 >> i) & 1u32 == 1u32) == (i < n)) by (bit_vector)
        requires
            n < 32,
            i < 32,
    ;
    assert((x & (((1u32 << n) - 1) as u32)) < (1u32 << n)) by (bit_vector)
        requires
            n < 32,
    ;
    assert((1u32 << n) as usize == (1usize << n)) by (bit_vector)
        requires
            n < 32,
    ;
}

/// A word whose bits at positions `n` and above are all clear is below `2^n`.
pub proof fn lemma_below_from_bits(x: u32, n: u32)
    requires
        n < 32,
        forall|i: u32| n <= i < 32 ==> !bit(x, i),
    ensures
        x < (1u32 << n),
{
    let y = x & (((1u32 << n) - 1) as u32);
    assert forall|i: u32| i < 32 implies bit(x, i) == bit(y, i) by {
        lemma_low_mask(x, n, i);
        lemma_bit_and_not(x, ((1u32 << n) - 1) as u32, i);
    }
    lemma_bits_ext(x, y);
    lemma_low_mask(x, n, 0);
}

/// Bit `q` of a `usize` word.
pub open spec fn ubit(c: usize, q: usize) -> bool {
    c & (1usize << q) != 0
}

/// Setting bit `j` of a `usize` word below `2^j` keeps it below `2^(j+1)` and sets exactly bit `j`.
pub proof fn lemma_ubit_set(c: usize, j: usize, q: usize)
    requires
        j < 31,
        q < 32,
    ensures
        ubit(c | (1usize << j), q) == (ubit(c, q) || q == j),
        c < (1usize << j) ==> (c | (1usize << j)) < (1usize << ((j + 1) as usize)),
        c < (1usize << j) ==> c < (1usize << ((j + 1) as usize)),
        c < (1usize << j) ==> !ubit(c, j),
        !ubit(0usize, q),
{
    assert(((c | (1usize << j)) & (1usize << q) != 0) == ((c & (1usize << q) != 0) || q == j))
        by (bit_vector)
        requires
            j < 31,
            q < 32,
    ;
    assert(c < (1usize << j) ==> (c | (1usize << j)) < (1usize << ((j + 1) as usize)))
        by (bit_vector)
        requires
            j < 31,
    ;
    assert(c < (1usize << j) ==> c < (1usize << ((j + 1) as usize))) by (bit_vector)
        requires
            j < 31,
    ;
    assert(c < (1usize << j) ==> !(c & (1usize << j) != 0)) by (bit_vector)
        requires
            j < 31,
    ;
    assert(!(0usize & (1usize << q) != 0)) by (bit_vector);
}

/// `x != 0 && (x - 1) & x == 0` is exactly the test for a single set bit.
pub proof fn lemma_single_bit(x: u32)
    ensures
        (x != 0 && ((x - 1) as u32 & x) == 0) == single_bit(x),
{
    if x != 0 && ((x - 1) as u32 & x) == 0 {
        assert(x == 0x1 || x == 0x2 || x == 0x4 || x == 0x8 || x == 0x10 || x == 0x20 || x == 0x40
            || x == 0x80 || x == 0x100 || x == 0x200 || x == 0x400 || x == 0x800 || x == 0x1000 || x
            == 0x2000 || x == 0x4000 || x == 0x8000 || x == 0x1_0000 || x == 0x2_0000 || x
            == 0x4_0000 || x == 0x8_0000 || x == 0x10_0000 || x == 0x20_0000 || x == 0x40_0000 || x
            == 0x80_0000 || x == 0x100_0000 || x == 0x200_0000 || x == 0x400_0000 || x
            == 0x800_0000 || x == 0x1000_0000 || x == 0x2000_0000 || x == 0x4000_0000 || x
            == 0x8000_0000) by (bit_vector)
            requires
                x != 0 && ((x - 1) as u32 & x) == 0,
        ;
        assert(1u32 << 0u32 == 0x1 && 1u32 << 1u32 == 0x2 && 1u32 << 2u32 == 0x4 && 1u32 << 3u32
            == 0x8 && 1u32 << 4u32 == 0x10 && 1u32 << 5u32 == 0x20 && 1u32 << 6u32 == 0x40 && 1u32
            << 7u32 == 0x80 && 1u32 << 8u32 == 0x100 && 1u32 << 9u32 == 0x200 && 1u32 << 10u32
            == 0x400 && 1u32 << 11u32 == 0x800 && 1u32 << 12u32 == 0x1000 && 1u32 << 13u32 == 0x2000
            && 1u32 << 14u32 == 0x4000 && 1u32 << 15u32 == 0x8000 && 1u32 << 16u32 == 0x1_0000
            && 1u32 << 17u32 == 0x2_0000 && 1u32 << 18u32 == 0x4_0000 && 1u32 << 19u32 == 0x8_0000
            && 1u32 << 20u32 == 0x10_0000 && 1u32 << 21u32 == 0x20_0000 && 1u32 << 22u32
            == 0x40_0000 && 1u32 << 23u32 == 0x80_0000 && 1u32 << 24u32 == 0x100_0000 && 1u32
            << 25u32 == 0x200_0000 && 1u32 << 26u32 == 0x400_0000 && 1u32 << 27u32 == 0x800_0000
            && 1u32 << 28u32 == 0x1000_0000 && 1u32 << 29u32 == 0x2000_0000 && 1u32 << 30u32
            == 0x4000_0000 && 1u32 << 31u32 == 0x8000_0000) by (bit_vector);
    }
    if single_bit(x) {
        let j = choose|j: u32| j < 32 && x == (1u32 << j);
        assert((1u32 << j) != 0 && (((1u32 << j) - 1) as u32 & (1u32 << j)) == 0) by (bit_vector)
            requires
                j < 32,
        ;
    }
}

/// Merging two implicants that share a don't-care mask and differ in exactly one fixed bit covers exactly the terms that
/// either of them covers, yields a normalized implicant, and strictly grows the don't-care mask.
pub proof fn lemma_combine_words(v0: u32, v1: u32, d: u32, t: u32)
    requires
        v0 & d == 0,
        v1 & d == 0,
        (v0 ^ v1) != 0,
        (((v0 ^ v1) - 1) as u32 & (v0 ^ v1)) == 0,
    ensures
        ((t & !(d | (v0 ^ v1))) == (v0 & !(d | (v0 ^ v1)))) == ((t & !d) == v0 || (t & !d) == v1),
        (v0 & !(d | (v0 ^ v1))) & (d | (v0 ^ v1)) == 0,
        (d | (v0 ^ v1)) > d,
{
    assert(((t & !(d | (v0 ^ v1))) == (v0 & !(d | (v0 ^ v1)))) == ((t & !d) == v0 || (t & !d) == v1))
        by (bit_vector)
        requires
            v0 & d == 0,
            v1 & d == 0,
            (v0 ^ v1) != 0,
            (((v0 ^ v1) - 1) as u32 & (v0 ^ v1)) == 0,
    ;
    assert((v0 & !(d | (v0 ^ v1))) & (d | (v0 ^ v1)) == 0) by (bit_vector);
    assert((d | (v0 ^ v1)) > d) by (bit_vector)
        requires
            v0 & d == 0,
            v1 & d == 0,
            (v0 ^ v1) != 0,
    ;
}

/// The subsumption test on words: `(d0 | d1) == d0 && v0 == v1 & !d0` holds exactly when every term covered by the
/// normalized implicant `(v1, d1)` is covered by `(v0, d0)`; `t` is one such term and `v1 | d1` and `v1` witness the
/// converse.
pub proof fn lemma_subsumes(v0: u32, d0: u32, v1: u32, d1: u32, t: u32)
    requires
        v1 & d1 == 0,
    ensures
        ((d0 | d1) == d0 && v0 == (v1 & !d0)) ==> ((t & !d1) == v1 ==> (t & !d0) == v0),
        (v1 & !d1) == v1,
        ((v1 | d1) & !d1) == v1,
        ((v0 == ((v1 | d1) & !d0)) && (v0 == (v1 & !d0))) ==> ((d0 | d1) == d0 && v0 == (v1
            & !d0)),
{
    assert(((d0 | d1) == d0 && v0 == (v1 & !d0)) ==> ((t & !d1) == v1 ==> (t & !d0) == v0))
        by (bit_vector);
    assert((v1 & !d1) == v1) by (bit_vector)
        requires
            v1 & d1 == 0,
    ;
    assert(((v1 | d1) & !d1) == v1) by (bit_vector)
        requires
            v1 & d1 == 0,
    ;
    assert(((v0 == ((v1 | d1) & !d0)) && (v0 == (v1 & !d0))) ==> ((d0 | d1) == d0 && v0 == (v1
        & !d0))) by (bit_vector)
        requires
            v1 & d1 == 0,
    ;
}

/// The number of set bits of `d` below position `n`.
pub open spec fn ones(d: u32, n: nat) -> nat
    decreases n,
{
    if n == 0 {
        0
    } else {
        ones(d, (n - 1) as nat) + (if bit(d, (n - 1) as u32) {
            1nat
        } else {
            0nat
        })
    }
}

/// Setting a clear bit adds one to the count.
pub proof fn lemma_ones_set(d: u32, b: u32, n: nat)
    requires
        b < 32,
        n <= 32,
        !bit(d, b),
    ensures
        ones(d | (1u32 << b), n) == ones(d, n) + (if b < n {
            1nat
        } else {
            0nat
        }),
    decreases n,
{
    if n > 0 {
        lemma_ones_set(d, b, (n - 1) as nat);
        let i = (n - 1) as u32;
        lemma_bit_or(d, 1u32 << b, i);
        lemma_bit_shl(0, i, b);
    }
}

/// A word with no set bit below 32 is zero.
pub proof fn lemma_ones_zero(d: u32, n: nat)
    requires
        n <= 32,
        ones(d, n) == 0,
    ensures
        forall|i: u32| i < n ==> !bit(d, i),
    decreases n,
{
    if n > 0 {
        lemma_ones_zero(d, (n - 1) as nat);
    }
}

/// The count of set bits never exceeds the number of positions.
pub proof fn lemma_ones_bound(d: u32, n: nat)
    ensures
        ones(d, n) <= n,
    decreases n,
{
    if n > 0 {
        lemma_ones_bound(d, (n - 1) as nat);
    }
}

/// Splitting the don't-care bit `b` off the normalized pair `(v, d)`: the two halves `(v, d')` and `(v | 1 << b, d')`
/// with `d' = d & !(1 << b)` are normalized, differ exactly in bit `b`, and merge back into `(v, d)`.
pub proof fn lemma_split_bit(v: u32, d: u32, b: u32)
    requires
        b < 32,
        bit(d, b),
        v & d == 0,
    ensures
        ((d & !(1u32 << b)) | (1u32 << b)) == d,
        !bit(d & !(1u32 << b), b),
        v & (d & !(1u32 << b)) == 0,
        (v | (1u32 << b)) & (d & !(1u32 << b)) == 0,
        (v ^ (v | (1u32 << b))) == (1u32 << b),
        ((v | (1u32 << b)) ^ v) == (1u32 << b),
        (v & !d) == v,
        ((v | (1u32 << b)) & !d) == v,
{
    assert(((d & !(1u32 << b)) | (1u32 << b)) == d && !(((d & !(1u32 << b)) >> b) & 1u32 == 1u32) && v & (d
        & !(1u32 << b)) == 0 && (v | (1u32 << b)) & (d & !(1u32 << b)) == 0 && (v ^ (v | (1u32 << b))) == (1u32
        << b) && ((v | (1u32 << b)) ^ v) == (1u32 << b) && (v & !d) == v && ((v | (1u32 << b)) & !d) == v)
        by (bit_vector)
        requires
            b < 32,
            (d >> b) & 1u32 == 1u32,
            v & d == 0,
    ;
}

/// A term covered by one half of a split is covered by the whole.
pub proof fn lemma_split_covers(v: u32, d: u32, b: u32, t: u32)
    requires
        b < 32,
        bit(d, b),
        v & d == 0,
    ensures
        (t & !(d & !(1u32 << b))) == v ==> (t & !d) == v,
        (t & !(d & !(1u32 << b))) == (v | (1u32 << b)) ==> (t & !d) == v,
{
    assert(((t & !(d & !(1u32 << b))) == v ==> (t & !d) == v) && ((t & !(d & !(1u32 << b))) == (v | (1u32
        << b)) ==> (t & !d) == v)) by (bit_vector)
        requires
            b < 32,
            (d >> b) & 1u32 == 1u32,
            v & d == 0,
    ;
}

/// For the normalized pair `(xv, xd)` inside `(yv, yd)`, and a bit `b` that `yd` has and `xd` lacks, the neighbour
/// `(xv ^ 1 << b, xd)` is normalized, differs from `(xv, xd)` exactly in bit `b`, and lies inside `(yv, yd)` too.
pub proof fn lemma_neighbor(xv: u32, xd: u32, yv: u32, yd: u32, b: u32, t: u32)
    requires
        b < 32,
        xv & xd == 0,
        !bit(xd, b),
        bit(yd, b),
        (yd | xd) == yd,
        yv == xv & !yd,
    ensures
        ((xv ^ (1u32 << b)) & xd) == 0,
        (xv ^ (xv ^ (1u32 << b))) == (1u32 << b),
        (t & !xd) == (xv ^ (1u32 << b)) ==> (t & !yd) == yv,
{
    assert(((xv ^ (1u32 << b)) & xd) == 0 && (xv ^ (xv ^ (1u32 << b))) == (1u32 << b) && ((t & !xd) == (xv ^ (1u32
        << b)) ==> (t & !yd) == yv)) by (bit_vector)
        requires
            b < 32,
            xv & xd == 0,
            !((xd >> b) & 1u32 == 1u32),
            (yd >> b) & 1u32 == 1u32,
            (yd | xd) == yd,
            yv == xv & !yd,
    ;
}

/// A mask that contains `xd` but differs from it has a bit that `xd` lacks.
pub proof fn lemma_extra_bit(xd: u32, yd: u32)
    requires
        (yd | xd) == yd,
        yd != xd,
    ensures
        exists|b: u32| b < 32 && bit(yd, b) && !bit(xd, b),
{
    if !(exists|b: u32| b < 32 && bit(yd, b) && !bit(xd, b)) {
        assert forall|i: u32| i < 32 implies bit(yd, i) == bit(xd, i) by {
            lemma_bit_or(yd, xd, i);
        }
        lemma_bits_ext(yd, xd);
    }
}

} // verus!
