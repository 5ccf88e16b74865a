//! Bit-level views of integers and of little-endian byte strings.

use vstd::prelude::*;

verus! {

/// Bit `j` of `x`; false outside `0..64`.
pub open spec fn bit_of(x: u64, j: int) -> bool {
    0 <= j < 64 && (x >> (j as u64)) & 1 == 1
}

/// Bit `i` of a little-endian byte string: bit `i % 8` of byte `i / 8`;
/// false outside the string.
pub open spec fn data_bit(data: Seq<u8>, i: int) -> bool {
    0 <= i < 8 * data.len() && (data[i / 8] >> ((i % 8) as u8)) & 1 == 1
}

/// The number whose bit `j` is `f(start + j)` for `j < n` and zero above.
pub open spec fn assemble_bits(f: spec_fn(int) -> bool, start: int, n: nat) -> u64
    decreases n,
{
    if n == 0 {
        0
    } else {
        (assemble_bits(f, start + 1, (n - 1) as nat) << 1u64) | (if f(start) {
            1u64
        } else {
            0u64
        })
    }
}

/// Facts about single bits of 64-bit numbers, for the bit-vector solver.
proof fn lemma_u64_bit_facts(x: u64, y: u64, b: u64, j: u64, m: u64)
    by (bit_vector)
    ensures
        (x >> j) & 1 == 0 || (x >> j) & 1 == 1,
        (0u64 >> j) & 1 == 0,
        0u64 >> j == 0,
        b <= 1 ==> (((x << 1u64) | b) >> 0u64) & 1 == b,
        b <= 1 && j < 63 ==> (((x << 1u64) | b) >> (j + 1)) & 1 == (x >> j) & 1,
        b <= 1 && m < 63 && x >> m == 0 ==> ((x << 1u64) | b) >> (m + 1) == 0,
        x >> m == 0 && m <= j && j < 64 ==> (x >> j) & 1 == 0,
        m < 63 && x >> (m + 1) == 0 && (x >> m) & 1 == 0 ==> x >> m == 0,
        (x >> 63u64) & 1 == 0 ==> x >> 63u64 == 0,
        j < 64 && (x >> j) & 1 == (y >> j) & 1 ==> ((x ^ y) >> j) & 1 == 0,
        (x ^ y) >> 0u64 == 0 ==> x == y,
        x >> 8u64 == 0 && j < 8 ==> ((((x as u8) >> (j as u8)) & 1 == 1) == ((x >> j) & 1 == 1)),
{
}

/// Facts about single bits of bytes, for the bit-vector solver.
proof fn lemma_u8_bit_facts(a: u8, c: u8, k: u8)
    by (bit_vector)
    ensures
        (a >> k) & 1 == 0 || (a >> k) & 1 == 1,
        (0u8 >> k) & 1 == 0,
        ((a >> 0u8) & 1 == (c >> 0u8) & 1 && (a >> 1u8) & 1 == (c >> 1u8) & 1 && (a >> 2u8) & 1
            == (c >> 2u8) & 1 && (a >> 3u8) & 1 == (c >> 3u8) & 1 && (a >> 4u8) & 1 == (c >> 4u8)
            & 1 && (a >> 5u8) & 1 == (c >> 5u8) & 1 && (a >> 6u8) & 1 == (c >> 6u8) & 1 && (a
            >> 7u8) & 1 == (c >> 7u8) & 1) ==> a == c,
{
}

/// Every bit of zero is clear.
pub proof fn lemma_zero_bits(j: u64)
    ensures
        (0u64 >> j) & 1 == 0,
{
    lemma_u64_bit_facts(0, 0, 0, j, 0);
}

/// A bit of a 64-bit number is 0 or 1.
pub proof fn lemma_bit_01(x: u64, j: u64)
    ensures
        (x >> j) & 1 == 0 || (x >> j) & 1 == 1,
{
    lemma_u64_bit_facts(x, 0, 0, j, 0);
}

/// The bits of a number at and above `n` are clear once it is shifted to zero.
pub proof fn lemma_high_zero_bit(y: u64, n: u64, j: u64)
    requires
        y >> n == 0,
        n <= j < 64,
    ensures
        (y >> j) & 1 == 0,
{
    lemma_u64_bit_facts(y, 0, 0, j, n);
}

/// A bit of the low byte of a number below 256.
pub proof fn lemma_low_byte_bit(x: u64, k: u64)
    requires
        x >> 8u64 == 0,
        k < 8,
    ensures
        (((x as u8) >> (k as u8)) & 1 == 1) == ((x >> k) & 1 == 1),
{
    lemma_u64_bit_facts(x, 0, 0, k, 0);
}

proof fn lemma_shift_in_bits(x: u64, b: u64, j: u64)
    requires
        b <= 1,
    ensures
        (((x << 1u64) | b) >> 0u64) & 1 == b,
        j < 63 ==> (((x << 1u64) | b) >> (j + 1)) & 1 == (x >> j) & 1,
{
    lemma_u64_bit_facts(x, 0, b, j, 0);
}

proof fn lemma_shift_in_high(x: u64, b: u64, m: u64)
    requires
        b <= 1,
        m < 63,
        x >> m == 0,
    ensures
        ((x << 1u64) | b) >> (m + 1) == 0,
{
    lemma_u64_bit_facts(x, 0, b, 0, m);
}

/// The bits of `assemble_bits(f, start, n)` are `f(start)`, ..., `f(start + n - 1)`.
pub proof fn lemma_assemble_bits(f: spec_fn(int) -> bool, start: int, n: nat)
    requires
        n <= 64,
    ensures
        forall|j: int| #[trigger]
            bit_of(assemble_bits(f, start, n), j) == (0 <= j < n && f(start + j)),
        n < 64 ==> assemble_bits(f, start, n) >> (n as u64) == 0,
    decreases n,
{
    let y = assemble_bits(f, start, n);
    if n == 0 {
        assert forall|j: int| #[trigger] bit_of(y, j) == (0 <= j < n && f(start + j)) by {
            if 0 <= j < 64 {
                lemma_zero_bits(j as u64);
            }
        }
        lemma_u64_bit_facts(0, 0, 0, 0, 0);
    } else {
        let x = assemble_bits(f, start + 1, (n - 1) as nat);
        let b: u64 = if f(start) {
            1u64
        } else {
            0u64
        };
        lemma_assemble_bits(f, start + 1, (n - 1) as nat);
        assert(y == (x << 1u64) | b);
        assert forall|j: int| #[trigger] bit_of(y, j) == (0 <= j < n && f(start + j)) by {
            if 0 <= j < 64 {
                if j == 0 {
                    lemma_shift_in_bits(x, b, 0);
                } else {
                    lemma_shift_in_bits(x, b, (j - 1) as u64);
                    lemma_bit_01(x, (j - 1) as u64);
                    assert(bit_of(x, j - 1) == (0 <= j - 1 < n - 1 && f(start + 1 + (j - 1))));
                    if j >= n {
                        if n - 1 < 64 {
                            lemma_high_zero_bit(x, (n - 1) as u64, (j - 1) as u64);
                        }
                    }
                }
            }
        }
        if n < 64 {
            lemma_shift_in_high(x, b, (n - 1) as u64);
        }
    }
}

proof fn lemma_bits_step_down(z: u64, n: u64)
    requires
        n < 63,
        z >> (n + 1) == 0,
        (z >> n) & 1 == 0,
    ensures
        z >> n == 0,
{
    lemma_u64_bit_facts(z, 0, 0, 0, n);
}

proof fn lemma_top_bit(z: u64)
    requires
        (z >> 63u64) & 1 == 0,
    ensures
        z >> 63u64 == 0,
{
    lemma_u64_bit_facts(z, 0, 0, 0, 0);
}

proof fn lemma_zero_from_bits(z: u64, n: nat)
    requires
        n <= 63,
        forall|j: int| n <= j < 64 ==> !#[trigger] bit_of(z, j),
    ensures
        z >> (n as u64) == 0,
    decreases 63 - n,
{
    if n == 63 {
        assert(!bit_of(z, 63));
        lemma_bit_01(z, 63);
        lemma_top_bit(z);
    } else {
        lemma_zero_from_bits(z, n + 1);
        assert(!bit_of(z, n as int));
        lemma_bit_01(z, n as u64);
        lemma_bits_step_down(z, n as u64);
    }
}

proof fn lemma_xor_bits(x: u64, y: u64, j: u64)
    requires
        j < 64,
        (x >> j) & 1 == (y >> j) & 1,
    ensures
        ((x ^ y) >> j) & 1 == 0,
{
    lemma_u64_bit_facts(x, y, 0, j, 0);
}

proof fn lemma_xor_zero(x: u64, y: u64)
    requires
        (x ^ y) >> 0u64 == 0,
    ensures
        x == y,
{
    lemma_u64_bit_facts(x, y, 0, 0, 0);
}

/// Two 64-bit numbers with the same bits are equal.
pub proof fn lemma_bits_ext(x: u64, y: u64)
    requires
        forall|j: int| 0 <= j < 64 ==> #[trigger] bit_of(x, j) == bit_of(y, j),
    ensures
        x == y,
{
    assert forall|j: int| 0 <= j < 64 implies !#[trigger] bit_of(x ^ y, j) by {
        assert(bit_of(x, j) == bit_of(y, j));
        lemma_bit_01(x, j as u64);
        lemma_bit_01(y, j as u64);
        lemma_xor_bits(x, y, j as u64);
    }
    lemma_zero_from_bits(x ^ y, 0);
    lemma_xor_zero(x, y);
}

proof fn lemma_byte_ext_bv(a: u8, b: u8)
    requires
        (a >> 0u8) & 1 == (b >> 0u8) & 1,
        (a >> 1u8) & 1 == (b >> 1u8) & 1,
        (a >> 2u8) & 1 == (b >> 2u8) & 1,
        (a >> 3u8) & 1 == (b >> 3u8) & 1,
        (a >> 4u8) & 1 == (b >> 4u8) & 1,
        (a >> 5u8) & 1 == (b >> 5u8) & 1,
        (a >> 6u8) & 1 == (b >> 6u8) & 1,
        (a >> 7u8) & 1 == (b >> 7u8) & 1,
    ensures
        a == b,
{
    lemma_u8_bit_facts(a, b, 0);
}

/// Every bit of the zero byte is clear.
pub proof fn lemma_zero_byte_bits(k: u8)
    ensures
        (0u8 >> k) & 1 == 0,
{
    lemma_u8_bit_facts(0, 0, k);
}

/// A bit of a byte is 0 or 1.
pub proof fn lemma_byte_bit_01(a: u8, k: u8)
    ensures
        (a >> k) & 1 == 0 || (a >> k) & 1 == 1,
{
    lemma_u8_bit_facts(a, 0, k);
}

proof fn lemma_byte_bit_from_data(a: Seq<u8>, b: Seq<u8>, j: int, k: u8)
    requires
        a.len() == b.len(),
        0 <= j < a.len(),
        k < 8,
        data_bit(a, 8 * j + k) == data_bit(b, 8 * j + k),
    ensures
        (a[j] >> k) & 1 == (b[j] >> k) & 1,
{
    let i = 8 * j + k;
    assert(i / 8 == j && i % 8 == k) by (nonlinear_arith)
        requires
            i == 8 * j + k,
            0 <= k < 8,
    ;
    lemma_byte_bit_01(a[j], k);
    lemma_byte_bit_01(b[j], k);
}

/// Two byte strings of one length with the same bits are equal.
pub proof fn lemma_data_ext(a: Seq<u8>, b: Seq<u8>)
    requires
        a.len() == b.len(),
        forall|i: int| 0 <= i < 8 * a.len() ==> #[trigger] data_bit(a, i) == data_bit(b, i),
    ensures
        a == b,
{
    assert forall|j: int| 0 <= j < a.len() implies a[j] == b[j] by {
        assert(0 <= 8 * j + 7 < 8 * a.len());
        assert(data_bit(a, 8 * j + 0) == data_bit(b, 8 * j + 0));
        assert(data_bit(a, 8 * j + 1) == data_bit(b, 8 * j + 1));
        assert(data_bit(a, 8 * j + 2) == data_bit(b, 8 * j + 2));
        assert(data_bit(a, 8 * j + 3) == data_bit(b, 8 * j + 3));
        assert(data_bit(a, 8 * j + 4) == data_bit(b, 8 * j + 4));
        assert(data_bit(a, 8 * j + 5) == data_bit(b, 8 * j + 5));
        assert(data_bit(a, 8 * j + 6) == data_bit(b, 8 * j + 6));
        assert(data_bit(a, 8 * j + 7) == data_bit(b, 8 * j + 7));
        lemma_byte_bit_from_data(a, b, j, 0);
        lemma_byte_bit_from_data(a, b, j, 1);
        lemma_byte_bit_from_data(a, b, j, 2);
        lemma_byte_bit_from_data(a, b, j, 3);
        lemma_byte_bit_from_data(a, b, j, 4);
        lemma_byte_bit_from_data(a, b, j, 5);
        lemma_byte_bit_from_data(a, b, j, 6);
        lemma_byte_bit_from_data(a, b, j, 7);
        lemma_byte_ext_bv(a[j], b[j]);
    }
    assert(a =~= b);
}

} // verus!
