//! Registers of `w` bits packed back to back into a little-endian byte string.

use vstd::prelude::*;
use crate::bits::{assemble_bits, bit_of, data_bit, lemma_assemble_bits, lemma_bits_ext, lemma_data_ext};

verus! {

/// The `w`-bit register that starts at bit `off` of `data` (bits beyond the
/// end of `data` read as zero).
pub open spec fn read_bits(data: Seq<u8>, off: int, w: nat) -> u64 {
    assemble_bits(|i: int| data_bit(data, i), off, w)
}

/// Bit `i` after the register at `off` of `w` bits is set to the low bits of `v`.
pub open spec fn written_bit(data: Seq<u8>, off: int, w: nat, v: u64, i: int) -> bool {
    if off <= i < off + w {
        bit_of(v, i - off)
    } else {
        data_bit(data, i)
    }
}

/// `data` with the register at bit `off` of `w` bits set to the low bits of `v`.
pub open spec fn write_bits(data: Seq<u8>, off: int, w: nat, v: u64) -> Seq<u8> {
    Seq::new(
        data.len(),
        |j: int| assemble_bits(|i: int| written_bit(data, off, w, v, i), 8 * j, 8) as u8,
    )
}

/// Bit `j` of a 128-bit number; false outside `0..128`.
pub open spec fn bit128(x: u128, j: int) -> bool {
    0 <= j < 128 && (x >> (j as u128)) & 1 == 1
}

/// The bits of a register read from `data`.
pub proof fn lemma_read_bits(data: Seq<u8>, off: int, w: nat)
    requires
        w <= 64,
    ensures
        forall|j: int| #[trigger]
            bit_of(read_bits(data, off, w), j) == (0 <= j < w && data_bit(data, off + j)),
        w < 64 ==> read_bits(data, off, w) >> (w as u64) == 0,
{
    lemma_assemble_bits(|i: int| data_bit(data, i), off, w);
}

proof fn lemma_split_bit_index(i: int)
    requires
        0 <= i,
    ensures
        i == 8 * (i / 8) + i % 8,
        0 <= i % 8 < 8,
{
}

/// The bits of `data` after a register is written.
pub proof fn lemma_write_bits(data: Seq<u8>, off: int, w: nat, v: u64)
    ensures
        write_bits(data, off, w, v).len() == data.len(),
        forall|i: int| #[trigger]
            data_bit(write_bits(data, off, w, v), i) == (0 <= i < 8 * data.len() && written_bit(
                data,
                off,
                w,
                v,
                i,
            )),
{
    let nd = write_bits(data, off, w, v);
    assert forall|i: int| #[trigger]
        data_bit(nd, i) == (0 <= i < 8 * data.len() && written_bit(data, off, w, v, i)) by {
        if 0 <= i < 8 * data.len() {
            let j = i / 8;
            let k = i % 8;
            lemma_split_bit_index(i);
            let g = |q: int| written_bit(data, off, w, v, q);
            let x = assemble_bits(g, 8 * j, 8);
            lemma_assemble_bits(g, 8 * j, 8);
            assert(nd[j] == x as u8);
            assert(bit_of(x, k) == g(8 * j + k));
            crate::bits::lemma_low_byte_bit(x, k as u64);
        }
    }
}

/// Reading a register back gives the low `w` bits of what was written;
/// registers elsewhere are unchanged.
pub proof fn lemma_read_after_write(data: Seq<u8>, off: int, w: nat, v: u64, off2: int, w2: nat)
    requires
        0 <= off,
        off + w <= 8 * data.len(),
        0 <= off2,
        off2 + w2 <= 8 * data.len(),
        w <= 64,
        w2 <= 64,
    ensures
        off2 == off && w2 == w && (w == 64 || v >> (w as u64) == 0) ==> read_bits(
            write_bits(data, off, w, v),
            off2,
            w2,
        ) == v,
        off2 + w2 <= off || off + w <= off2 ==> read_bits(write_bits(data, off, w, v), off2, w2)
            == read_bits(data, off2, w2),
{
    let nd = write_bits(data, off, w, v);
    lemma_write_bits(data, off, w, v);
    lemma_read_bits(nd, off2, w2);
    lemma_read_bits(data, off2, w2);
    if off2 == off && w2 == w && (w == 64 || v >> (w as u64) == 0) {
        assert forall|j: int| 0 <= j < 64 implies #[trigger] bit_of(read_bits(nd, off2, w2), j)
            == bit_of(v, j) by {
            if j >= w {
                crate::bits::lemma_high_zero_bit(v, w as u64, j as u64);
            }
        }
        lemma_bits_ext(read_bits(nd, off2, w2), v);
    }
    if off2 + w2 <= off || off + w <= off2 {
        assert forall|j: int| 0 <= j < 64 implies #[trigger] bit_of(read_bits(nd, off2, w2), j)
            == bit_of(read_bits(data, off2, w2), j) by {}
        lemma_bits_ext(read_bits(nd, off2, w2), read_bits(data, off2, w2));
    }
}

/// The bits of a number at and above `n` are clear once it is shifted to zero.
pub proof fn lemma_high_bit_clear(y: u64, n: u64, j: u64)
    requires
        y >> n == 0,
        n <= j < 64,
    ensures
        !bit_of(y, j as int),
{
    crate::bits::lemma_high_zero_bit(y, n, j);
}

/// The low `w` bits of `v`.
pub open spec fn low_bits(v: u64, w: nat) -> u64 {
    if w >= 64 {
        v
    } else {
        v & (((1u64 << (w as u64)) - 1u64) as u64)
    }
}

proof fn lemma_low_bits_bit(v: u64, w: u64, j: u64)
    by (bit_vector)
    requires
        w < 64,
        j < 64,
    ensures
        (((v & (((1u64 << w) - 1u64) as u64)) >> j) & 1 == 1) == ((v >> j) & 1 == 1 && j < w),
{
}

/// Reading back a register just written gives the low `w` bits of any value
/// written.
pub proof fn law_read_back_low_bits(data: Seq<u8>, off: int, w: nat, v: u64)
    requires
        0 <= off,
        off + w <= 8 * data.len(),
        1 <= w <= 64,
    ensures
        read_bits(write_bits(data, off, w, v), off, w) == low_bits(v, w),
{
    let nd = write_bits(data, off, w, v);
    lemma_write_bits(data, off, w, v);
    lemma_read_bits(nd, off, w);
    assert forall|j: int| 0 <= j < 64 implies #[trigger] bit_of(read_bits(nd, off, w), j) == bit_of(
        low_bits(v, w),
        j,
    ) by {
        if w < 64 {
            lemma_low_bits_bit(v, w as u64, j as u64);
        }
    }
    lemma_bits_ext(read_bits(nd, off, w), low_bits(v, w));
}

/// Writing back the value just read leaves the bytes unchanged.
pub proof fn lemma_write_read_same(data: Seq<u8>, off: int, w: nat)
    requires
        0 <= off,
        off + w <= 8 * data.len(),
        w <= 64,
    ensures
        write_bits(data, off, w, read_bits(data, off, w)) == data,
{
    let v = read_bits(data, off, w);
    let nd = write_bits(data, off, w, v);
    lemma_write_bits(data, off, w, v);
    lemma_read_bits(data, off, w);
    assert forall|i: int| 0 <= i < 8 * data.len() implies #[trigger] data_bit(nd, i) == data_bit(
        data,
        i,
    ) by {
        if off <= i < off + w {
            assert(bit_of(v, i - off) == data_bit(data, off + (i - off)));
        }
    }
    lemma_data_ext(nd, data);
}

/// A second write to the same register replaces the first.
pub proof fn lemma_write_write_same(data: Seq<u8>, off: int, w: nat, v1: u64, v2: u64)
    ensures
        write_bits(write_bits(data, off, w, v1), off, w, v2) == write_bits(data, off, w, v2),
{
    let a = write_bits(write_bits(data, off, w, v1), off, w, v2);
    let b = write_bits(data, off, w, v2);
    lemma_write_bits(data, off, w, v1);
    lemma_write_bits(write_bits(data, off, w, v1), off, w, v2);
    lemma_write_bits(data, off, w, v2);
    assert forall|i: int| 0 <= i < 8 * a.len() implies #[trigger] data_bit(a, i) == data_bit(
        b,
        i,
    ) by {}
    lemma_data_ext(a, b);
}

/// Writes to disjoint registers commute.
pub proof fn lemma_write_write_disjoint(
    data: Seq<u8>,
    off1: int,
    w1: nat,
    v1: u64,
    off2: int,
    w2: nat,
    v2: u64,
)
    requires
        off1 + w1 <= off2 || off2 + w2 <= off1,
    ensures
        write_bits(write_bits(data, off1, w1, v1), off2, w2, v2) == write_bits(
            write_bits(data, off2, w2, v2),
            off1,
            w1,
            v1,
        ),
{
    let a = write_bits(write_bits(data, off1, w1, v1), off2, w2, v2);
    let b = write_bits(write_bits(data, off2, w2, v2), off1, w1, v1);
    lemma_write_bits(data, off1, w1, v1);
    lemma_write_bits(write_bits(data, off1, w1, v1), off2, w2, v2);
    lemma_write_bits(data, off2, w2, v2);
    lemma_write_bits(write_bits(data, off2, w2, v2), off1, w1, v1);
    assert forall|i: int| 0 <= i < 8 * a.len() implies #[trigger] data_bit(a, i) == data_bit(
        b,
        i,
    ) by {}
    lemma_data_ext(a, b);
}

/// A mask of the low `width` bits.
pub fn packed_mask(width: u32) -> (m: u128)
    requires
        1 <= width <= 64,
    ensures
        m == (1u128 << (width as u128)) - 1,
{
    if width == 64 {
        proof {
            lemma_window_facts(0, 0, 0, 0, 0, 64);
        }
        u64::MAX as u128
    } else {
        proof {
            lemma_window_facts(0, 0, 0, 0, 0, width as u128);
        }
        (1u128 << width) - 1
    }
}

/// The number of bytes that hold `width` bits starting `shift` bits into a byte.
pub fn packed_window_len(width: u32, shift: usize) -> (len: usize)
    requires
        shift < 8,
        width <= 64,
    ensures
        len == (shift + width + 7) / 8,
        8 * len >= shift + width,
        len <= 9,
{
    let a: usize = shift + width as usize + 7;
    let r = a >> 3;
    proof {
        lemma_offset_facts(0, a);
    }
    r
}

/// Facts about building and reading back a 128-bit window, for the
/// bit-vector solver.
proof fn lemma_window_facts(w: u128, b: u8, s: u128, j: u128, k: u128, width: u128)
    by (bit_vector)
    ensures
        s <= 120 && w >> s == 0 && j < 128 && j < s ==> ((w | ((b as u128) << s)) >> j) & 1 == (w
            >> j) & 1,
        s <= 120 && w >> s == 0 && j < 128 && s <= j && j < s + 8 ==> (((w | ((b as u128) << s))
            >> j) & 1 == 1) == ((b >> ((j - s) as u8)) & 1 == 1),
        s <= 120 && w >> s == 0 ==> (w | ((b as u128) << s)) >> (s + 8) == 0,
        (0u128 >> j) & 1 == 0,
        0u128 >> 0u128 == 0,
        s <= 64 && k < 8 ==> ((((w >> s) as u8) >> (k as u8)) & 1 == 1) == ((w >> (s + k)) & 1
            == 1),
        width < 64 ==> 1u128 << width >= 1,
        u64::MAX as u128 == (1u128 << 64u128) - 1,
{
}

proof fn lemma_window_step(w: u128, b: u8, s: u128, j: u128)
    requires
        s <= 120,
        w >> s == 0,
        j < 128,
    ensures
        j < s ==> ((w | ((b as u128) << s)) >> j) & 1 == (w >> j) & 1,
        s <= j < s + 8 ==> (((w | ((b as u128) << s)) >> j) & 1 == 1) == ((b >> ((j - s) as u8))
            & 1 == 1),
        (w | ((b as u128) << s)) >> (s + 8) == 0,
{
    lemma_window_facts(w, b, s, j, 0, 0);
}

proof fn lemma_zero_byte_bit(k: u8)
    ensures
        (0u8 >> k) & 1 == 0,
{
    crate::bits::lemma_zero_byte_bits(k);
}

proof fn lemma_zero_window(j: u128)
    ensures
        (0u128 >> j) & 1 == 0,
        0u128 >> 0u128 == 0,
{
    lemma_window_facts(0, 0, 0, j, 0, 0);
}

proof fn lemma_byte_index(bo: int, i: int, k: int)
    requires
        0 <= k < 8,
        0 <= bo,
        0 <= i,
    ensures
        (8 * (bo + i) + k) / 8 == bo + i,
        (8 * (bo + i) + k) % 8 == k,
{
    assert((8 * (bo + i) + k) / 8 == bo + i && (8 * (bo + i) + k) % 8 == k) by (nonlinear_arith)
        requires
            0 <= k < 8,
            0 <= bo,
            0 <= i,
    ;
}

/// The `len` bytes of `data` from `byte_offset` on, as one little-endian
/// number; bytes beyond the end of `data` count as zero.
fn load_window(data: &[u8], byte_offset: usize, len: usize) -> (window: u128)
    requires
        len <= 9,
        byte_offset + len <= usize::MAX,
    ensures
        forall|j: int|
            0 <= j < 8 * len ==> #[trigger] bit128(window, j) == data_bit(data@, 8 * byte_offset + j),
        window >> ((8 * len) as u128) == 0,
{
    let mut window = 0u128;
    let mut i: usize = 0;
    proof {
        assert forall|j: int| 0 <= j < 8 * i implies #[trigger] bit128(window, j) == data_bit(
            data@,
            8 * byte_offset + j,
        ) by {}
        lemma_zero_window(0);
    }
    while i < len
        invariant
            i <= len <= 9,
            byte_offset + len <= usize::MAX,
            forall|j: int|
                0 <= j < 8 * i ==> #[trigger] bit128(window, j) == data_bit(
                    data@,
                    8 * byte_offset + j,
                ),
            window >> ((8 * i) as u128) == 0,
        decreases len - i,
    {
        let b: u8 = if byte_offset + i < data.len() {
            data[byte_offset + i]
        } else {
            0
        };
        let ghost old_window = window;
        window = window | ((b as u128) << (i * 8));
        proof {
            let s = (8 * i) as u128;
            assert(s <= 120);
            assert forall|j: int| 0 <= j < 8 * (i + 1) implies #[trigger] bit128(window, j)
                == data_bit(data@, 8 * byte_offset + j) by {
                lemma_window_step(old_window, b, s, j as u128);
                if j < 8 * i {
                    assert(bit128(old_window, j) == data_bit(data@, 8 * byte_offset + j));
                } else {
                    let k = j - 8 * i;
                    lemma_byte_index(byte_offset as int, i as int, k);
                    assert(8 * byte_offset + j == 8 * (byte_offset + i) + k);
                    crate::bits::lemma_byte_bit_01(b, k as u8);
                    if byte_offset + i < data.len() {
                        assert(data@[byte_offset + i] == b);
                    } else {
                        lemma_zero_byte_bit(k as u8);
                    }
                }
            }
            lemma_window_step(old_window, b, s, 0);
            assert((8 * (i + 1)) as u128 == s + 8);
        }
        i = i + 1;
    }
    window
}

/// Facts about taking a register out of, and putting it into, a 128-bit
/// window, for the bit-vector solver.
proof fn lemma_register_window_facts(w: u128, v: u64, sh: u128, width: u128, m: u128, j: u128)
    by (bit_vector)
    requires
        sh < 8,
        1 <= width <= 64,
        m + 1 == 1u128 << width,
    ensures
        j < 64 ==> (((((w >> sh) & m) as u64) >> (j as u64)) & 1 == 1) == (j < width && (w >> (sh
            + j)) & 1 == 1),
        j < 128 ==> ((((w & !(m << sh)) | (((v as u128) << sh) & (m << sh))) >> j) & 1 == 1) == (
        if sh <= j && j < sh + width {
            (v >> ((j - sh) as u64)) & 1 == 1
        } else {
            (w >> j) & 1 == 1
        }),
{
}

proof fn lemma_extract_bits(w: u128, sh: u128, width: u128, m: u128, j: u128)
    requires
        sh < 8,
        1 <= width <= 64,
        m + 1 == 1u128 << width,
        j < 64,
    ensures
        (((((w >> sh) & m) as u64) >> (j as u64)) & 1 == 1) == (j < width && (w >> (sh + j)) & 1
            == 1),
{
    lemma_register_window_facts(w, 0, sh, width, m, j);
}

proof fn lemma_merge_window(w: u128, v: u64, sh: u128, width: u128, m: u128, j: u128)
    requires
        sh < 8,
        1 <= width <= 64,
        m + 1 == 1u128 << width,
        j < 128,
    ensures
        ((((w & !(m << sh)) | (((v as u128) << sh) & (m << sh))) >> j) & 1 == 1) == (if sh <= j
            && j < sh + width {
            (v >> ((j - sh) as u64)) & 1 == 1
        } else {
            (w >> j) & 1 == 1
        }),
{
    lemma_register_window_facts(w, v, sh, width, m, j);
}

proof fn lemma_byte_of_window(w: u128, s: u128, k: u128)
    requires
        s <= 64,
        k < 8,
    ensures
        ((((w >> s) as u8) >> (k as u8)) & 1 == 1) == ((w >> (s + k)) & 1 == 1),
{
    lemma_window_facts(w, 0, s, 0, k, 0);
}

/// Facts about splitting a bit offset into bytes, for the bit-vector solver.
proof fn lemma_offset_facts(x: usize, a: usize)
    by (bit_vector)
    ensures
        (x >> 3usize) * 8 + (x & 7usize) == x,
        x & 7usize < 8,
        a >> 3usize == a / 8,
{
}

proof fn lemma_split_offset(x: usize)
    ensures
        (x >> 3usize) * 8 + (x & 7usize) == x,
        x & 7usize < 8,
{
    lemma_offset_facts(x, 0);
}

/// Reads the register of `width` bits at index `idx`.
pub fn packed_get(data: &[u8], idx: usize, width: u32) -> (r: u64)
    requires
        1 <= width <= 64,
        idx * width <= usize::MAX,
    ensures
        r == read_bits(data@, idx * width, width as nat),
{
    let bit_offset = idx * width as usize;
    let byte_offset = bit_offset >> 3;
    let shift = bit_offset & 7;
    proof {
        lemma_split_offset(bit_offset);
    }
    let len = packed_window_len(width, shift);
    let window = load_window(data, byte_offset, len);
    let mask = packed_mask(width);
    let r = ((window >> shift) & mask) as u64;
    proof {
        lemma_read_bits(data@, idx * width, width as nat);
        assert forall|j: int| 0 <= j < 64 implies #[trigger] bit_of(r, j) == bit_of(
            read_bits(data@, idx * width, width as nat),
            j,
        ) by {
            lemma_extract_bits(window, shift as u128, width as u128, mask, j as u128);
            if j < width {
                assert(bit128(window, shift + j) == data_bit(data@, 8 * byte_offset + (shift + j)));
            }
        }
        lemma_bits_ext(r, read_bits(data@, idx * width, width as nat));
    }
    r
}

/// Sets the register of `width` bits at index `idx` to the low bits of `value`.
pub fn packed_set(data: &mut [u8], idx: usize, width: u32, value: u64)
    requires
        1 <= width <= 64,
        idx * width <= usize::MAX,
    ensures
        final(data)@ == write_bits(old(data)@, idx * width, width as nat, value),
{
    let bit_offset = idx * width as usize;
    let byte_offset = bit_offset >> 3;
    let shift = bit_offset & 7;
    proof {
        lemma_split_offset(bit_offset);
    }
    let len = packed_window_len(width, shift);
    let low_mask = packed_mask(width);
    let mask = low_mask << shift;
    let window = load_window(&*data, byte_offset, len);
    let window2 = (window & !mask) | (((value as u128) << shift) & mask);
    let ghost old_data = data@;
    let mut i: usize = 0;
    while i < len
        invariant
            i <= len <= 9,
            byte_offset + len <= usize::MAX,
            data@.len() == old_data.len(),
            forall|q: int|
                0 <= q < old_data.len() ==> #[trigger] data@[q] == (if byte_offset <= q
                    < byte_offset + i {
                    (window2 >> ((8 * (q - byte_offset)) as u128)) as u8
                } else {
                    old_data[q]
                }),
        decreases len - i,
    {
        if byte_offset + i < data.len() {
            data[byte_offset + i] = (window2 >> (i * 8)) as u8;
        }
        i = i + 1;
    }
    proof {
        let off = idx * width;
        let nd = write_bits(old_data, off, width as nat, value);
        lemma_write_bits(old_data, off, width as nat, value);
        assert forall|b: int| 0 <= b < 8 * data@.len() implies #[trigger] data_bit(data@, b)
            == data_bit(nd, b) by {
            lemma_split_bit_index(b);
            let q = b / 8;
            let k = b % 8;
            if byte_offset <= q < byte_offset + len {
                let s = 8 * (q - byte_offset);
                lemma_byte_of_window(window2, s as u128, k as u128);
                let jj = s + k;
                assert(jj == b - 8 * byte_offset);
                lemma_merge_window(window, value, shift as u128, width as u128, low_mask, jj as u128);
                if !(shift <= jj < shift + width) {
                    assert(bit128(window, jj) == data_bit(old_data, 8 * byte_offset + jj));
                }
            } else {
                assert(data@[q] == old_data[q]);
            }
        }
        lemma_data_ext(data@, nd);
    }
}

} // verus!
