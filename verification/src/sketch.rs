//! The sketch: its parameters and its packed registers.

use vstd::prelude::*;
use vstd::arithmetic::power2::pow2;
use vstd::std_specs::bits::u64_leading_zeros;
use crate::packed::{packed_get, packed_set, read_bits, write_bits};
use crate::bits::{assemble_bits, bit_of, data_bit};
use crate::params::{
    max_p, MIN_P, V, check_d, check_p, check_t, register_bit_size, spec_register_bit_size, spec_state_len_bytes,
    valid_params, ExaLogLogError,
};
use crate::register::{insert_register, low_mask, merge_register, spec_merge_register};
use crate::downsize::{
    compute_downsize_threshold_u, downsize_fits, downsize_register, spec_downsize_register,
    spec_downsize_threshold_u, DownsizeParams,
};

verus! {

/// What a sketch is: its parameters and its bytes.
pub struct SketchView {
    pub t: u32,
    pub d: u32,
    pub p: u32,
    pub state: Seq<u8>,
}

/// The mask of the low `t + p` bits of a hash: the bits that pick a register
/// and the `t` extra bits.
pub open spec fn hash_mask(t: u32, p: u32) -> u64 {
    (((1u64 << t) << p) - 1) as u64
}

/// The register that a hash updates.
pub open spec fn hash_index(h: u64, t: u32, p: u32) -> int {
    ((h & hash_mask(t, p)) >> t) as int
}

/// The update value of a hash: its leading zeros above the low `t + p` bits,
/// followed by its `t` extra bits, plus one.
pub open spec fn hash_level(h: u64, t: u32, p: u32) -> u64 {
    ((((u64_leading_zeros(h | hash_mask(t, p)) as u64) << t) + (h & low_mask(t))) + 1) as u64
}

/// The byte length of a state fits the machine with room to spare.
pub open spec fn state_fits(t: u32, d: u32, p: u32) -> bool {
    spec_register_bit_size(t, d) * pow2(p as nat) + 7 <= usize::MAX
}

impl SketchView {
    /// The number of bits of a register.
    pub open spec fn width(self) -> nat {
        (6 + self.t + self.d) as nat
    }

    /// The number of registers.
    pub open spec fn num_registers(self) -> nat {
        pow2(self.p as nat)
    }

    /// Valid parameters and a state of the length they ask for.
    pub open spec fn wf(self) -> bool {
        &&& valid_params(self.t, self.d, self.p)
        &&& self.state.len() == spec_state_len_bytes(self.t, self.d, self.p)
        &&& state_fits(self.t, self.d, self.p)
    }

    /// Register `i`.
    pub open spec fn register(self, i: int) -> u64 {
        read_bits(self.state, i * self.width(), self.width())
    }

    /// All registers, in order.
    pub open spec fn registers(self) -> Seq<u64> {
        Seq::new(self.num_registers(), |i: int| self.register(i))
    }

    /// The sketch with register `i` set to `v`.
    pub open spec fn with_register(self, i: int, v: u64) -> SketchView {
        SketchView { state: write_bits(self.state, i * self.width(), self.width(), v), ..self }
    }

    /// The sketch with every byte of its state zero.
    pub open spec fn cleared(self) -> SketchView {
        SketchView { state: Seq::new(self.state.len(), |i: int| 0u8), ..self }
    }

    /// The sketch after the hashes `hs` were added, first to last.
    pub open spec fn insert_hashes(self, hs: Seq<u64>) -> SketchView
        decreases hs.len(),
    {
        if hs.len() == 0 {
            self
        } else {
            self.insert_hashes(hs.drop_last()).insert_hash(hs.last())
        }
    }

    /// The sketch with register `i` set to the low bits of `vals[i]`, for every
    /// register; bits beyond the last register stay as they are.
    pub open spec fn with_registers(self, vals: Seq<u64>) -> SketchView {
        let w = self.width();
        let m = self.num_registers();
        SketchView {
            state: Seq::new(
                self.state.len(),
                |j: int|
                    assemble_bits(
                        |b: int|
                            if 0 <= b < m * w {
                                bit_of(vals[b / (w as int)], b % (w as int))
                            } else {
                                data_bit(self.state, b)
                            },
                        8 * j,
                        8,
                    ) as u8,
            ),
            ..self
        }
    }

    /// The sketch after the hash `h` was added.
    pub open spec fn insert_hash(self, h: u64) -> SketchView {
        let i = hash_index(h, self.t, self.p);
        self.with_register(i, insert_register(self.register(i), hash_level(h, self.t, self.p), self.d))
    }
}

/// Every register of a well-formed sketch lies within its state.
pub proof fn lemma_register_in_state(v: SketchView, i: int)
    requires
        v.wf(),
        0 <= i < v.num_registers(),
    ensures
        0 <= i * v.width(),
        i * v.width() + v.width() <= 8 * v.state.len(),
        i * v.width() + v.width() <= usize::MAX,
{
    let w = v.width() as int;
    let n = pow2(v.p as nat) as int;
    assert(0 <= i * w && i * w + w <= w * n) by (nonlinear_arith)
        requires
            0 <= i < n,
            w >= 0,
    ;
    assert(8 * ((w * n + 7) / 8) >= w * n) by (nonlinear_arith)
        requires
            w * n >= 0,
    ;
}

/// The bits of a sketch after all its registers were replaced.
pub proof fn lemma_with_registers_bits(v: SketchView, vals: Seq<u64>)
    ensures
        v.with_registers(vals).state.len() == v.state.len(),
        forall|b: int| #[trigger]
            data_bit(v.with_registers(vals).state, b) == (0 <= b < 8 * v.state.len() && (if 0 <= b
                < v.num_registers() * v.width() {
                bit_of(vals[b / (v.width() as int)], b % (v.width() as int))
            } else {
                data_bit(v.state, b)
            })),
{
    let w = v.width();
    let m = v.num_registers();
    let g = |b: int|
        if 0 <= b < m * w {
            bit_of(vals[b / (w as int)], b % (w as int))
        } else {
            data_bit(v.state, b)
        };
    let nd = v.with_registers(vals).state;
    assert forall|b: int| #[trigger]
        data_bit(nd, b) == (0 <= b < 8 * v.state.len() && g(b)) by {
        if 0 <= b < 8 * v.state.len() {
            let j = b / 8;
            let k = b % 8;
            assert(b == 8 * j + k && 0 <= k < 8);
            let x = assemble_bits(g, 8 * j, 8);
            crate::bits::lemma_assemble_bits(g, 8 * j, 8);
            assert(nd[j] == x as u8);
            assert(bit_of(x, k) == g(8 * j + k));
            crate::bits::lemma_low_byte_bit(x, k as u64);
        }
    }
}

/// A register read depends only on the bits it covers.
pub proof fn lemma_read_bits_congruent(a: Seq<u8>, b: Seq<u8>, off: int, w: nat)
    requires
        w <= 64,
        forall|i: int| off <= i < off + w ==> #[trigger] data_bit(a, i) == data_bit(b, i),
    ensures
        read_bits(a, off, w) == read_bits(b, off, w),
{
    crate::packed::lemma_read_bits(a, off, w);
    crate::packed::lemma_read_bits(b, off, w);
    assert forall|j: int| 0 <= j < 64 implies #[trigger] bit_of(read_bits(a, off, w), j)
        == bit_of(read_bits(b, off, w), j) by {
        if j < w {
            assert(data_bit(a, off + j) == data_bit(b, off + j));
        }
    }
    crate::bits::lemma_bits_ext(read_bits(a, off, w), read_bits(b, off, w));
}

/// A bit inside the registers of a sketch lies in register `b / w` at position `b % w`.
pub proof fn lemma_bit_in_register(v: SketchView, b: int)
    requires
        v.wf(),
        0 <= b < v.num_registers() * v.width(),
    ensures
        0 <= b / (v.width() as int) < v.num_registers(),
        0 <= b % (v.width() as int) < v.width(),
        (b / (v.width() as int)) * v.width() + b % (v.width() as int) == b,
        bit_of(v.register(b / (v.width() as int)), b % (v.width() as int)) == data_bit(v.state, b),
{
    let w = v.width() as int;
    let i = b / w;
    let k = b % w;
    assert(w >= 6);
    assert(0 <= i && 0 <= k < w && i * w + k == b) by (nonlinear_arith)
        requires
            w > 0,
            b >= 0,
            i == b / w,
            k == b % w,
    ;
    assert(i < v.num_registers()) by (nonlinear_arith)
        requires
            i * w + k == b,
            b < v.num_registers() * w,
            0 <= k,
            w > 0,
    ;
    crate::packed::lemma_read_bits(v.state, i * w, w as nat);
}

/// `cur` is `base` with registers `0..n` replaced by the low bits of `vals`.
pub open spec fn filled(base: SketchView, cur: SketchView, vals: Seq<u64>, n: int) -> bool {
    &&& cur.t == base.t
    &&& cur.d == base.d
    &&& cur.p == base.p
    &&& cur.state.len() == base.state.len()
    &&& forall|b: int|
        0 <= b < 8 * base.state.len() ==> #[trigger] data_bit(cur.state, b) == (if b < n
            * base.width() {
            bit_of(vals[b / (base.width() as int)], b % (base.width() as int))
        } else {
            data_bit(base.state, b)
        })
}

proof fn lemma_block(b: int, i: int, w: int)
    requires
        w > 0,
        0 <= i,
        i * w <= b < i * w + w,
    ensures
        b / w == i,
        b % w == b - i * w,
{
    assert(b / w == i && b % w == b - i * w) by (nonlinear_arith)
        requires
            w > 0,
            0 <= i,
            i * w <= b < i * w + w,
    ;
}

/// Before register `n` is replaced, it still holds its old value.
pub proof fn lemma_filled_register(base: SketchView, cur: SketchView, vals: Seq<u64>, n: int)
    requires
        base.wf(),
        filled(base, cur, vals, n),
        0 <= n < base.num_registers(),
    ensures
        cur.register(n) == base.register(n),
        cur.wf(),
{
    let w = base.width() as int;
    lemma_register_in_state(base, n);
    assert(n * w >= 0);
    assert forall|i: int| n * w <= i < n * w + w implies #[trigger] data_bit(cur.state, i)
        == data_bit(base.state, i) by {
        assert(!(i < n * w));
    }
    lemma_read_bits_congruent(cur.state, base.state, n * w, w as nat);
}

/// Replacing register `n` extends the filled prefix by one.
pub proof fn lemma_filled_step(
    base: SketchView,
    cur: SketchView,
    next: SketchView,
    vals: Seq<u64>,
    n: int,
)
    requires
        base.wf(),
        filled(base, cur, vals, n),
        0 <= n < base.num_registers(),
        next == cur.with_register(n, vals[n]) || (next == cur && cur.register(n) == vals[n]),
    ensures
        filled(base, next, vals, n + 1),
{
    let w = base.width() as int;
    lemma_register_in_state(base, n);
    crate::packed::lemma_write_bits(cur.state, n * w, w as nat, vals[n]);
    crate::packed::lemma_read_bits(cur.state, n * w, w as nat);
    assert forall|b: int| 0 <= b < 8 * base.state.len() implies #[trigger] data_bit(next.state, b)
        == (if b < (n + 1) * w {
        bit_of(vals[b / w], b % w)
    } else {
        data_bit(base.state, b)
    }) by {
        assert((n + 1) * w == n * w + w) by (nonlinear_arith);
        if n * w <= b < n * w + w {
            lemma_block(b, n, w);
            if next == cur {
                assert(bit_of(cur.register(n), b - n * w) == data_bit(cur.state, n * w + (b - n * w)));
            }
        } else {
            assert(data_bit(cur.state, b) == (if b < n * w {
                bit_of(vals[b / w], b % w)
            } else {
                data_bit(base.state, b)
            }));
        }
    }
}

/// With every register replaced, the sketch is `base.with_registers(vals)`.
pub proof fn lemma_filled_done(base: SketchView, cur: SketchView, vals: Seq<u64>)
    requires
        base.wf(),
        filled(base, cur, vals, base.num_registers() as int),
    ensures
        cur == base.with_registers(vals),
{
    let target = base.with_registers(vals);
    lemma_with_registers_bits(base, vals);
    assert forall|b: int| 0 <= b < 8 * cur.state.len() implies #[trigger] data_bit(cur.state, b)
        == data_bit(target.state, b) by {}
    crate::bits::lemma_data_ext(cur.state, target.state);
}

/// The parameters that move the registers of `from` into a sketch like `to`.
pub open spec fn downsize_params_of(to: SketchView, from: SketchView) -> DownsizeParams {
    DownsizeParams {
        t: to.t,
        from_d: from.d,
        to_d: to.d,
        from_p: from.p,
        to_p: to.p,
        threshold_u: spec_downsize_threshold_u(to.t, from.p),
    }
}

/// The merge of the first `n` sub-registers of `from` that map to register
/// `i` of the smaller sketch, each moved down first.
pub open spec fn downsized_merge(from: SketchView, i: int, prm: DownsizeParams, n: nat) -> u64
    decreases n,
{
    if n == 0 {
        0
    } else {
        spec_merge_register(
            downsized_merge(from, i, prm, (n - 1) as nat),
            spec_downsize_register(
                from.register(i + (n - 1) * pow2(prm.to_p as nat)),
                (n - 1) as u32,
                prm,
            ),
            prm.to_d,
        )
    }
}

/// Why `from` cannot be added to `to`, if it cannot.
pub open spec fn add_sketch_error(to: SketchView, from: SketchView) -> Option<ExaLogLogError> {
    if from.t != to.t {
        Some(ExaLogLogError::IncompatibleT)
    } else if from.d < to.d {
        Some(ExaLogLogError::OtherHasSmallerD)
    } else if from.p < to.p {
        Some(ExaLogLogError::OtherHasSmallerPrecision)
    } else {
        None
    }
}

/// `from` has the same `d` and precision as `to`.
pub open spec fn same_shape(to: SketchView, from: SketchView) -> bool {
    from.d == to.d && from.p == to.p
}

/// The registers of `to` after `from` was added to it.
pub open spec fn add_sketch_values(to: SketchView, from: SketchView) -> Seq<u64> {
    if same_shape(to, from) {
        Seq::new(
            to.num_registers(),
            |i: int| spec_merge_register(to.register(i), from.register(i), to.d),
        )
    } else {
        Seq::new(
            to.num_registers(),
            |i: int|
                spec_merge_register(
                    downsized_merge(
                        from,
                        i,
                        downsize_params_of(to, from),
                        pow2((from.p - to.p) as nat),
                    ),
                    to.register(i),
                    to.d,
                ),
        )
    }
}

/// Every register of `from` can be moved down to `to` within 64 bits.
pub open spec fn add_sketch_fits(to: SketchView, from: SketchView) -> bool {
    forall|i: int, s: int|
        0 <= i < to.num_registers() && 0 <= s < pow2((from.p - to.p) as nat) ==> #[trigger]
            downsize_fits(
            from.register(i + s * pow2(to.p as nat)),
            s as u32,
            downsize_params_of(to, from),
        )
}

proof fn lemma_level_below(r: u64, w: u64, t: u64, d: u32)
    requires
        w == 6 + t + d,
        t <= 24,
        w <= 64,
        w < 64 ==> r >> w == 0,
    ensures
        r >> d < 0x1_0000_0000,
{
    crate::laws::lemma_width_facts(r, 0, 0, 0, t as u32, d);
}

/// The largest value of a register of a well-formed sketch has at most `6 + t` bits.
pub proof fn lemma_register_level_below(v: SketchView, i: int)
    requires
        v.wf(),
    ensures
        v.register(i) >> v.d < 0x1_0000_0000,
{
    crate::packed::lemma_read_bits(v.state, i * v.width(), v.width());
    lemma_level_below(v.register(i), v.width() as u64, v.t as u64, v.d);
}

/// A sketch of the given parameters with every register zero.
pub open spec fn empty_view(t: u32, d: u32, p: u32) -> SketchView {
    SketchView { t, d, p, state: Seq::new(spec_state_len_bytes(t, d, p) as nat, |i: int| 0u8) }
}

/// `to` after `from` was added to it.
pub open spec fn add_view(to: SketchView, from: SketchView) -> SketchView {
    to.with_registers(add_sketch_values(to, from))
}

/// The result of `downsize(d, p)` on a sketch that it moves to a new sketch.
pub open spec fn downsize_view(v: SketchView, d: u32, p: u32) -> SketchView {
    add_view(empty_view(v.t, d, p), v)
}

/// Why `downsize(d, p)` fails on `v`, if it does.
pub open spec fn downsize_error(v: SketchView, d: u32, p: u32) -> Option<ExaLogLogError> {
    if !crate::params::valid_d(d, v.t) {
        Some(ExaLogLogError::InvalidD)
    } else if !crate::params::valid_p(p, v.t) {
        Some(ExaLogLogError::InvalidP)
    } else if p >= v.p && d >= v.d {
        None
    } else {
        add_sketch_error(empty_view(v.t, d, p), v)
    }
}

/// The result of `downsize(d, p)` on `v` where it succeeds.
pub open spec fn downsize_result(v: SketchView, d: u32, p: u32) -> SketchView {
    if p >= v.p && d >= v.d {
        v
    } else {
        downsize_view(v, d, p)
    }
}

/// `downsize(d, p)` on `v` stays within the machine's limits.
pub open spec fn downsize_fits_all(v: SketchView, d: u32, p: u32) -> bool {
    &&& (valid_params(v.t, d, p) && !(p >= v.p && d >= v.d) ==> state_fits(v.t, d, p))
    &&& (downsize_error(v, d, p) is None && !(p >= v.p && d >= v.d) && !same_shape(
        empty_view(v.t, d, p),
        v,
    ) ==> add_sketch_fits(empty_view(v.t, d, p), v))
}

/// The sketch that `merge(a, b)` returns where `a` and `b` have the same `t`.
pub open spec fn merge_result(a: SketchView, b: SketchView) -> SketchView {
    if a.p <= b.p {
        if a.d <= b.d {
            add_view(a, b)
        } else {
            add_view(downsize_result(a, b.d, a.p), b)
        }
    } else if a.d >= b.d {
        add_view(b, a)
    } else {
        add_view(downsize_result(b, a.d, b.p), a)
    }
}

/// `merge(a, b)` stays within the machine's limits.
pub open spec fn merge_fits(a: SketchView, b: SketchView) -> bool {
    if a.p <= b.p {
        if a.d <= b.d {
            !same_shape(a, b) ==> add_sketch_fits(a, b)
        } else {
            &&& downsize_fits_all(a, b.d, a.p)
            &&& (!same_shape(downsize_result(a, b.d, a.p), b) ==> add_sketch_fits(
                downsize_result(a, b.d, a.p),
                b,
            ))
        }
    } else if a.d >= b.d {
        !same_shape(b, a) ==> add_sketch_fits(b, a)
    } else {
        &&& downsize_fits_all(b, a.d, b.p)
        &&& (!same_shape(downsize_result(b, a.d, b.p), a) ==> add_sketch_fits(
            downsize_result(b, a.d, b.p),
            a,
        ))
    }
}

/// An ExaLogLog sketch.
#[derive(Debug)]
pub struct ExaLogLog {
    t: u32,
    d: u32,
    p: u32,
    state: Vec<u8>,
}

impl View for ExaLogLog {
    type V = SketchView;

    closed spec fn view(&self) -> SketchView {
        SketchView { t: self.t, d: self.d, p: self.p, state: self.state@ }
    }
}

/// `1 << p` is `2^p`.
proof fn lemma_one_shl_usize(p: u32)
    requires
        p < 32,
        pow2(p as nat) <= usize::MAX,
    ensures
        (1usize << (p as usize)) == pow2(p as nat),
{
    vstd::bits::lemma_usize_shl_is_mul(1, p as usize);
}

/// The number of bytes that `2^p` registers of `6 + t + d` bits take.
pub fn state_len_bytes(t: u32, d: u32, p: u32) -> (n: usize)
    requires
        valid_params(t, d, p),
        state_fits(t, d, p),
    ensures
        n == spec_state_len_bytes(t, d, p),
{
    let w = register_bit_size(t, d) as usize;
    proof {
        assert(pow2(p as nat) <= usize::MAX) by (nonlinear_arith)
            requires
                spec_register_bit_size(t, d) * pow2(p as nat) + 7 <= usize::MAX,
                spec_register_bit_size(t, d) >= 6,
        ;
        lemma_one_shl_usize(p);
    }
    let bits = w * (1usize << p) + 7;
    let n = bits >> 3;
    proof {
        vstd::bits::lemma_usize_shr_is_div(bits, 3);
        vstd::arithmetic::power2::lemma2_to64();
    }
    n
}

/// Facts about splitting a hash into register index and update value, for the
/// bit-vector solver.
pub proof fn lemma_hash_facts(h: u64, nlz: u64, t: u32, p: u32, d: u32)
    by (bit_vector)
    requires
        t <= 24,
    ensures
        2 <= p && t + p <= 26 ==> (1u64 << t) << p >= 1,
        1u64 << t >= 1,
        2 <= p && t + p <= 26 ==> ((h & ((((1u64 << t) << p) - 1) as u64)) >> t) < (1u64 << p),
        2 <= p && t + p <= 26 ==> ((h | ((((1u64 << t) << p) - 1) as u64)) >> ((t + p - 1) as u64))
            & 1 == 1,
        nlz <= 64 ==> (nlz << t) + (h & (((1u64 << t) - 1) as u64)) + 1 < 0x1_0000_0000,
        nlz <= 62 ==> ((((nlz << t) + (h & (((1u64 << t) - 1) as u64))) + 1) as u64) >= 1,
        nlz <= 62 && d + t <= 58 ==> (((((nlz << t) + (h & (((1u64 << t) - 1) as u64))) + 1)
            as u64) << d) >> d == ((((nlz << t) + (h & (((1u64 << t) - 1) as u64))) + 1) as u64),
        nlz <= 62 ==> ((((nlz << t) + (h & (((1u64 << t) - 1) as u64))) + 1) as u64) >> ((t + 6)
            as u64) == 0,
{
}

proof fn lemma_hash_parts(h: u64, t: u32, p: u32)
    requires
        t <= 24,
        2 <= p,
        t + p <= 26,
    ensures
        (1u64 << t) << p >= 1,
        1u64 << t >= 1,
        ((h & ((((1u64 << t) << p) - 1) as u64)) >> t) < (1u64 << p),
        ((h | ((((1u64 << t) << p) - 1) as u64)) >> ((t + p - 1) as u64)) & 1 == 1,
{
    lemma_hash_facts(h, 0, t, p, 0);
}

proof fn lemma_level_bound(nlz: u64, h: u64, t: u32)
    requires
        t <= 24,
        nlz <= 64,
    ensures
        (nlz << t) + (h & (((1u64 << t) - 1) as u64)) + 1 < 0x1_0000_0000,
{
    lemma_hash_facts(h, nlz, t, 0, 0);
}

/// The leading zeros of `h | hash_mask(t, p)` leave room for the low `t + p` bits.
pub proof fn lemma_level_nlz(h: u64, t: u32, p: u32)
    requires
        t <= 24,
        2 <= p,
        t + p <= 26,
    ensures
        0 <= u64_leading_zeros(h | hash_mask(t, p)) <= 64 - t - p,
{
    let x = h | hash_mask(t, p);
    lemma_hash_parts(h, t, p);
    vstd::std_specs::bits::axiom_u64_leading_zeros(x);
    let n = u64_leading_zeros(x);
    if n > 64 - t - p {
        let j = (t + p - 1) as u64;
        assert(64 - n <= j < 64);
        assert((x >> j) & 1u64 == 0u64);
    }
}

/// The register index of a hash is below `2^p`.
pub proof fn lemma_hash_index_bound(h: u64, t: u32, p: u32)
    requires
        t <= 24,
        2 <= p,
        t + p <= 26,
    ensures
        0 <= hash_index(h, t, p) < pow2(p as nat),
{
    lemma_hash_parts(h, t, p);
    vstd::bits::lemma_u64_pow2_no_overflow(p as nat);
    vstd::bits::lemma_u64_shl_is_mul(1, p as u64);
}

impl ExaLogLog {
    /// Valid parameters and a state of the length they ask for.
    pub open spec fn wf(&self) -> bool {
        self@.wf()
    }

    /// A sketch with all registers zero.
    pub fn new(t: u32, d: u32, p: u32) -> (r: Result<Self, ExaLogLogError>)
        requires
            valid_params(t, d, p) ==> state_fits(t, d, p),
        ensures
            r is Ok <==> valid_params(t, d, p),
            !crate::params::valid_t(t) ==> r == Err::<Self, ExaLogLogError>(ExaLogLogError::InvalidT),
            crate::params::valid_t(t) && !crate::params::valid_d(d, t) ==> r == Err::<
                Self,
                ExaLogLogError,
            >(ExaLogLogError::InvalidD),
            crate::params::valid_t(t) && crate::params::valid_d(d, t) && !crate::params::valid_p(
                p,
                t,
            ) ==> r == Err::<Self, ExaLogLogError>(ExaLogLogError::InvalidP),
            r matches Ok(s) ==> {
                &&& s.wf()
                &&& s@.t == t
                &&& s@.d == d
                &&& s@.p == p
                &&& s@.state == Seq::new(spec_state_len_bytes(t, d, p) as nat, |i: int| 0u8)
            },
    {
        check_t(t)?;
        check_d(d, t)?;
        check_p(p, t)?;
        let n = state_len_bytes(t, d, p);
        let state = vec![0u8; n];
        let r = Self { t, d, p, state };
        assert(r@.state =~= Seq::new(spec_state_len_bytes(t, d, p) as nat, |i: int| 0u8));
        Ok(r)
    }

    pub(crate) fn num_registers(&self) -> (n: usize)
        requires
            self.wf(),
        ensures
            n == self@.num_registers(),
    {
        proof {
            let w = spec_register_bit_size(self.t, self.d);
            assert(pow2(self.p as nat) <= usize::MAX) by (nonlinear_arith)
                requires
                    w * pow2(self.p as nat) + 7 <= usize::MAX,
                    w >= 6,
            ;
            lemma_one_shl_usize(self.p);
        }
        1usize << self.p
    }

    fn register_width(&self) -> (w: u32)
        requires
            self.wf(),
        ensures
            w == self@.width(),
            1 <= w <= 64,
    {
        register_bit_size(self.t, self.d)
    }

    pub(crate) fn get_register(&self, idx: usize) -> (r: u64)
        requires
            self.wf(),
            idx < self@.num_registers(),
        ensures
            r == self@.register(idx as int),
    {
        let w = self.register_width();
        proof {
            assert(idx * w <= usize::MAX) by (nonlinear_arith)
                requires
                    idx < pow2(self.p as nat),
                    w * pow2(self.p as nat) + 7 <= usize::MAX,
                    w >= 1,
            ;
        }
        packed_get(self.state.as_slice(), idx, w)
    }

    fn set_register(&mut self, idx: usize, value: u64)
        requires
            old(self).wf(),
            idx < old(self)@.num_registers(),
        ensures
            final(self)@ == old(self)@.with_register(idx as int, value),
            final(self).wf(),
    {
        let w = self.register_width();
        proof {
            assert(idx * w <= usize::MAX) by (nonlinear_arith)
                requires
                    idx < pow2(self.p as nat),
                    w * pow2(self.p as nat) + 7 <= usize::MAX,
                    w >= 1,
            ;
        }
        packed_set(self.state.as_mut_slice(), idx, w, value);
        proof {
            crate::packed::lemma_write_bits(old(self)@.state, idx * w, w as nat, value);
        }
    }
}

impl ExaLogLog {
    /// Adds an already hashed 64-bit value to this sketch.
    pub fn add_hash(&mut self, hash_value: u64) -> (r: &mut Self)
        requires
            old(self).wf(),
        ensures
            r@ == old(self)@.insert_hash(hash_value),
            r.wf(),
            *final(self) == *final(r),
    {
        proof {
            lemma_hash_parts(hash_value, self.t, self.p);
            lemma_level_nlz(hash_value, self.t, self.p);
            lemma_hash_index_bound(hash_value, self.t, self.p);
            let w = spec_register_bit_size(self.t, self.d);
            assert(pow2(self.p as nat) <= usize::MAX) by (nonlinear_arith)
                requires
                    w * pow2(self.p as nat) + 7 <= usize::MAX,
                    w >= 6,
            ;
        }
        let mask = ((1u64 << self.t) << self.p) - 1;
        let idx = ((hash_value & mask) >> self.t) as usize;
        let nlz = (hash_value | mask).leading_zeros() as u64;
        let low_mask = (1u64 << self.t) - 1;
        proof {
            lemma_level_bound(nlz, hash_value, self.t);
        }
        let k = (nlz << self.t) + (hash_value & low_mask) + 1;
        let r_old = self.get_register(idx);
        let u = r_old >> self.d;
        proof {
            lemma_register_in_state(self@, idx as int);
            crate::packed::lemma_write_read_same(self@.state, idx * self@.width(), self@.width());
            let d = self.d;
            crate::register::lemma_one_shl(d);
        }
        if k > u {
            let delta = k - u;
            let mut r_new = k << self.d;
            if delta <= self.d as u64 {
                r_new |= ((1u64 << self.d) | (r_old & ((1u64 << self.d) - 1))) >> delta;
            }
            self.set_register(idx, r_new);
        } else if k < u {
            let delta = u - k;
            if delta <= self.d as u64 {
                let r_new = r_old | (1u64 << (self.d as u64 - delta));
                if r_new != r_old {
                    self.set_register(idx, r_new);
                }
            }
        }
        self
    }
}

impl ExaLogLog {
    /// A sketch with the given parameters and state.
    pub(crate) fn from_parts(t: u32, d: u32, p: u32, state: Vec<u8>) -> (r: Self)
        ensures
            r@ == (SketchView { t, d, p, state: state@ }),
    {
        Self { t, d, p, state }
    }

    /// The `t` parameter: the number of extra hash bits per update value.
    pub fn t(&self) -> (r: u32)
        ensures
            r == self@.t,
    {
        self.t
    }

    /// The `d` parameter: how many update values below the largest one a
    /// register remembers.
    pub fn d(&self) -> (r: u32)
        ensures
            r == self@.d,
    {
        self.d
    }

    /// The precision: the sketch has `2^p` registers.
    pub fn p(&self) -> (r: u32)
        ensures
            r == self@.p,
    {
        self.p
    }

    /// The packed registers.
    pub fn state(&self) -> (r: &[u8])
        ensures
            r@ == self@.state,
    {
        self.state.as_slice()
    }

    /// The packed registers, taken out of the sketch.
    pub fn into_state(self) -> (r: Vec<u8>)
        ensures
            r@ == self@.state,
    {
        self.state
    }

    /// Sets every register to zero.
    pub fn reset(&mut self) -> (r: &mut Self)
        requires
            old(self).wf(),
        ensures
            r@ == old(self)@.cleared(),
            r.wf(),
            *final(self) == *final(r),
    {
        let n = self.state.len();
        let mut i: usize = 0;
        while i < n
            invariant
                n == self.state.len(),
                i <= n,
                self.t == old(self).t,
                self.d == old(self).d,
                self.p == old(self).p,
                self.state@.len() == old(self).state@.len(),
                forall|j: int| 0 <= j < i ==> self.state@[j] == 0u8,
            decreases n - i,
        {
            self.state.set(i, 0);
            i = i + 1;
        }
        assert(self@.state =~= old(self)@.cleared().state);
        self
    }

    /// Adds an already hashed 64-bit value; the same as `add_hash`.
    pub fn add(&mut self, hash_value: u64) -> (r: &mut Self)
        requires
            old(self).wf(),
        ensures
            r@ == old(self)@.insert_hash(hash_value),
            r.wf(),
            *final(self) == *final(r),
    {
        self.add_hash(hash_value)
    }

    /// Adds already hashed 64-bit values, first to last.
    pub fn add_hashes(&mut self, hash_values: &[u64]) -> (r: &mut Self)
        requires
            old(self).wf(),
        ensures
            r@ == old(self)@.insert_hashes(hash_values@),
            r.wf(),
            *final(self) == *final(r),
    {
        let n = hash_values.len();
        let mut i: usize = 0;
        while i < n
            invariant
                n == hash_values@.len(),
                i <= n,
                self.wf(),
                self@ == old(self)@.insert_hashes(hash_values@.subrange(0, i as int)),
            decreases n - i,
        {
            self.add_hash(hash_values[i]);
            proof {
                let s = hash_values@.subrange(0, i + 1);
                assert(s.drop_last() =~= hash_values@.subrange(0, i as int));
            }
            i = i + 1;
        }
        assert(hash_values@.subrange(0, n as int) =~= hash_values@);
        self
    }
}

impl ExaLogLog {
    /// Adds the contents of `other` to this sketch. `other` must have the same
    /// `t` and at least the `d` and the precision of this sketch.
    pub fn add_sketch(&mut self, other: &Self) -> (r: Result<&mut Self, ExaLogLogError>)
        requires
            old(self).wf(),
            other.wf(),
            add_sketch_error(old(self)@, other@) is None && !same_shape(old(self)@, other@)
                ==> add_sketch_fits(old(self)@, other@),
        ensures
            r matches Ok(s) ==> {
                &&& add_sketch_error(old(self)@, other@) is None
                &&& s@ == old(self)@.with_registers(add_sketch_values(old(self)@, other@))
                &&& s.wf()
                &&& *final(self) == *final(s)
            },
            r matches Err(e) ==> {
                &&& add_sketch_error(old(self)@, other@) == Some(e)
                &&& *final(self) == *old(self)
            },
    {
        if other.t != self.t {
            return Err(ExaLogLogError::IncompatibleT);
        }
        if other.d < self.d {
            return Err(ExaLogLogError::OtherHasSmallerD);
        }
        if other.p < self.p {
            return Err(ExaLogLogError::OtherHasSmallerPrecision);
        }
        let m = self.num_registers();
        let ghost base = self@;
        let ghost vals = add_sketch_values(base, other@);
        if other.d == self.d && other.p == self.p {
            let mut idx: usize = 0;
            while idx < m
                invariant
                    base.wf(),
                    other.wf(),
                    same_shape(base, other@),
                    m == base.num_registers(),
                    idx <= m,
                    vals == add_sketch_values(base, other@),
                    filled(base, self@, vals, idx as int),
                decreases m - idx,
            {
                proof {
                    lemma_filled_register(base, self@, vals, idx as int);
                }
                let this_r = self.get_register(idx);
                let other_r = other.get_register(idx);
                let merged_r = merge_register(this_r, other_r, self.d);
                let ghost prev = self@;
                if this_r != merged_r {
                    self.set_register(idx, merged_r);
                }
                proof {
                    lemma_filled_step(base, prev, self@, vals, idx as int);
                }
                idx = idx + 1;
            }
        } else {
            proof {
                vstd::arithmetic::power2::lemma_pow2_pos((other.p - self.p) as nat);
                assert(pow2(other.p as nat) <= usize::MAX) by (nonlinear_arith)
                    requires
                        spec_register_bit_size(other.t, other.d) * pow2(other.p as nat) + 7
                            <= usize::MAX,
                        spec_register_bit_size(other.t, other.d) >= 6,
                ;
                vstd::arithmetic::power2::lemma_pow2_adds((other.p - self.p) as nat, self.p as nat);
                vstd::arithmetic::power2::lemma_pow2_pos(self.p as nat);
                assert(pow2((other.p - self.p) as nat) <= pow2(other.p as nat)) by (nonlinear_arith)
                    requires
                        pow2(other.p as nat) == pow2((other.p - self.p) as nat) * pow2(self.p as nat),
                        pow2(self.p as nat) >= 1,
                        pow2((other.p - self.p) as nat) >= 1,
                ;
                lemma_one_shl_usize((other.p - self.p) as u32);
                vstd::arithmetic::power2::lemma2_to64();
                if other.p - self.p < 24 {
                    vstd::arithmetic::power2::lemma_pow2_strictly_increases(
                        (other.p - self.p) as nat,
                        24,
                    );
                }
            }
            let max_sub_index = 1usize << (other.p - self.p);
            let downsize = DownsizeParams {
                t: self.t,
                from_d: other.d,
                to_d: self.d,
                from_p: other.p,
                to_p: self.p,
                threshold_u: compute_downsize_threshold_u(self.t, other.p),
            };
            let ghost prm = downsize_params_of(base, other@);
            assert(downsize == prm);
            let mut register_index: usize = 0;
            while register_index < m
                invariant
                    base.wf(),
                    other.wf(),
                    add_sketch_error(base, other@) is None,
                    !same_shape(base, other@),
                    add_sketch_fits(base, other@),
                    m == base.num_registers(),
                    max_sub_index == pow2((other@.p - base.p) as nat),
                    pow2(other@.p as nat) == pow2((other@.p - base.p) as nat) * pow2(base.p as nat),
                    pow2(other@.p as nat) <= usize::MAX,
                    1 <= pow2((other@.p - base.p) as nat) <= 0x100_0000,
                    register_index <= m,
                    downsize == prm,
                    prm == downsize_params_of(base, other@),
                    vals == add_sketch_values(base, other@),
                    filled(base, self@, vals, register_index as int),
                decreases m - register_index,
            {
                proof {
                    lemma_register_level_below(other@, register_index as int);
                    assert(0 <= register_index + 0 * pow2(base.p as nat));
                    assert(downsize_fits(
                        other@.register(register_index + 0 * pow2(base.p as nat)),
                        0u32,
                        prm,
                    ));
                    let sh: u32 = (other@.p - base.p) as u32;
                    crate::downsize::lemma_u32_facts(0, sh, 0, 0, 0);
                    assert(register_index < pow2(other@.p as nat)) by (nonlinear_arith)
                        requires
                            register_index < pow2(base.p as nat),
                            pow2(other@.p as nat) == pow2((other@.p - base.p) as nat) * pow2(
                                base.p as nat,
                            ),
                            pow2((other@.p - base.p) as nat) >= 1,
                    ;
                }
                let mut merged_r = downsize_register(
                    other.get_register(register_index),
                    0,
                    downsize,
                );
                proof {
                    crate::register_laws::lemma_merge_empty(merged_r, base.d);
                    assert(downsized_merge(other@, register_index as int, prm, 0) == 0);
                    assert(merged_r == downsized_merge(other@, register_index as int, prm, 1));
                }
                let mut sub_index: usize = 1;
                while sub_index < max_sub_index
                    invariant
                        base.wf(),
                        other.wf(),
                        add_sketch_error(base, other@) is None,
                        add_sketch_fits(base, other@),
                        m == base.num_registers(),
                        register_index < m,
                        max_sub_index == pow2((other@.p - base.p) as nat),
                        pow2(other@.p as nat) == pow2((other@.p - base.p) as nat) * pow2(
                            base.p as nat,
                        ),
                        pow2(other@.p as nat) <= usize::MAX,
                        1 <= sub_index <= max_sub_index,
                        pow2((other@.p - base.p) as nat) <= 0x100_0000,
                        vals == add_sketch_values(base, other@),
                        filled(base, self@, vals, register_index as int),
                        downsize == prm,
                        prm == downsize_params_of(base, other@),
                        merged_r == downsized_merge(
                            other@,
                            register_index as int,
                            prm,
                            sub_index as nat,
                        ),
                    decreases max_sub_index - sub_index,
                {
                    proof {
                        assert(sub_index * pow2(base.p as nat) + register_index < pow2(
                            other@.p as nat,
                        )) by (nonlinear_arith)
                            requires
                                register_index < pow2(base.p as nat),
                                sub_index < pow2((other@.p - base.p) as nat),
                                pow2(other@.p as nat) == pow2((other@.p - base.p) as nat) * pow2(
                                    base.p as nat,
                                ),
                        ;
                        vstd::bits::lemma_usize_shl_is_mul(sub_index, base.p as usize);
                    }
                    let other_idx = register_index + (sub_index << self.p);
                    proof {
                        lemma_register_level_below(other@, other_idx as int);
                        assert(other_idx == register_index + sub_index * pow2(base.p as nat));
                        assert(downsize_fits(
                            other@.register(register_index + sub_index * pow2(base.p as nat)),
                            sub_index as u32,
                            prm,
                        ));
                        vstd::bits::lemma_u32_shr_is_div(
                            sub_index as u32,
                            (other@.p - base.p) as u32,
                        );
                        vstd::arithmetic::div_mod::lemma_basic_div(
                            sub_index as int,
                            pow2((other@.p - base.p) as nat) as int,
                        );
                    }
                    let other_r = downsize_register(
                        other.get_register(other_idx),
                        sub_index as u32,
                        downsize,
                    );
                    merged_r = merge_register(merged_r, other_r, self.d);
                    sub_index = sub_index + 1;
                }
                proof {
                    lemma_filled_register(base, self@, vals, register_index as int);
                }
                let ghost prev = self@;
                if merged_r != 0 {
                    let this_r = self.get_register(register_index);
                    merged_r = merge_register(merged_r, this_r, self.d);
                    if this_r != merged_r {
                        self.set_register(register_index, merged_r);
                    }
                } else {
                    proof {
                        crate::register_laws::lemma_merge_empty(prev.register(register_index as int), base.d);
                    }
                }
                proof {
                    lemma_filled_step(base, prev, self@, vals, register_index as int);
                }
                register_index = register_index + 1;
            }
        }
        proof {
            lemma_filled_done(base, self@, vals);
        }
        Ok(self)
    }
}

impl Clone for ExaLogLog {
    fn clone(&self) -> (r: Self)
        ensures
            r@ == self@,
    {
        let state = self.state.clone();
        assert(state@ =~= self.state@);
        ExaLogLog { t: self.t, d: self.d, p: self.p, state }
    }
}

impl PartialEq for ExaLogLog {
    fn eq(&self, other: &Self) -> (r: bool) {
        if self.t != other.t || self.d != other.d || self.p != other.p {
            return false;
        }
        let n = self.state.len();
        if n != other.state.len() {
            return false;
        }
        let mut i: usize = 0;
        while i < n
            invariant
                n == self.state@.len(),
                n == other.state@.len(),
                i <= n,
                forall|j: int| 0 <= j < i ==> self.state@[j] == other.state@[j],
            decreases n - i,
        {
            if self.state[i] != other.state[i] {
                return false;
            }
            i = i + 1;
        }
        assert(self.state@ =~= other.state@);
        true
    }
}

impl vstd::std_specs::cmp::PartialEqSpecImpl for ExaLogLog {
    open spec fn obeys_eq_spec() -> bool {
        true
    }

    open spec fn eq_spec(&self, other: &Self) -> bool {
        self@ == other@
    }
}

impl Eq for ExaLogLog {
}

impl ExaLogLog {
    /// A copy of this sketch with smaller `d` or precision. Where `p` and `d`
    /// are both at least those of this sketch, the result is a copy of it.
    pub fn downsize(&self, d: u32, p: u32) -> (r: Result<Self, ExaLogLogError>)
        requires
            self.wf(),
            downsize_fits_all(self@, d, p),
        ensures
            r matches Ok(s) ==> {
                &&& downsize_error(self@, d, p) is None
                &&& s@ == downsize_result(self@, d, p)
                &&& s.wf()
            },
            r matches Err(e) ==> downsize_error(self@, d, p) == Some(e),
    {
        check_d(d, self.t)?;
        check_p(p, self.t)?;
        if p >= self.p && d >= self.d {
            Ok(self.clone())
        } else {
            let mut downsized = Self::new(self.t, d, p)?;
            assert(downsized@ == empty_view(self@.t, d, p));
            downsized.add_sketch(self)?;
            Ok(downsized)
        }
    }
}

impl ExaLogLog {
    /// A sketch that holds what either sketch holds, with the smaller `d` and
    /// the smaller precision of the two.
    pub fn merge(sketch1: &Self, sketch2: &Self) -> (r: Result<Self, ExaLogLogError>)
        requires
            sketch1.wf(),
            sketch2.wf(),
            sketch1@.t == sketch2@.t ==> merge_fits(sketch1@, sketch2@),
        ensures
            r is Ok <==> sketch1@.t == sketch2@.t,
            r matches Ok(s) ==> s@ == merge_result(sketch1@, sketch2@) && s.wf(),
            r matches Err(e) ==> e == ExaLogLogError::IncompatibleT,
    {
        if sketch1.t != sketch2.t {
            return Err(ExaLogLogError::IncompatibleT);
        }
        if sketch1.p <= sketch2.p {
            if sketch1.d <= sketch2.d {
                let mut result = sketch1.clone();
                let added = result.add_sketch(sketch2);
                assert(added is Ok);
                Ok(result)
            } else {
                let dr = sketch1.downsize(sketch2.d, sketch1.p);
                assert(dr is Ok);
                let mut result = dr.unwrap();
                let added = result.add_sketch(sketch2);
                assert(added is Ok);
                Ok(result)
            }
        } else if sketch1.d >= sketch2.d {
            let mut result = sketch2.clone();
            let added = result.add_sketch(sketch1);
            assert(added is Ok);
            Ok(result)
        } else {
            let dr = sketch2.downsize(sketch1.d, sketch2.p);
            assert(dr is Ok);
            let mut result = dr.unwrap();
            let added = result.add_sketch(sketch1);
            assert(added is Ok);
            Ok(result)
        }
    }
}

/// The precision that a state of `len` bytes has with registers of `6 + t + d` bits.
pub open spec fn wrap_precision_fits(t: u32, d: u32, p: u32, len: nat) -> bool {
    crate::params::valid_p(p, t) && spec_state_len_bytes(t, d, p) == len
}

/// `2^a <= 2^b` for `a <= b`.
pub proof fn lemma_pow2_le(a: nat, b: nat)
    requires
        a <= b,
    ensures
        pow2(a) <= pow2(b),
{
    if a < b {
        vstd::arithmetic::power2::lemma_pow2_strictly_increases(a, b);
    }
}

/// `m` lies in `[2^q, 2^(q+1))` for `q = 63 - leading_zeros(m)`.
proof fn lemma_log2_of(m: u64)
    requires
        m >= 1,
    ensures
        u64_leading_zeros(m) < 64,
        pow2((63 - u64_leading_zeros(m)) as nat) <= m < pow2((64 - u64_leading_zeros(m)) as nat),
{
    vstd::std_specs::bits::axiom_u64_leading_zeros(m);
    let z = u64_leading_zeros(m);
    assert(z < 64);
    crate::token::lemma_top_of_leading_zeros(m);
    let q = (63 - z) as u64;
    vstd::bits::lemma_u64_shr_is_div(m, q);
    vstd::arithmetic::power2::lemma_pow2_pos(q as nat);
    vstd::arithmetic::power2::lemma_pow2_unfold((q + 1) as nat);
    let pq = pow2(q as nat) as int;
    assert(m as int / pq == 1);
    assert(pq <= m < 2 * pq) by (nonlinear_arith)
        requires
            m as int / pq == 1,
            pq > 0,
    ;
}

/// Where `len` is the state length of precision `p`, the number of registers
/// that fit in `len` bytes lies in `[2^p, 2^(p+1))`.
proof fn lemma_wrap_registers(t: u32, d: u32, p: u32, len: int, m: int)
    requires
        valid_params(t, d, p),
        len == spec_state_len_bytes(t, d, p),
        m == (len * 8) / spec_register_bit_size(t, d),
    ensures
        pow2(p as nat) <= m < pow2((p + 1) as nat),
{
    let w = spec_register_bit_size(t, d);
    let n = pow2(p as nat) as int;
    vstd::arithmetic::power2::lemma_pow2_unfold((p + 1) as nat);
    vstd::arithmetic::power2::lemma2_to64();
    assert(n >= 4) by {
        if p > 2 {
            vstd::arithmetic::power2::lemma_pow2_strictly_increases(2, p as nat);
        }
    }
    assert(w * n <= 8 * len <= w * n + 7) by (nonlinear_arith)
        requires
            len == (w * n + 7) / 8,
            w * n >= 0,
    ;
    assert(n <= m <= n + 1) by (nonlinear_arith)
        requires
            w * n <= 8 * len <= w * n + 7,
            m == (len * 8) / w,
            w >= 6,
            n >= 4,
    ;
}

/// The state of a well-formed sketch fits its own precision and no other, so
/// wrapping it with the sketch's `t` and `d` gives the sketch back.
pub proof fn law_wrap_own_state(v: SketchView)
    requires
        v.wf(),
    ensures
        wrap_precision_fits(v.t, v.d, v.p, v.state.len()),
        forall|q: u32| #[trigger] wrap_precision_fits(v.t, v.d, q, v.state.len()) ==> q == v.p,
{
    let len = v.state.len();
    let m: int = (len as int * 8) / spec_register_bit_size(v.t, v.d);
    lemma_wrap_registers(v.t, v.d, v.p, len as int, m);
    assert forall|q: u32| #[trigger] wrap_precision_fits(v.t, v.d, q, len) implies q == v.p by {
        lemma_wrap_registers(v.t, v.d, q, len as int, m);
        if q < v.p {
            lemma_pow2_le((q + 1) as nat, v.p as nat);
        } else if q > v.p {
            lemma_pow2_le((v.p + 1) as nat, q as nat);
        }
    }
}

impl ExaLogLog {
    /// A sketch over an existing state; the precision follows from the length.
    pub fn wrap(t: u32, d: u32, state: Vec<u8>) -> (r: Result<Self, ExaLogLogError>)
        requires
            state@.len() * 8 + 7 <= usize::MAX,
        ensures
            !crate::params::valid_t(t) ==> r == Err::<Self, ExaLogLogError>(ExaLogLogError::InvalidT),
            crate::params::valid_t(t) && !crate::params::valid_d(d, t) ==> r == Err::<
                Self,
                ExaLogLogError,
            >(ExaLogLogError::InvalidD),
            crate::params::valid_t(t) && crate::params::valid_d(d, t) ==> (r is Ok <==> exists|
                p: u32,
            | wrap_precision_fits(t, d, p, state@.len())),
            r matches Ok(s) ==> {
                &&& s.wf()
                &&& s@.t == t
                &&& s@.d == d
                &&& wrap_precision_fits(t, d, s@.p, state@.len())
                &&& s@.state == state@
            },
            crate::params::valid_t(t) && crate::params::valid_d(d, t) && r is Err ==> r == Err::<
                Self,
                ExaLogLogError,
            >(ExaLogLogError::InvalidStateLength),
    {
        check_t(t)?;
        check_d(d, t)?;
        let width = register_bit_size(t, d) as usize;
        if state.len() == 0 {
            proof {
                assert forall|p: u32| !wrap_precision_fits(t, d, p, state@.len()) by {
                    if wrap_precision_fits(t, d, p, state@.len()) {
                        vstd::arithmetic::power2::lemma_pow2_pos(p as nat);
                        assert(spec_register_bit_size(t, d) * pow2(p as nat) >= 6) by (nonlinear_arith)
                            requires
                                spec_register_bit_size(t, d) >= 6,
                                pow2(p as nat) >= 1,
                        ;
                    }
                }
            }
            return Err(ExaLogLogError::InvalidStateLength);
        }
        let m = (state.len() * 8) / width;
        if m == 0 {
            proof {
                assert forall|p: u32| !wrap_precision_fits(t, d, p, state@.len()) by {
                    if wrap_precision_fits(t, d, p, state@.len()) {
                        lemma_wrap_registers(t, d, p, state@.len() as int, m as int);
                        vstd::arithmetic::power2::lemma_pow2_pos(p as nat);
                    }
                }
            }
            return Err(ExaLogLogError::InvalidStateLength);
        }
        proof {
            lemma_log2_of(m as u64);
        }
        let p = 63 - (m as u64).leading_zeros();
        let ghost len = state@.len();
        proof {
            assert forall|q: u32| wrap_precision_fits(t, d, q, len) implies q == p by {
                lemma_wrap_registers(t, d, q, len as int, m as int);
                if q < p {
                    lemma_pow2_le((q + 1) as nat, p as nat);
                } else if q > p {
                    lemma_pow2_le((p + 1) as nat, q as nat);
                }
            }
        }
        if p < MIN_P || p > max_p(t) {
            return Err(ExaLogLogError::InvalidStateLength);
        }
        proof {
            let w = spec_register_bit_size(t, d);
            assert(w * pow2(p as nat) <= m * w) by (nonlinear_arith)
                requires
                    pow2(p as nat) <= m,
                    w >= 0,
            ;
            assert(m * w <= len * 8) by (nonlinear_arith)
                requires
                    m == (len as int * 8) / w,
                    w > 0,
            ;
        }
        if state_len_bytes(t, d, p) != state.len() {
            return Err(ExaLogLogError::InvalidStateLength);
        }
        assert(wrap_precision_fits(t, d, p, len));
        Ok(Self { t, d, p, state })
    }

    /// The 32-bit token of a hash: its low `V` bits and its leading zeros.
    pub fn compute_token(hash_value: u64) -> (r: u32)
        ensures
            r == crate::token::spec_compute_token(hash_value, V),
            r & 0x3f == u64_leading_zeros(hash_value | 0x3ff_ffff) as u32,
            (r >> 6) as u64 == hash_value % 0x400_0000,
    {
        proof {
            crate::token::law_token_fields(hash_value);
        }
        crate::token::compute_token(hash_value, V)
    }

    /// Adds the hash that a token stands for.
    pub fn add_token(&mut self, token: u32) -> (r: &mut Self)
        requires
            old(self).wf(),
        ensures
            r@ == old(self)@.insert_hash(crate::token::spec_reconstruct_hash(token, V)),
            r.wf(),
            *final(self) == *final(r),
    {
        self.add(crate::token::reconstruct_hash(token, V))
    }
}

} // verus!
