//! What holds of sketches across operations: insertion order and repetition
//! do not matter, and merging sketches is inserting what the other holds.

use vstd::prelude::*;
use vstd::arithmetic::power2::pow2;
use crate::bits::{bit_of, data_bit, lemma_data_ext};
use crate::packed::{lemma_read_after_write, lemma_read_bits, lemma_write_bits, read_bits, write_bits};
use crate::params::valid_params;
use crate::register::{insert_register, spec_merge_register};
use crate::register_laws::{
    fits_level, lemma_insert_commutes, lemma_insert_holds, lemma_insert_idempotent,
    lemma_insert_valid, lemma_merge_empty, lemma_merge_holds, lemma_merge_insert,
    valid_register,
};
use crate::sketch::{
    add_sketch_fits, add_sketch_error, downsize_error, downsize_fits_all, downsize_result,
    merge_fits, merge_result, state_fits, add_sketch_values, add_view, downsize_params_of, downsized_merge, empty_view, hash_index,
    hash_level, lemma_bit_in_register, lemma_register_in_state, lemma_with_registers_bits,
    same_shape, SketchView,
};
use crate::downsize::{downsize_params_ok, downsize_shift, spec_downsize_register, DownsizeParams};
use crate::downsize_laws::{
    down_level, lemma_downsize_insert, lemma_downsize_room, lemma_downsize_valid,
    lemma_downsize_zero, lemma_down_level_fits, lemma_hash_down, max_level, params_between,
    downsize_exact,
};
use crate::register_laws::{lemma_merge_commutes, lemma_merge_valid};

verus! {

/// Every register of `v` is valid.
pub open spec fn all_valid(v: SketchView) -> bool {
    forall|i: int| 0 <= i < v.num_registers() ==> #[trigger] valid_register(v.register(i), v.d)
}

/// The largest value of a register fits in `6 + t` bits.
pub open spec fn level_in_width(r: u64, t: u32, d: u32) -> bool {
    (r >> d) >> ((t + 6) as u64) == 0
}

proof fn lemma_level_parts(nlz: u64, h: u64, t: u32, d: u32)
    requires
        t <= 24,
        nlz <= 62,
        d + t <= 58,
    ensures
        ((((nlz << t) + (h & (((1u64 << t) - 1) as u64))) + 1) as u64) >= 1,
        (((((nlz << t) + (h & (((1u64 << t) - 1) as u64))) + 1) as u64) << d) >> d == ((((nlz
            << t) + (h & (((1u64 << t) - 1) as u64))) + 1) as u64),
        ((((nlz << t) + (h & (((1u64 << t) - 1) as u64))) + 1) as u64) >> ((t + 6) as u64) == 0,
{
    crate::sketch::lemma_hash_facts(h, nlz, t, 0, d);
}

/// The update value of a hash is positive, fits a register, and has at most
/// `6 + t` bits.
pub proof fn lemma_hash_level_fits(h: u64, t: u32, d: u32, p: u32)
    requires
        valid_params(t, d, p),
    ensures
        hash_level(h, t, p) >= 1,
        fits_level(hash_level(h, t, p), d),
        hash_level(h, t, p) >> ((t + 6) as u64) == 0,
{
    crate::sketch::lemma_level_nlz(h, t, p);
    let nlz = vstd::std_specs::bits::u64_leading_zeros(h | crate::sketch::hash_mask(t, p));
    lemma_level_parts(nlz as u64, h, t, d);
}

/// Facts about the width of registers, for the bit-vector solver.
pub proof fn lemma_width_facts(r: u64, a: u64, b: u64, c: u64, t: u32, d: u32)
    by (bit_vector)
    requires
        t <= 24,
        d + t <= 58,
    ensures
        6 + t + d < 64 ==> r >> ((6 + t + d) as u64) == 0 ==> (r >> d) >> ((t + 6) as u64) == 0,
        6 + t + d == 64 ==> (r >> d) >> ((t + 6) as u64) == 0,
        (r >> d) >> ((t + 6) as u64) == 0 ==> 6 + t + d < 64 ==> r >> ((6 + t + d) as u64) == 0,
        (6 + t + d < 64 ==> r >> ((6 + t + d) as u64) == 0) ==> r >> d < 0x1_0000_0000,
        a >> c == 0 && b >> c == 0 ==> (if a > b {
            a
        } else {
            b
        }) >> c == 0,
        0u64 >> d == 0,
{
}

proof fn lemma_width_bound(r: u64, t: u32, d: u32)
    requires
        t <= 24,
        d + t <= 58,
        6 + t + d < 64 ==> r >> ((6 + t + d) as u64) == 0,
    ensures
        (r >> d) >> ((t + 6) as u64) == 0,
{
    lemma_width_facts(r, 0, 0, 0, t, d);
}

proof fn lemma_width_from_level(r: u64, t: u32, d: u32)
    requires
        t <= 24,
        d + t <= 58,
        (r >> d) >> ((t + 6) as u64) == 0,
    ensures
        6 + t + d < 64 ==> r >> ((6 + t + d) as u64) == 0,
{
    lemma_width_facts(r, 0, 0, 0, t, d);
}

/// A register of a well-formed sketch has a largest value of at most `6 + t` bits.
pub proof fn lemma_register_level(v: SketchView, i: int)
    requires
        v.wf(),
    ensures
        level_in_width(v.register(i), v.t, v.d),
{
    lemma_read_bits(v.state, i * v.width(), v.width());
    lemma_width_bound(v.register(i), v.t, v.d);
}

proof fn lemma_max_level(a: u64, b: u64, c: u64)
    requires
        a >> c == 0,
        b >> c == 0,
    ensures
        (if a > b {
            a
        } else {
            b
        }) >> c == 0,
{
    lemma_width_facts(0, a, b, c, 0, 0);
}

/// Inserting into a register of a sketch keeps its largest value within `6 + t` bits.
pub proof fn lemma_insert_level(r: u64, k: u64, t: u32, d: u32)
    requires
        t <= 24,
        d + t <= 58,
        level_in_width(r, t, d),
        k >> ((t + 6) as u64) == 0,
        fits_level(k, d),
    ensures
        level_in_width(insert_register(r, k, d), t, d),
{
    lemma_insert_holds(r, k, d);
    lemma_max_level(k, r >> d, (t + 6) as u64);
}

/// Merging two valid registers keeps the largest value within `6 + t` bits.
pub proof fn lemma_merge_level(r1: u64, r2: u64, t: u32, d: u32)
    requires
        t <= 24,
        d + t <= 58,
        level_in_width(r1, t, d),
        level_in_width(r2, t, d),
        valid_register(r1, d),
        valid_register(r2, d),
    ensures
        level_in_width(spec_merge_register(r1, r2, d), t, d),
{
    lemma_merge_holds(r1, r2, d);
    lemma_max_level(r1 >> d, r2 >> d, (t + 6) as u64);
}

/// Two sketches with the same parameters, registers and bits beyond the
/// registers are equal.
pub proof fn lemma_view_ext(a: SketchView, b: SketchView)
    requires
        a.wf(),
        b.wf(),
        a.t == b.t,
        a.d == b.d,
        a.p == b.p,
        forall|i: int| 0 <= i < a.num_registers() ==> #[trigger] a.register(i) == b.register(i),
        forall|x: int|
            a.num_registers() * a.width() <= x ==> #[trigger] data_bit(a.state, x) == data_bit(
                b.state,
                x,
            ),
    ensures
        a == b,
{
    assert forall|x: int| 0 <= x < 8 * a.state.len() implies #[trigger] data_bit(a.state, x)
        == data_bit(b.state, x) by {
        if x < a.num_registers() * a.width() {
            lemma_bit_in_register(a, x);
            lemma_bit_in_register(b, x);
            assert(a.register(x / (a.width() as int)) == b.register(x / (a.width() as int)));
        }
    }
    lemma_data_ext(a.state, b.state);
}

/// Adding a hash changes only the register it picks, and keeps the sketch
/// well-formed.
pub proof fn lemma_insert_hash_registers(v: SketchView, h: u64)
    requires
        v.wf(),
    ensures
        v.insert_hash(h).wf(),
        v.insert_hash(h).t == v.t && v.insert_hash(h).d == v.d && v.insert_hash(h).p == v.p,
        forall|i: int|
            0 <= i < v.num_registers() ==> #[trigger] v.insert_hash(h).register(i) == (if i
                == hash_index(h, v.t, v.p) {
                insert_register(v.register(i), hash_level(h, v.t, v.p), v.d)
            } else {
                v.register(i)
            }),
        forall|x: int|
            v.num_registers() * v.width() <= x ==> #[trigger] data_bit(v.insert_hash(h).state, x)
                == data_bit(v.state, x),
{
    let w = v.width();
    let j = hash_index(h, v.t, v.p);
    let k = hash_level(h, v.t, v.p);
    let nv = insert_register(v.register(j), k, v.d);
    crate::sketch::lemma_hash_index_bound(h, v.t, v.p);
    lemma_register_in_state(v, j);
    lemma_hash_level_fits(h, v.t, v.d, v.p);
    lemma_register_level(v, j);
    lemma_insert_level(v.register(j), k, v.t, v.d);
    lemma_width_from_level(nv, v.t, v.d);
    lemma_write_bits(v.state, j * w, w, nv);
    assert forall|i: int| 0 <= i < v.num_registers() implies #[trigger] v.insert_hash(h).register(
        i,
    ) == (if i == j {
        nv
    } else {
        v.register(i)
    }) by {
        lemma_register_in_state(v, i);
        if i != j {
            assert(i * w + w <= j * w || j * w + w <= i * w) by (nonlinear_arith)
                requires
                    i != j,
                    w >= 0,
            ;
        }
        lemma_read_after_write(v.state, j * w, w, nv, i * w, w);
    }
    assert forall|x: int| v.num_registers() * v.width() <= x implies #[trigger] data_bit(
        v.insert_hash(h).state,
        x,
    ) == data_bit(v.state, x) by {
        assert(j * w + w <= v.num_registers() * w) by (nonlinear_arith)
            requires
                0 <= j < v.num_registers(),
                w >= 0,
        ;
    }
}

/// The registers of a sketch whose registers were all replaced.
pub proof fn lemma_with_registers_registers(v: SketchView, vals: Seq<u64>)
    requires
        v.wf(),
        vals.len() == v.num_registers(),
        forall|i: int|
            0 <= i < v.num_registers() ==> #[trigger] level_in_width(vals[i], v.t, v.d),
    ensures
        v.with_registers(vals).wf(),
        forall|i: int|
            0 <= i < v.num_registers() ==> #[trigger] v.with_registers(vals).register(i) == vals[i],
        forall|x: int|
            v.num_registers() * v.width() <= x ==> #[trigger] data_bit(
                v.with_registers(vals).state,
                x,
            ) == data_bit(v.state, x),
{
    let nv = v.with_registers(vals);
    let w = v.width();
    lemma_with_registers_bits(v, vals);
    assert forall|i: int| 0 <= i < v.num_registers() implies #[trigger] nv.register(i)
        == vals[i] by {
        lemma_register_in_state(v, i);
        lemma_read_bits(nv.state, i * w, w);
        assert(level_in_width(vals[i], v.t, v.d));
        lemma_width_from_level(vals[i], v.t, v.d);
        assert forall|j: int| 0 <= j < 64 implies #[trigger] bit_of(nv.register(i), j) == bit_of(
            vals[i],
            j,
        ) by {
            if j < w {
                let b = i * w + j;
                assert(i * w + j < v.num_registers() * w) by (nonlinear_arith)
                    requires
                        0 <= i < v.num_registers(),
                        0 <= j < w,
                ;
                assert(b / (w as int) == i && b % (w as int) == j) by (nonlinear_arith)
                    requires
                        b == i * w + j,
                        0 <= j < w,
                        0 <= i,
                ;
            } else {
                crate::packed::lemma_high_bit_clear(vals[i], w as u64, j as u64);
            }
        }
        crate::bits::lemma_bits_ext(nv.register(i), vals[i]);
    }
}

/// The order in which two hashes are added does not matter.
pub proof fn law_insert_hash_commutes(v: SketchView, a: u64, b: u64)
    requires
        v.wf(),
    ensures
        v.insert_hash(a).insert_hash(b) == v.insert_hash(b).insert_hash(a),
{
    let va = v.insert_hash(a);
    let vb = v.insert_hash(b);
    let x = va.insert_hash(b);
    let y = vb.insert_hash(a);
    lemma_insert_hash_registers(v, a);
    lemma_insert_hash_registers(v, b);
    lemma_insert_hash_registers(va, b);
    lemma_insert_hash_registers(vb, a);
    lemma_hash_level_fits(a, v.t, v.d, v.p);
    lemma_hash_level_fits(b, v.t, v.d, v.p);
    assert forall|i: int| 0 <= i < x.num_registers() implies #[trigger] x.register(i)
        == y.register(i) by {
        lemma_insert_commutes(v.register(i), hash_level(a, v.t, v.p), hash_level(b, v.t, v.p), v.d);
    }
    lemma_view_ext(x, y);
}

/// Adding a hash a second time changes nothing.
pub proof fn law_insert_hash_idempotent(v: SketchView, a: u64)
    requires
        v.wf(),
    ensures
        v.insert_hash(a).insert_hash(a) == v.insert_hash(a),
{
    let va = v.insert_hash(a);
    let x = va.insert_hash(a);
    lemma_insert_hash_registers(v, a);
    lemma_insert_hash_registers(va, a);
    lemma_hash_level_fits(a, v.t, v.d, v.p);
    assert forall|i: int| 0 <= i < x.num_registers() implies #[trigger] x.register(i)
        == va.register(i) by {
        lemma_insert_idempotent(v.register(i), hash_level(a, v.t, v.p), v.d);
    }
    lemma_view_ext(x, va);
}

/// Adding hashes keeps a sketch well-formed with its parameters.
pub proof fn lemma_insert_hashes_wf(v: SketchView, hs: Seq<u64>)
    requires
        v.wf(),
    ensures
        v.insert_hashes(hs).wf(),
        v.insert_hashes(hs).t == v.t,
        v.insert_hashes(hs).d == v.d,
        v.insert_hashes(hs).p == v.p,
    decreases hs.len(),
{
    if hs.len() > 0 {
        lemma_insert_hashes_wf(v, hs.drop_last());
        lemma_insert_hash_registers(v.insert_hashes(hs.drop_last()), hs.last());
    }
}

/// Adding all of `a` and then all of `b` is adding `a + b`.
pub proof fn lemma_insert_hashes_concat(v: SketchView, a: Seq<u64>, b: Seq<u64>)
    ensures
        v.insert_hashes(a + b) == v.insert_hashes(a).insert_hashes(b),
    decreases b.len(),
{
    if b.len() == 0 {
        assert(a + b =~= a);
    } else {
        assert((a + b).drop_last() =~= a + b.drop_last());
        assert((a + b).last() == b.last());
        lemma_insert_hashes_concat(v, a, b.drop_last());
    }
}

/// Valid registers stay valid when hashes are added.
pub proof fn lemma_insert_hash_valid(v: SketchView, h: u64)
    requires
        v.wf(),
        all_valid(v),
    ensures
        all_valid(v.insert_hash(h)),
{
    lemma_insert_hash_registers(v, h);
    lemma_hash_level_fits(h, v.t, v.d, v.p);
    assert forall|i: int| 0 <= i < v.num_registers() implies #[trigger] valid_register(
        v.insert_hash(h).register(i),
        v.d,
    ) by {
        assert(valid_register(v.register(i), v.d));
        if i == hash_index(h, v.t, v.p) {
            lemma_insert_valid(v.register(i), hash_level(h, v.t, v.p), v.d);
        }
    }
}

/// Valid registers stay valid when hashes are added.
pub proof fn lemma_insert_hashes_valid(v: SketchView, hs: Seq<u64>)
    requires
        v.wf(),
        all_valid(v),
    ensures
        all_valid(v.insert_hashes(hs)),
    decreases hs.len(),
{
    if hs.len() > 0 {
        lemma_insert_hashes_valid(v, hs.drop_last());
        lemma_insert_hashes_wf(v, hs.drop_last());
        lemma_insert_hash_valid(v.insert_hashes(hs.drop_last()), hs.last());
    }
}

proof fn lemma_zero_bits_read(off: int, w: nat, n: nat)
    requires
        w <= 64,
    ensures
        read_bits(Seq::new(n, |i: int| 0u8), off, w) == 0,
{
    let z = Seq::new(n, |i: int| 0u8);
    lemma_read_bits(z, off, w);
    assert forall|j: int| 0 <= j < 64 implies #[trigger] bit_of(read_bits(z, off, w), j) == bit_of(
        0,
        j,
    ) by {
        crate::bits::lemma_zero_bits(j as u64);
        if 0 <= off + j < 8 * n {
            crate::bits::lemma_zero_byte_bits(((off + j) % 8) as u8);
        }
    }
    crate::bits::lemma_bits_ext(read_bits(z, off, w), 0);
}

/// A new sketch is well-formed, and all its registers are zero and valid.
pub proof fn lemma_empty_view(t: u32, d: u32, p: u32)
    requires
        valid_params(t, d, p),
        crate::sketch::state_fits(t, d, p),
    ensures
        empty_view(t, d, p).wf(),
        all_valid(empty_view(t, d, p)),
        forall|i: int| #[trigger] empty_view(t, d, p).register(i) == 0,
{
    let e = empty_view(t, d, p);
    assert forall|i: int| #[trigger] e.register(i) == 0 by {
        lemma_zero_bits_read(i * e.width(), e.width(), e.state.len());
    }
    assert forall|i: int| 0 <= i < e.num_registers() implies #[trigger] valid_register(
        e.register(i),
        d,
    ) by {
        assert(e.register(i) == 0);
        crate::register_laws::lemma_zero_shift(d);
    }
}

/// Adding a sketch built from `b` to a sketch of the same shape is adding the
/// hashes of `b` one by one.
pub proof fn law_add_inserted(x: SketchView, b: Seq<u64>)
    requires
        x.wf(),
        all_valid(x),
    ensures
        add_view(x, empty_view(x.t, x.d, x.p).insert_hashes(b)) == x.insert_hashes(b),
    decreases b.len(),
{
    let e = empty_view(x.t, x.d, x.p);
    lemma_empty_view(x.t, x.d, x.p);
    let sb = e.insert_hashes(b);
    lemma_insert_hashes_wf(e, b);
    lemma_insert_hashes_valid(e, b);
    assert(same_shape(x, sb));
    let vals = add_sketch_values(x, sb);
    assert forall|i: int| 0 <= i < x.num_registers() implies #[trigger] level_in_width(
        vals[i],
        x.t,
        x.d,
    ) by {
        lemma_register_level(x, i);
        lemma_register_level(sb, i);
        lemma_merge_level(x.register(i), sb.register(i), x.t, x.d);
    }
    lemma_with_registers_registers(x, vals);
    let lhs = add_view(x, sb);
    if b.len() == 0 {
        assert forall|i: int| 0 <= i < x.num_registers() implies #[trigger] lhs.register(i)
            == x.register(i) by {
            lemma_merge_empty(x.register(i), x.d);
        }
        lemma_view_ext(lhs, x);
    } else {
        let b1 = b.drop_last();
        let h = b.last();
        let sb1 = e.insert_hashes(b1);
        law_add_inserted(x, b1);
        lemma_insert_hashes_wf(e, b1);
        lemma_insert_hashes_valid(e, b1);
        lemma_insert_hash_registers(sb1, h);
        let mid = add_view(x, sb1);
        let vals1 = add_sketch_values(x, sb1);
        assert forall|i: int| 0 <= i < x.num_registers() implies #[trigger] level_in_width(
            vals1[i],
            x.t,
            x.d,
        ) by {
            lemma_register_level(x, i);
            lemma_register_level(sb1, i);
            lemma_merge_level(x.register(i), sb1.register(i), x.t, x.d);
        }
        lemma_with_registers_registers(x, vals1);
        assert(mid == x.insert_hashes(b1));
        lemma_insert_hashes_wf(x, b1);
        lemma_insert_hash_registers(mid, h);
        let rhs = x.insert_hashes(b);
        assert(rhs == mid.insert_hash(h));
        lemma_hash_level_fits(h, x.t, x.d, x.p);
        assert forall|i: int| 0 <= i < x.num_registers() implies #[trigger] lhs.register(i)
            == rhs.register(i) by {
            assert(valid_register(x.register(i), x.d));
            assert(valid_register(sb1.register(i), x.d));
            if i == hash_index(h, x.t, x.p) {
                lemma_merge_insert(x.register(i), sb1.register(i), hash_level(h, x.t, x.p), x.d);
            }
        }
        lemma_view_ext(lhs, rhs);
    }
}

/// Merging sketches of the same parameters, built from `a` and from `b`,
/// gives the sketch built from `a + b`.
pub proof fn law_merge_same_shape(t: u32, d: u32, p: u32, a: Seq<u64>, b: Seq<u64>)
    requires
        valid_params(t, d, p),
        crate::sketch::state_fits(t, d, p),
    ensures
        add_view(empty_view(t, d, p).insert_hashes(a), empty_view(t, d, p).insert_hashes(b))
            == empty_view(t, d, p).insert_hashes(a + b),
{
    let e = empty_view(t, d, p);
    lemma_empty_view(t, d, p);
    let sa = e.insert_hashes(a);
    lemma_insert_hashes_wf(e, a);
    lemma_insert_hashes_valid(e, a);
    law_add_inserted(sa, b);
    lemma_insert_hashes_concat(e, a, b);
}

/// Every register's largest value is one that hashes can reach.
pub open spec fn levels_bounded(v: SketchView) -> bool {
    forall|i: int|
        0 <= i < v.num_registers() ==> #[trigger] (v.register(i) >> v.d) <= max_level(v.t, v.p)
}

/// The update value of a hash is at most the largest level.
pub proof fn lemma_hash_level_max(h: u64, t: u32, d: u32, p: u32)
    requires
        valid_params(t, d, p),
    ensures
        hash_level(h, t, p) <= max_level(t, p),
{
    crate::sketch::lemma_level_nlz(h, t, p);
    let n = vstd::std_specs::bits::u64_leading_zeros(h | crate::sketch::hash_mask(t, p)) as u64;
    let low = h & crate::register::low_mask(t);
    crate::downsize_laws::lemma_level_facts(n, low, h, t);
    let q = pow2(t as nat);
    assert(n * q + q <= (65 - t - p) * q) by (nonlinear_arith)
        requires
            n <= 64 - t - p,
            q > 0,
    ;
}

/// Adding a hash keeps the levels within reach.
pub proof fn lemma_insert_hash_levels(v: SketchView, h: u64)
    requires
        v.wf(),
        levels_bounded(v),
    ensures
        levels_bounded(v.insert_hash(h)),
{
    lemma_insert_hash_registers(v, h);
    lemma_hash_level_fits(h, v.t, v.d, v.p);
    lemma_hash_level_max(h, v.t, v.d, v.p);
    assert forall|i: int| 0 <= i < v.num_registers() implies #[trigger] (v.insert_hash(h).register(
        i,
    ) >> v.d) <= max_level(v.t, v.p) by {
        assert((v.register(i) >> v.d) <= max_level(v.t, v.p));
        if i == hash_index(h, v.t, v.p) {
            lemma_insert_holds(v.register(i), hash_level(h, v.t, v.p), v.d);
        }
    }
}

/// Adding hashes keeps the levels within reach.
pub proof fn lemma_insert_hashes_levels(v: SketchView, hs: Seq<u64>)
    requires
        v.wf(),
        levels_bounded(v),
    ensures
        levels_bounded(v.insert_hashes(hs)),
    decreases hs.len(),
{
    if hs.len() > 0 {
        lemma_insert_hashes_levels(v, hs.drop_last());
        lemma_insert_hashes_wf(v, hs.drop_last());
        lemma_insert_hash_levels(v.insert_hashes(hs.drop_last()), hs.last());
    }
}

/// A sketch built from the empty sketch by adding hashes.
pub open spec fn built_from(v: SketchView) -> bool {
    v.wf() && all_valid(v) && levels_bounded(v)
}

/// The empty sketch and every sketch built from it by adding hashes.
pub proof fn lemma_built_from_hashes(t: u32, d: u32, p: u32, hs: Seq<u64>)
    requires
        valid_params(t, d, p),
        crate::sketch::state_fits(t, d, p),
    ensures
        built_from(empty_view(t, d, p)),
        built_from(empty_view(t, d, p).insert_hashes(hs)),
{
    let e = empty_view(t, d, p);
    lemma_empty_view(t, d, p);
    assert forall|i: int| 0 <= i < e.num_registers() implies #[trigger] (e.register(i) >> e.d)
        <= max_level(e.t, e.p) by {
        crate::register_laws::lemma_zero_shift(d);
        crate::downsize_laws::lemma_max_level_pos(t, p);
    }
    lemma_insert_hashes_wf(e, hs);
    lemma_insert_hashes_valid(e, hs);
    lemma_insert_hashes_levels(e, hs);
}

/// Sub-register `s` of register `i` of the smaller sketch is register
/// `i + s * 2^tp` of the larger one.
proof fn lemma_sub_register_index(i: int, s: int, tp: nat, fp: nat)
    requires
        0 <= i < pow2(tp),
        0 <= s < pow2((fp - tp) as nat),
        tp <= fp,
    ensures
        0 <= i + s * pow2(tp) < pow2(fp),
{
    vstd::arithmetic::power2::lemma_pow2_adds((fp - tp) as nat, tp);
    assert(i + s * pow2(tp) < pow2((fp - tp) as nat) * pow2(tp)) by (nonlinear_arith)
        requires
            0 <= i < pow2(tp),
            0 <= s < pow2((fp - tp) as nat),
    ;
}

proof fn lemma_sub_register_unique(i: int, s: int, i0: int, s0: int, q: int)
    requires
        0 <= i < q,
        0 <= i0 < q,
        0 <= s,
        0 <= s0,
        i + s * q == i0 + s0 * q,
    ensures
        i == i0 && s == s0,
{
    assert(i == i0 && s == s0) by (nonlinear_arith)
        requires
            0 <= i < q,
            0 <= i0 < q,
            0 <= s,
            0 <= s0,
            i + s * q == i0 + s0 * q,
    ;
}

/// The sub-register index of a merge step fits the shift's width.
proof fn lemma_sub_index_fits(s: int, fp: u32, tp: u32)
    requires
        0 <= s < pow2((fp - tp) as nat),
        tp <= fp,
        fp - tp <= 24,
    ensures
        (s as u32) >> ((fp - tp) as u32) == 0,
        (s as u32) as int == s,
{
    vstd::arithmetic::power2::lemma2_to64();
    if fp - tp < 24 {
        vstd::arithmetic::power2::lemma_pow2_strictly_increases((fp - tp) as nat, 24);
    }
    vstd::bits::lemma_u32_shr_is_div(s as u32, (fp - tp) as u32);
    vstd::arithmetic::div_mod::lemma_basic_div(s, pow2((fp - tp) as nat) as int);
}

/// The merged, moved-down sub-registers of a sketch built from hashes are
/// valid and within the smaller sketch's largest level.
pub proof fn lemma_downsized_merge_ok(
    from: SketchView,
    i: int,
    prm: DownsizeParams,
    n: nat,
    td: u32,
    tp: u32,
)
    requires
        built_from(from),
        valid_params(from.t, td, tp),
        td <= from.d,
        tp <= from.p,
        prm == params_between(from.t, from.d, from.p, td, tp),
        0 <= i < pow2(tp as nat),
        n <= pow2((from.p - tp) as nat),
    ensures
        valid_register(downsized_merge(from, i, prm, n), td),
        downsized_merge(from, i, prm, n) >> td <= max_level(from.t, tp),
    decreases n,
{
    if n == 0 {
        crate::register_laws::lemma_zero_shift(td);
        assert(0u64 >> td == 0);
        crate::downsize_laws::lemma_max_level_pos(from.t, tp);
    } else {
        lemma_downsized_merge_ok(from, i, prm, (n - 1) as nat, td, tp);
        let s = n - 1;
        lemma_sub_index_fits(s, from.p, tp);
        lemma_sub_register_index(i, s, tp as nat, from.p as nat);
        let r = from.register(i + s * pow2(tp as nat));
        assert((r >> from.d) <= max_level(from.t, from.p));
        assert(valid_register(r, from.d));
        lemma_downsize_room(r, s as u32, prm);
        lemma_downsize_valid(r, s as u32, prm);
        let a = downsized_merge(from, i, prm, (n - 1) as nat);
        let b = spec_downsize_register(r, s as u32, prm);
        lemma_merge_valid(a, b, td);
        lemma_merge_holds(a, b, td);
    }
}

/// Adding a hash to the larger sketch adds the image of its update value to
/// the merged, moved-down sub-registers of the register it picks in the
/// smaller sketch, and changes nothing elsewhere.
pub proof fn lemma_downsized_merge_insert(
    from: SketchView,
    h: u64,
    i: int,
    prm: DownsizeParams,
    n: nat,
    td: u32,
    tp: u32,
)
    requires
        built_from(from),
        valid_params(from.t, td, tp),
        td <= from.d,
        tp <= from.p,
        downsize_exact(from.t, from.p, tp),
        prm == params_between(from.t, from.d, from.p, td, tp),
        0 <= i < pow2(tp as nat),
        n <= pow2((from.p - tp) as nat),
    ensures
        ({
            let j = hash_index(h, from.t, from.p);
            let i0 = hash_index(h, from.t, tp);
            let s0 = j / (pow2(tp as nat) as int);
            let fk = down_level(
                hash_level(h, from.t, from.p) as int,
                prm.threshold_u as int,
                downsize_shift(s0 as u32, prm) as int,
            ) as u64;
            downsized_merge(from.insert_hash(h), i, prm, n) == if i == i0 && s0 < n {
                insert_register(downsized_merge(from, i, prm, n), fk, td)
            } else {
                downsized_merge(from, i, prm, n)
            }
        }),
    decreases n,
{
    let t = from.t;
    let j = hash_index(h, t, from.p);
    let i0 = hash_index(h, t, tp);
    let s0 = j / (pow2(tp as nat) as int);
    let k = hash_level(h, t, from.p);
    lemma_hash_down(h, t, from.d, from.p, td, tp);
    lemma_sub_index_fits(s0, from.p, tp);
    let fk = down_level(k as int, prm.threshold_u as int, downsize_shift(s0 as u32, prm) as int) as u64;
    let from2 = from.insert_hash(h);
    lemma_insert_hash_registers(from, h);
    if n > 0 {
        lemma_downsized_merge_insert(from, h, i, prm, (n - 1) as nat, td, tp);
        lemma_downsized_merge_ok(from, i, prm, (n - 1) as nat, td, tp);
        let s = n - 1;
        lemma_sub_index_fits(s, from.p, tp);
        lemma_sub_register_index(i, s, tp as nat, from.p as nat);
        let idx = i + s * pow2(tp as nat);
        let r = from.register(idx);
        assert((r >> from.d) <= max_level(t, from.p));
        assert(valid_register(r, from.d));
        lemma_downsize_room(r, s as u32, prm);
        lemma_downsize_valid(r, s as u32, prm);
        let a = downsized_merge(from, i, prm, (n - 1) as nat);
        let b = spec_downsize_register(r, s as u32, prm);
        lemma_hash_level_fits(h, t, from.d, from.p);
        lemma_hash_level_max(h, t, from.d, from.p);
        lemma_down_level_fits(k, s0 as u32, prm);
        if idx == j {
            lemma_sub_register_unique(i, s, i0, s0, pow2(tp as nat) as int);
            assert(from2.register(idx) == insert_register(r, k, from.d));
            lemma_insert_holds(r, k, from.d);
            lemma_downsize_room(insert_register(r, k, from.d), s as u32, prm);
            lemma_downsize_insert(r, k, s as u32, prm);
            lemma_merge_insert(a, b, fk, td);
        } else {
            assert(from2.register(idx) == r);
            if i == i0 && s0 < n - 1 {
                lemma_merge_commutes(insert_register(a, fk, td), b, td);
                lemma_merge_insert(b, a, fk, td);
                lemma_merge_commutes(b, a, td);
            } else if i == i0 && s0 == n - 1 {
                assert(idx == j);
            }
        }
    }
}

/// Adding a sketch built from hashes `b` with a larger `d` or precision to a
/// sketch built from hashes is adding those hashes one by one, wherever the
/// precision stays the same or the downsizing threshold is exact.
pub proof fn law_add_downsized(x: SketchView, fd: u32, fp: u32, b: Seq<u64>)
    requires
        built_from(x),
        valid_params(x.t, fd, fp),
        crate::sketch::state_fits(x.t, fd, fp),
        x.d <= fd,
        x.p <= fp,
        downsize_exact(x.t, fp, x.p),
    ensures
        add_view(x, empty_view(x.t, fd, fp).insert_hashes(b)) == x.insert_hashes(b),
    decreases b.len(),
{
    let t = x.t;
    let e = empty_view(t, fd, fp);
    lemma_built_from_hashes(t, fd, fp, b);
    let sb = e.insert_hashes(b);
    lemma_insert_hashes_wf(e, b);
    if same_shape(x, sb) {
        law_add_inserted(x, b);
    } else {
        let prm = params_between(t, fd, fp, x.d, x.p);
        assert(downsize_params_of(x, sb) == prm);
        let nsub = pow2((fp - x.p) as nat);
        let vals = add_sketch_values(x, sb);
        assert forall|i: int| 0 <= i < x.num_registers() implies #[trigger] level_in_width(
            vals[i],
            t,
            x.d,
        ) by {
            lemma_downsized_merge_ok(sb, i, prm, nsub, x.d, x.p);
            let dm = downsized_merge(sb, i, prm, nsub);
            lemma_register_level(x, i);
            lemma_merge_holds(dm, x.register(i), x.d);
            crate::downsize_laws::lemma_max_level_width(t, x.p, dm >> x.d);
            lemma_merge_level(dm, x.register(i), t, x.d);
        }
        lemma_with_registers_registers(x, vals);
        let lhs = add_view(x, sb);
        if b.len() == 0 {
            assert forall|i: int| 0 <= i < x.num_registers() implies #[trigger] lhs.register(i)
                == x.register(i) by {
                lemma_downsized_merge_zero(e, i, prm, nsub, x.d, x.p);
                lemma_merge_empty(x.register(i), x.d);
            }
            lemma_view_ext(lhs, x);
        } else {
            let b1 = b.drop_last();
            let h = b.last();
            let sb1 = e.insert_hashes(b1);
            law_add_downsized(x, fd, fp, b1);
            lemma_built_from_hashes(t, fd, fp, b1);
            lemma_insert_hashes_wf(e, b1);
            let mid = add_view(x, sb1);
            let vals1 = add_sketch_values(x, sb1);
            assert forall|i: int| 0 <= i < x.num_registers() implies #[trigger] level_in_width(
                vals1[i],
                t,
                x.d,
            ) by {
                lemma_downsized_merge_ok(sb1, i, prm, nsub, x.d, x.p);
                let dm = downsized_merge(sb1, i, prm, nsub);
                lemma_register_level(x, i);
                crate::downsize_laws::lemma_max_level_width(t, x.p, dm >> x.d);
                lemma_merge_level(dm, x.register(i), t, x.d);
            }
            lemma_with_registers_registers(x, vals1);
            assert(mid == x.insert_hashes(b1));
            lemma_insert_hashes_wf(x, b1);
            lemma_insert_hashes_valid(x, b1);
            lemma_insert_hash_registers(mid, h);
            let rhs = x.insert_hashes(b);
            assert(rhs == mid.insert_hash(h));
            lemma_hash_down(h, t, fd, fp, x.d, x.p);
            let i0 = hash_index(h, t, x.p);
            let j = hash_index(h, t, fp);
            let s0 = j / (pow2(x.p as nat) as int);
            let fk = down_level(
                hash_level(h, t, fp) as int,
                prm.threshold_u as int,
                downsize_shift(s0 as u32, prm) as int,
            ) as u64;
            assert(hash_level(h, t, x.p) == fk);
            lemma_hash_level_fits(h, t, x.d, x.p);
            assert forall|i: int| 0 <= i < x.num_registers() implies #[trigger] lhs.register(i)
                == rhs.register(i) by {
                lemma_downsized_merge_insert(sb1, h, i, prm, nsub, x.d, x.p);
                if i == i0 {
                    let dm = downsized_merge(sb1, i, prm, nsub);
                    lemma_downsized_merge_ok(sb1, i, prm, nsub, x.d, x.p);
                    assert(valid_register(x.register(i), x.d));
                    lemma_merge_commutes(insert_register(dm, fk, x.d), x.register(i), x.d);
                    lemma_merge_insert(x.register(i), dm, fk, x.d);
                    lemma_merge_commutes(x.register(i), dm, x.d);
                }
            }
            lemma_view_ext(lhs, rhs);
        }
    }
}

/// The moved-down sub-registers of the empty sketch merge to zero.
proof fn lemma_downsized_merge_zero(
    e: SketchView,
    i: int,
    prm: DownsizeParams,
    n: nat,
    td: u32,
    tp: u32,
)
    requires
        e == empty_view(e.t, e.d, e.p),
        valid_params(e.t, e.d, e.p),
        crate::sketch::state_fits(e.t, e.d, e.p),
        prm == params_between(e.t, e.d, e.p, td, tp),
        td <= e.d,
        tp <= e.p,
    ensures
        downsized_merge(e, i, prm, n) == 0,
    decreases n,
{
    if n > 0 {
        lemma_downsized_merge_zero(e, i, prm, (n - 1) as nat, td, tp);
        lemma_empty_view(e.t, e.d, e.p);
        let s = (n - 1) as u32;
        assert(e.register(i + (n - 1) * pow2(tp as nat)) == 0);
        lemma_downsize_zero(s, prm);
        lemma_merge_empty(0, td);
    }
}

/// A hash added first can as well be added last.
pub proof fn lemma_insert_hash_moves(v: SketchView, h: u64, xs: Seq<u64>)
    requires
        v.wf(),
    ensures
        v.insert_hash(h).insert_hashes(xs) == v.insert_hashes(xs).insert_hash(h),
    decreases xs.len(),
{
    if xs.len() > 0 {
        let xs1 = xs.drop_last();
        lemma_insert_hash_moves(v, h, xs1);
        lemma_insert_hashes_wf(v, xs1);
        law_insert_hash_commutes(v.insert_hashes(xs1), h, xs.last());
    }
}

/// The sketch built from `a + b` is the sketch built from `b + a`.
pub proof fn law_insert_hashes_swap(v: SketchView, a: Seq<u64>, b: Seq<u64>)
    requires
        v.wf(),
    ensures
        v.insert_hashes(a + b) == v.insert_hashes(b + a),
    decreases b.len(),
{
    if b.len() == 0 {
        assert(a + b =~= a);
        assert(b + a =~= a);
    } else {
        let b1 = b.drop_last();
        let y = b.last();
        law_insert_hashes_swap(v, a, b1);
        assert((a + b).drop_last() =~= a + b1);
        assert((a + b).last() == y);
        assert(b + a =~= b1 + (seq![y] + a));
        lemma_insert_hashes_concat(v, b1, seq![y] + a);
        lemma_insert_hashes_concat(v.insert_hashes(b1), seq![y], a);
        assert(seq![y].drop_last() =~= Seq::<u64>::empty());
        assert(seq![y].last() == y);
        let w = v.insert_hashes(b1);
        assert(w.insert_hashes(Seq::<u64>::empty()) == w);
        assert(w.insert_hashes(seq![y]) == w.insert_hash(y));
        lemma_insert_hashes_wf(v, b1);
        lemma_insert_hash_moves(w, y, a);
        lemma_insert_hashes_concat(v, b1, a);
    }
}

/// A smaller `d` or precision needs no more memory.
pub proof fn lemma_state_fits_smaller(t: u32, d1: u32, p1: u32, d2: u32, p2: u32)
    requires
        state_fits(t, d1, p1),
        d2 <= d1,
        p2 <= p1,
    ensures
        state_fits(t, d2, p2),
{
    crate::sketch::lemma_pow2_le(p2 as nat, p1 as nat);
    assert((6 + t + d2) * pow2(p2 as nat) <= (6 + t + d1) * pow2(p1 as nat)) by (nonlinear_arith)
        requires
            d2 <= d1,
            pow2(p2 as nat) <= pow2(p1 as nat),
            pow2(p2 as nat) >= 0,
    ;
}

/// Every register of a sketch whose largest values stay within the largest
/// level can be moved down to a sketch with smaller parameters.
pub proof fn lemma_add_sketch_fits(to: SketchView, from: SketchView)
    requires
        from.wf(),
        levels_bounded(from),
        valid_params(to.t, to.d, to.p),
        to.t == from.t,
        to.d <= from.d,
        to.p <= from.p,
    ensures
        add_sketch_fits(to, from),
{
    let prm = downsize_params_of(to, from);
    assert forall|i: int, s: int|
        0 <= i < to.num_registers() && 0 <= s < pow2((from.p - to.p) as nat) implies #[trigger]
        crate::downsize::downsize_fits(
        from.register(i + s * pow2(to.p as nat)),
        s as u32,
        prm,
    ) by {
        lemma_sub_index_fits(s, from.p, to.p);
        lemma_sub_register_index(i, s, to.p as nat, from.p as nat);
        let r = from.register(i + s * pow2(to.p as nat));
        assert((r >> from.d) <= max_level(from.t, from.p));
        lemma_downsize_room(r, s as u32, prm);
        crate::downsize_laws::lemma_downsize_holds(r, s as u32, prm);
    }
}

/// Downsizing a sketch built from hashes gives the sketch built from the same
/// hashes with the smaller parameters, wherever the precision stays the same or
/// the threshold is exact.
pub proof fn law_downsize(t: u32, fd: u32, fp: u32, td: u32, tp: u32, hs: Seq<u64>)
    requires
        valid_params(t, fd, fp),
        valid_params(t, td, tp),
        state_fits(t, fd, fp),
        td <= fd,
        tp <= fp,
        downsize_exact(t, fp, tp),
    ensures
        downsize_fits_all(empty_view(t, fd, fp).insert_hashes(hs), td, tp),
        downsize_error(empty_view(t, fd, fp).insert_hashes(hs), td, tp) is None,
        downsize_result(empty_view(t, fd, fp).insert_hashes(hs), td, tp) == empty_view(
            t,
            td,
            tp,
        ).insert_hashes(hs),
{
    let e = empty_view(t, fd, fp);
    let sv = e.insert_hashes(hs);
    lemma_built_from_hashes(t, fd, fp, hs);
    lemma_insert_hashes_wf(e, hs);
    lemma_state_fits_smaller(t, fd, fp, td, tp);
    lemma_built_from_hashes(t, td, tp, Seq::empty());
    let small = empty_view(t, td, tp);
    lemma_add_sketch_fits(small, sv);
    if !(tp >= fp && td >= fd) {
        law_add_downsized(small, fd, fp, hs);
    }
}

/// Merging sketches built from `a` and from `b` gives the sketch built from
/// `a + b` with the smaller `d` and the smaller precision of the two,
/// wherever moving from the larger precision to the smaller is exact.
pub proof fn law_merge(t: u32, d1: u32, p1: u32, d2: u32, p2: u32, a: Seq<u64>, b: Seq<u64>)
    requires
        valid_params(t, d1, p1),
        valid_params(t, d2, p2),
        state_fits(t, d1, p1),
        state_fits(t, d2, p2),
        if p1 <= p2 {
            downsize_exact(t, p2, p1)
        } else {
            downsize_exact(t, p1, p2)
        },
    ensures
        merge_fits(empty_view(t, d1, p1).insert_hashes(a), empty_view(t, d2, p2).insert_hashes(b)),
        merge_result(empty_view(t, d1, p1).insert_hashes(a), empty_view(t, d2, p2).insert_hashes(b))
            == empty_view(
            t,
            if d1 <= d2 {
                d1
            } else {
                d2
            },
            if p1 <= p2 {
                p1
            } else {
                p2
            },
        ).insert_hashes(a + b),
{
    let s1 = empty_view(t, d1, p1).insert_hashes(a);
    let s2 = empty_view(t, d2, p2).insert_hashes(b);
    lemma_built_from_hashes(t, d1, p1, a);
    lemma_built_from_hashes(t, d2, p2, b);
    lemma_insert_hashes_wf(empty_view(t, d1, p1), a);
    lemma_insert_hashes_wf(empty_view(t, d2, p2), b);
    if p1 <= p2 {
        if d1 <= d2 {
            lemma_add_sketch_fits(s1, s2);
            law_add_downsized(s1, d2, p2, b);
            lemma_insert_hashes_concat(empty_view(t, d1, p1), a, b);
        } else {
            law_downsize(t, d1, p1, d2, p1, a);
            lemma_state_fits_smaller(t, d1, p1, d2, p1);
            let x = empty_view(t, d2, p1).insert_hashes(a);
            lemma_built_from_hashes(t, d2, p1, a);
            lemma_insert_hashes_wf(empty_view(t, d2, p1), a);
            lemma_add_sketch_fits(x, s2);
            law_add_downsized(x, d2, p2, b);
            lemma_insert_hashes_concat(empty_view(t, d2, p1), a, b);
        }
    } else if d1 >= d2 {
        lemma_add_sketch_fits(s2, s1);
        law_add_downsized(s2, d1, p1, a);
        lemma_insert_hashes_concat(empty_view(t, d2, p2), b, a);
        lemma_built_from_hashes(t, d2, p2, Seq::empty());
        law_insert_hashes_swap(empty_view(t, d2, p2), a, b);
    } else {
        law_downsize(t, d2, p2, d1, p2, b);
        lemma_state_fits_smaller(t, d2, p2, d1, p2);
        let x = empty_view(t, d1, p2).insert_hashes(b);
        lemma_built_from_hashes(t, d1, p2, b);
        lemma_insert_hashes_wf(empty_view(t, d1, p2), b);
        lemma_add_sketch_fits(x, s1);
        law_add_downsized(x, d1, p1, a);
        lemma_insert_hashes_concat(empty_view(t, d1, p2), b, a);
        lemma_built_from_hashes(t, d1, p2, Seq::empty());
        law_insert_hashes_swap(empty_view(t, d1, p2), a, b);
    }
}


/// Merging sketches built from hashes does not depend on the order of the
/// two sketches.
pub proof fn law_merge_commutes(
    t: u32,
    d1: u32,
    p1: u32,
    d2: u32,
    p2: u32,
    a: Seq<u64>,
    b: Seq<u64>,
)
    requires
        valid_params(t, d1, p1),
        valid_params(t, d2, p2),
        state_fits(t, d1, p1),
        state_fits(t, d2, p2),
    ensures
        merge_result(empty_view(t, d1, p1).insert_hashes(a), empty_view(t, d2, p2).insert_hashes(b))
            == merge_result(
            empty_view(t, d2, p2).insert_hashes(b),
            empty_view(t, d1, p1).insert_hashes(a),
        ),
{
    let x = empty_view(t, d1, p1).insert_hashes(a);
    let y = empty_view(t, d2, p2).insert_hashes(b);
    lemma_empty_view(t, d1, p1);
    lemma_empty_view(t, d2, p2);
    lemma_insert_hashes_wf(empty_view(t, d1, p1), a);
    lemma_insert_hashes_wf(empty_view(t, d2, p2), b);
    if p1 == p2 {
        law_merge(t, d1, p1, d2, p2, a, b);
        law_merge(t, d2, p2, d1, p1, b, a);
        let d = if d1 <= d2 {
            d1
        } else {
            d2
        };
        lemma_state_fits_smaller(t, d1, p1, d, p1);
        lemma_empty_view(t, d, p1);
        law_insert_hashes_swap(empty_view(t, d, p1), a, b);
        assert(merge_result(x, y) == empty_view(t, d, p1).insert_hashes(a + b));
        assert(merge_result(y, x) == empty_view(t, d, p1).insert_hashes(b + a));
    } else {
        assert(x.p == p1 && y.p == p2 && x.d == d1 && y.d == d2);
    }
}


/// Adding a sketch to itself changes nothing.
pub proof fn law_add_self(v: SketchView)
    requires
        v.wf(),
    ensures
        add_sketch_error(v, v) is None,
        add_view(v, v) == v,
{
    let vals = add_sketch_values(v, v);
    assert forall|i: int| 0 <= i < v.num_registers() implies #[trigger] vals[i] == v.register(i) by {
        let r = v.register(i);
        assert(r | r == r) by (bit_vector);
    }
    assert forall|i: int| 0 <= i < v.num_registers() implies #[trigger] level_in_width(
        vals[i],
        v.t,
        v.d,
    ) by {
        lemma_register_level(v, i);
    }
    lemma_with_registers_registers(v, vals);
    lemma_view_ext(add_view(v, v), v);
}

/// Adding an empty sketch with the same `t` and at least the same `d` and
/// precision changes nothing.
pub proof fn law_add_empty(v: SketchView, d: u32, p: u32)
    requires
        v.wf(),
        valid_params(v.t, d, p),
        state_fits(v.t, d, p),
        v.d <= d,
        v.p <= p,
    ensures
        add_sketch_error(v, empty_view(v.t, d, p)) is None,
        add_sketch_fits(v, empty_view(v.t, d, p)),
        add_view(v, empty_view(v.t, d, p)) == v,
{
    let e = empty_view(v.t, d, p);
    lemma_built_from_hashes(v.t, d, p, Seq::empty());
    lemma_empty_view(v.t, d, p);
    lemma_add_sketch_fits(v, e);
    let vals = add_sketch_values(v, e);
    let prm = downsize_params_of(v, e);
    assert forall|i: int| 0 <= i < v.num_registers() implies #[trigger] vals[i] == v.register(i) by {
        let r = v.register(i);
        lemma_merge_empty(r, v.d);
        if !same_shape(v, e) {
            lemma_downsized_merge_zero(e, i, prm, pow2((p - v.p) as nat), v.d, v.p);
        }
    }
    assert forall|i: int| 0 <= i < v.num_registers() implies #[trigger] level_in_width(
        vals[i],
        v.t,
        v.d,
    ) by {
        lemma_register_level(v, i);
    }
    lemma_with_registers_registers(v, vals);
    lemma_view_ext(add_view(v, e), v);
}


/// Two well-formed sketches with the same `t` whose largest values stay
/// within the largest level (what `registers_in_range` checks) can be merged
/// within the machine's limits.
pub proof fn lemma_merge_fits_bounded(a: SketchView, b: SketchView)
    requires
        a.wf(),
        b.wf(),
        a.t == b.t,
        levels_bounded(a),
        levels_bounded(b),
    ensures
        merge_fits(a, b),
{
    let t = a.t;
    if a.p <= b.p {
        if a.d <= b.d {
            lemma_add_sketch_fits(a, b);
        } else {
            lemma_state_fits_smaller(t, a.d, a.p, b.d, a.p);
            lemma_add_sketch_fits(empty_view(t, b.d, a.p), a);
            lemma_add_sketch_fits(downsize_result(a, b.d, a.p), b);
        }
    } else if a.d >= b.d {
        lemma_add_sketch_fits(b, a);
    } else {
        lemma_state_fits_smaller(t, b.d, b.p, a.d, b.p);
        lemma_add_sketch_fits(empty_view(t, a.d, b.p), b);
        lemma_add_sketch_fits(downsize_result(b, a.d, b.p), a);
    }
}

} // verus!
