//! What the formulas come to where nothing is rounded.
//!
//! The laws below hold of arithmetic that is exact, each value standing for a real number. They say
//! nothing of arithmetic that rounds.
use vstd::arithmetic::power::*;
use vstd::prelude::*;
use crate::formula::{
    cosine_part, difference_parts, evaluates, exponential_part, negative_part, product_parts,
    quotient_parts, sine_part, sum_parts, within_parts, Formula,
};
use crate::grid::{Cell, Grid};
use crate::numerics::{
    compares, is_clamped, is_cosine, is_count, is_decimal, is_difference, is_exponential,
    is_negative, is_pi, is_product, is_quotient, is_sine, is_sum, Comparison, Numerics,
};
use crate::signal::{
    atmosphere_formula, center_formula, curvature_formula, damping_formula, deformation_formula,
    depth_formula, extent_formula, incidence_formula, inner_formula, middle_formula, offset_formula,
    radius_formula, sinking_formula, swath_formula, wave_formula, weight_formula,
};
use crate::uniqueness::{formulas_have_one_value, single_valued};

verus! {

/// How two real numbers compare.
pub open spec fn real_comparison(x: real, y: real) -> Comparison {
    if x < y {
        Comparison::Less
    } else if x == y {
        Comparison::Equal
    } else {
        Comparison::Greater
    }
}

/// Whether every value stands for a real number, and every operation is the one on real numbers; of
/// pi it is asked that it is positive, and of the exponential that it is one at zero.
pub open spec fn is_exact<K: Numerics>(k: &K, real_of: spec_fn(K::Value) -> real) -> bool {
    &&& forall|d: i64, places: u32, r: K::Value| #[trigger]
        is_decimal(k, d, places, r) ==> real_of(r) * (pow(10, places as nat) as real) == d as real
    &&& forall|n: usize, r: K::Value| #[trigger] is_count(k, n, r) ==> real_of(r) == n as real
    &&& forall|a: K::Value, b: K::Value, r: K::Value| #[trigger]
        is_sum(k, a, b, r) ==> real_of(r) == real_of(a) + real_of(b)
    &&& forall|a: K::Value, b: K::Value, r: K::Value| #[trigger]
        is_difference(k, a, b, r) ==> real_of(r) == real_of(a) - real_of(b)
    &&& forall|a: K::Value, b: K::Value, r: K::Value| #[trigger]
        is_product(k, a, b, r) ==> real_of(r) == real_of(a) * real_of(b)
    &&& forall|a: K::Value, b: K::Value, r: K::Value|
        #[trigger] is_quotient(k, a, b, r) && real_of(b) != 0real ==> real_of(r) * real_of(b)
            == real_of(a)
    &&& forall|a: K::Value, r: K::Value| #[trigger]
        is_negative(k, a, r) ==> real_of(r) == -real_of(a)
    &&& forall|r: K::Value| #[trigger] is_pi(k, r) ==> real_of(r) > 0real
    &&& forall|a: K::Value, r: K::Value|
        #[trigger] is_exponential(k, a, r) && real_of(a) == 0real ==> real_of(r) == 1real
    &&& forall|a: K::Value, b: K::Value, c: Comparison| #[trigger]
        compares(k, a, b, c) ==> c == real_comparison(real_of(a), real_of(b))
}

/// The powers of ten behind a few decimal places.
proof fn lemma_tens()
    ensures
        pow(10, 0) == 1,
        pow(10, 1) == 10,
        pow(10, 2) == 100,
        pow(10, 3) == 1000,
        pow(10, 5) == 100000,
{
    reveal(pow);
    reveal_with_fuel(pow, 7);
}

/// The phase of sinking ground is proportional to the days.
proof fn lemma_sinking<K: Numerics>(
    k: &K,
    real_of: spec_fn(K::Value) -> real,
    days: i64,
    pi: K::Value,
    v: K::Value,
)
    requires
        single_valued(k),
        is_exact(k, real_of),
        is_pi(k, pi),
        evaluates(k, sinking_formula(days), v),
    ensures
        real_of(v) * 3327600real == -(real_of(pi) * (days as real) * 100000real),
{
    lemma_tens();
    let rate = Formula::<K::Value>::Decimal(-5i64, 3);
    let cycle = Formula::<K::Value>::Decimal(120, 1);
    let wavelength = Formula::<K::Value>::Decimal(5546, 5);
    let turn = Formula::<K::Value>::Decimal(4, 0).times(Formula::Pi);
    let time = Formula::<K::Value>::Decimal(days, 0);
    let (p, w) = quotient_parts(k, turn.times(rate.times(time.over(cycle))), wavelength, v);
    let (u, m) = product_parts(k, turn, rate.times(time.over(cycle)), p);
    let (four, pi2) = product_parts(k, Formula::Decimal(4, 0), Formula::Pi, u);
    let (r, q) = product_parts(k, rate, time.over(cycle), m);
    let (d, c) = quotient_parts(k, time, cycle, q);
    assert(is_pi(k, pi2));
    assert(pi2 == pi);
    assert(is_decimal(k, 5546, 5, w) && is_decimal(k, 4, 0, four) && is_decimal(k, -5i64, 3, r));
    assert(is_decimal(k, days, 0, d) && is_decimal(k, 120, 1, c));
    let (rv, rp, rw, ru, rm) = (real_of(v), real_of(p), real_of(w), real_of(u), real_of(m));
    let (rr, rq, rd, rc, t) = (real_of(r), real_of(q), real_of(d), real_of(c), days as real);
    let x = real_of(pi);
    assert(rw * 100000real == 5546real);
    assert(rw != 0real);
    assert(rc * 10real == 120real);
    assert(rd * 1real == t);
    assert(rc != 0real);
    assert(rq * rc == rd);
    assert(rq * 12real == t) by (nonlinear_arith)
        requires
            rq * rc == rd,
            rc * 10real == 120real,
            rd * 1real == t,
    ;
    assert(rr * 1000real == -5real);
    assert(rm * 2400real == -t) by (nonlinear_arith)
        requires
            rm == rr * rq,
            rr * 1000real == -5real,
            rq * 12real == t,
    ;
    let rf = real_of(four);
    assert(rf * 1real == 4real);
    assert(ru == rf * x);
    assert(ru == 4real * x) by (nonlinear_arith)
        requires
            ru == rf * x,
            rf * 1real == 4real,
    ;
    assert(rp * 600real == -(x * t)) by (nonlinear_arith)
        requires
            rp == ru * rm,
            ru == 4real * x,
            rm * 2400real == -t,
    ;
    assert(rv * 3327600real == -(x * t * 100000real)) by (nonlinear_arith)
        requires
            rv * rw == rp,
            rw * 100000real == 5546real,
            rp * 600real == -(x * t),
    ;
}

/// Where nothing is rounded, the middle of two different edges has no distance from it.
proof fn lemma_no_offset<K: Numerics>(
    k: &K,
    real_of: spec_fn(K::Value) -> real,
    low: K::Value,
    high: K::Value,
    middle: K::Value,
    v: K::Value,
)
    requires
        single_valued(k),
        is_exact(k, real_of),
        real_of(low) != real_of(high),
        evaluates(k, middle_formula(low, high), middle),
        evaluates(k, offset_formula(middle, low, high), v),
    ensures
        real_of(v) == 0real,
{
    lemma_tens();
    let two = Formula::<K::Value>::Decimal(2, 0);
    let place = Formula::Known(middle);
    let (d, e) = quotient_parts(
        k,
        place.minus(middle_formula(low, high)),
        extent_formula(low, high),
        v,
    );
    let (x, m) = difference_parts(k, place, middle_formula(low, high), d);
    formulas_have_one_value(k, middle_formula(low, high), middle, m);
    assert(x == middle);
    assert(real_of(d) == 0real);
    let (w, t) = quotient_parts(k, Formula::Known(high).minus(Formula::Known(low)), two, e);
    let (h, l) = difference_parts(k, Formula::Known(high), Formula::Known(low), w);
    assert(h == high && l == low);
    assert(is_decimal(k, 2, 0, t));
    assert(real_of(t) * 1real == 2real);
    let (re, rv, rt, rw) = (real_of(e), real_of(v), real_of(t), real_of(w));
    assert(rw == real_of(high) - real_of(low));
    assert(rt != 0real);
    assert(re * rt == rw);
    assert(re != 0real) by (nonlinear_arith)
        requires
            re * rt == rw,
            rw != 0real,
    ;
    assert(rv * re == real_of(d));
    assert(rv == 0real) by (nonlinear_arith)
        requires
            rv * re == 0real,
            re != 0real,
    ;
}

/// Where nothing is rounded, the bowl has its full depth in the middle of the box.
pub proof fn weight_is_one_in_the_middle<K: Numerics>(
    k: &K,
    real_of: spec_fn(K::Value) -> real,
    bbox: Seq<K::Value>,
    middle: (K::Value, K::Value),
    v: K::Value,
)
    requires
        single_valued(k),
        is_exact(k, real_of),
        real_of(bbox[0]) != real_of(bbox[2]),
        real_of(bbox[1]) != real_of(bbox[3]),
        evaluates(k, middle_formula(bbox[0], bbox[2]), middle.0),
        evaluates(k, middle_formula(bbox[1], bbox[3]), middle.1),
        evaluates(k, weight_formula(middle, bbox), v),
    ensures
        real_of(v) == 1real,
{
    lemma_tens();
    let variance = Formula::<K::Value>::Decimal(4, 1).times(Formula::Decimal(4, 1));
    let scale = Formula::<K::Value>::Decimal(2, 0).times(variance);
    let radius = radius_formula(middle, bbox);
    let dx = offset_formula(middle.0, bbox[0], bbox[2]);
    let dy = offset_formula(middle.1, bbox[1], bbox[3]);
    let x = exponential_part(k, radius.negative().over(scale), v);
    let (n, s) = quotient_parts(k, radius.negative(), scale, x);
    let r = negative_part(k, radius, n);
    let (xx, yy) = sum_parts(k, dx.times(dx), dy.times(dy), r);
    let (x1, x2) = product_parts(k, dx, dx, xx);
    let (y1, y2) = product_parts(k, dy, dy, yy);
    lemma_no_offset(k, real_of, bbox[0], bbox[2], middle.0, x1);
    lemma_no_offset(k, real_of, bbox[1], bbox[3], middle.1, y1);
    assert(real_of(xx) == 0real) by (nonlinear_arith)
        requires
            real_of(xx) == real_of(x1) * real_of(x2),
            real_of(x1) == 0real,
    ;
    assert(real_of(yy) == 0real) by (nonlinear_arith)
        requires
            real_of(yy) == real_of(y1) * real_of(y2),
            real_of(y1) == 0real,
    ;
    assert(real_of(n) == 0real);
    let (two, var) = product_parts(k, Formula::Decimal(2, 0), variance, s);
    let (a, b) = product_parts(k, Formula::Decimal(4, 1), Formula::Decimal(4, 1), var);
    assert(is_decimal(k, 2, 0, two) && is_decimal(k, 4, 1, a) && is_decimal(k, 4, 1, b));
    let (ra, rb, rs, rx) = (real_of(a), real_of(b), real_of(s), real_of(x));
    let (rt, rvar) = (real_of(two), real_of(var));
    assert(ra * 10real == 4real && rb * 10real == 4real && rt * 1real == 2real);
    assert(rs * 100real == 32real) by (nonlinear_arith)
        requires
            rs == rt * rvar,
            rvar == ra * rb,
            ra * 10real == 4real,
            rb * 10real == 4real,
            rt * 1real == 2real,
    ;
    assert(rx == 0real) by (nonlinear_arith)
        requires
            rx * rs == 0real,
            rs * 100real == 32real,
    ;
}

/// Where nothing is rounded, the phase of a place scales with the days: `n` times the days make `n`
/// times the phase.
pub proof fn bowl_scales_with_the_days<K: Numerics>(
    k: &K,
    real_of: spec_fn(K::Value) -> real,
    bbox: Seq<K::Value>,
    a: (K::Value, K::Value),
    days: i64,
    n: int,
    many_days: i64,
    v: K::Value,
    w: K::Value,
)
    requires
        single_valued(k),
        is_exact(k, real_of),
        many_days == n * days,
        evaluates(k, deformation_formula(a, bbox, days), v),
        evaluates(k, deformation_formula(a, bbox, many_days), w),
    ensures
        real_of(w) == (n as real) * real_of(v),
{
    let (s1, w1) = product_parts(k, sinking_formula(days), weight_formula(a, bbox), v);
    let (s2, w2) = product_parts(k, sinking_formula(many_days), weight_formula(a, bbox), w);
    formulas_have_one_value(k, weight_formula(a, bbox), w1, w2);
    let pi = lemma_some_pi(k, days, s1);
    lemma_sinking(k, real_of, days, pi, s1);
    lemma_sinking(k, real_of, many_days, pi, s2);
    let (x, y, z, rv, rw) = (
        real_of(s1),
        real_of(s2),
        real_of(w1),
        real_of(v),
        real_of(w),
    );
    let (p, t, m, u) = (real_of(pi), days as real, n as real, many_days as real);
    let d = days as int;
    assert((n * d) as real == (n as real) * (d as real)) by (nonlinear_arith);
    assert(y == m * x) by (nonlinear_arith)
        requires
            x * 3327600real == -(p * t * 100000real),
            y * 3327600real == -(p * u * 100000real),
            u == m * t,
    ;
    assert(rw == m * rv) by (nonlinear_arith)
        requires
            rw == y * z,
            rv == x * z,
            y == m * x,
    ;
}

/// The phase of sinking ground is computed with a value of pi.
proof fn lemma_some_pi<K: Numerics>(k: &K, days: i64, v: K::Value) -> (pi: K::Value)
    requires
        evaluates(k, sinking_formula(days), v),
    ensures
        is_pi(k, pi),
{
    let turn = Formula::<K::Value>::Decimal(4, 0).times(Formula::Pi);
    let metres = Formula::<K::Value>::Decimal(-5i64, 3).times(
        Formula::Decimal(days, 0).over(Formula::Decimal(120, 1)),
    );
    let (p, w) = quotient_parts(k, turn.times(metres), Formula::Decimal(5546, 5), v);
    let (u, m) = product_parts(k, turn, metres, p);
    let (four, pi) = product_parts(k, Formula::Decimal(4, 0), Formula::Pi, u);
    assert(evaluates(k, Formula::Pi, pi));
    pi
}

/// Where nothing is rounded, the phase of a place is the one in the middle of the box times the
/// depth of the bowl there.
pub proof fn bowl_has_the_shape_of_its_weight<K: Numerics>(
    k: &K,
    real_of: spec_fn(K::Value) -> real,
    bbox: Seq<K::Value>,
    middle: (K::Value, K::Value),
    b: (K::Value, K::Value),
    days: i64,
    weight: K::Value,
    vm: K::Value,
    vb: K::Value,
)
    requires
        single_valued(k),
        is_exact(k, real_of),
        real_of(bbox[0]) != real_of(bbox[2]),
        real_of(bbox[1]) != real_of(bbox[3]),
        evaluates(k, middle_formula(bbox[0], bbox[2]), middle.0),
        evaluates(k, middle_formula(bbox[1], bbox[3]), middle.1),
        evaluates(k, weight_formula(b, bbox), weight),
        evaluates(k, deformation_formula(middle, bbox, days), vm),
        evaluates(k, deformation_formula(b, bbox, days), vb),
    ensures
        real_of(vb) == real_of(vm) * real_of(weight),
{
    let (s1, w1) = product_parts(k, sinking_formula(days), weight_formula(middle, bbox), vm);
    let (s2, w2) = product_parts(k, sinking_formula(days), weight_formula(b, bbox), vb);
    formulas_have_one_value(k, sinking_formula(days), s1, s2);
    formulas_have_one_value(k, weight_formula(b, bbox), weight, w2);
    weight_is_one_in_the_middle(k, real_of, bbox, middle, w1);
    assert(real_of(vm) == real_of(s1)) by (nonlinear_arith)
        requires
            real_of(vm) == real_of(s1) * real_of(w1),
            real_of(w1) == 1real,
    ;
}

/// Where nothing is rounded, the ground in the middle of the box sinks 5 mm in a repeat cycle of 12
/// days: the phase times the wavelength of 0.05546 m over four pi is 0.005 m below zero.
pub proof fn five_millimetres_sink_in_a_cycle<K: Numerics>(
    k: &K,
    real_of: spec_fn(K::Value) -> real,
    bbox: Seq<K::Value>,
    middle: (K::Value, K::Value),
    pi: K::Value,
    v: K::Value,
)
    requires
        single_valued(k),
        is_exact(k, real_of),
        is_pi(k, pi),
        real_of(bbox[0]) != real_of(bbox[2]),
        real_of(bbox[1]) != real_of(bbox[3]),
        evaluates(k, middle_formula(bbox[0], bbox[2]), middle.0),
        evaluates(k, middle_formula(bbox[1], bbox[3]), middle.1),
        evaluates(k, deformation_formula(middle, bbox, 12), v),
    ensures
        real_of(v) * (5546real / 100000real) / (4real * real_of(pi)) == -5real / 1000real,
{
    let (s, w) = product_parts(k, sinking_formula(12), weight_formula(middle, bbox), v);
    weight_is_one_in_the_middle(k, real_of, bbox, middle, w);
    lemma_sinking(k, real_of, 12, pi, s);
    let (rv, rs, rw, p) = (real_of(v), real_of(s), real_of(w), real_of(pi));
    assert(rv * (5546real / 100000real) / (4real * p) == -5real / 1000real) by (nonlinear_arith)
        requires
            rv == rs * rw,
            rw == 1real,
            rs * 3327600real == -(p * 12real * 100000real),
            p > 0real,
    ;
}

// ── Filter ──

/// A value that is kept within two ends lies between them.
proof fn lemma_between<K: Numerics>(
    k: &K,
    real_of: spec_fn(K::Value) -> real,
    x: K::Value,
    low: K::Value,
    high: K::Value,
    r: K::Value,
)
    requires
        is_exact(k, real_of),
        is_clamped(k, x, low, high, r),
        real_of(low) <= real_of(high),
    ensures
        real_of(low) <= real_of(r) <= real_of(high),
        real_of(x) <= real_of(low) ==> real_of(r) == real_of(low),
{
}

/// Where nothing is rounded, the Goldstein filter leaves 0.7921 of a phase on the border of a grid,
/// and between that and all of it elsewhere.
pub proof fn damping_lies_between_its_ends<K: Numerics>(
    k: &K,
    real_of: spec_fn(K::Value) -> real,
    grid: Grid,
    cell: Cell,
    v: K::Value,
)
    requires
        single_valued(k),
        is_exact(k, real_of),
        grid.width > 0,
        grid.height > 0,
        evaluates(k, damping_formula(grid, cell), v),
    ensures
        7921real / 10000real <= real_of(v) <= 1real,
        cell.edge_x == 0 || cell.edge_y == 0 ==> real_of(v) == 7921real / 10000real,
{
    lemma_tens();
    let one = Formula::<K::Value>::Decimal(1, 0);
    let tenth = Formula::<K::Value>::Decimal(1, 1);
    let strength = Formula::<K::Value>::Decimal(3, 1);
    let inner = inner_formula::<K::Value>(grid, cell);
    let noise = one.minus(inner);
    let alpha = Formula::<K::Value>::Decimal(5, 1).plus(noise.times(strength));
    let (o, t) = difference_parts(k, one, alpha.times(noise).times(strength), v);
    let (an, c) = product_parts(k, alpha.times(noise), strength, t);
    let (al, n) = product_parts(k, alpha, noise, an);
    let (half, nc) = sum_parts(k, Formula::Decimal(5, 1), noise.times(strength), al);
    let (n2, c2) = product_parts(k, noise, strength, nc);
    formulas_have_one_value(k, noise, n, n2);
    formulas_have_one_value(k, strength, c, c2);
    let (o2, i) = difference_parts(k, one, inner, n);
    let dx = depth_formula::<K::Value>(cell.edge_x, grid.width);
    let dy = depth_formula::<K::Value>(cell.edge_y, grid.height);
    let (d, l, h) = within_parts(k, dx.times(dy), tenth, one, i);
    let (x, y) = product_parts(k, dx, dy, d);
    assert(is_decimal(k, 1, 0, o) && is_decimal(k, 1, 0, o2) && is_decimal(k, 1, 0, h));
    assert(is_decimal(k, 1, 1, l) && is_decimal(k, 3, 1, c) && is_decimal(k, 5, 1, half));
    assert(real_of(o) * 1real == 1real && real_of(o2) * 1real == 1real);
    assert(real_of(h) * 1real == 1real && real_of(l) * 10real == 1real);
    assert(real_of(c) * 10real == 3real && real_of(half) * 10real == 5real);
    lemma_between(k, real_of, d, l, h, i);
    if cell.edge_x == 0 || cell.edge_y == 0 {
        if cell.edge_x == 0 {
            lemma_no_depth(k, real_of, grid.width, x);
        } else {
            lemma_no_depth(k, real_of, grid.height, y);
        }
        assert(real_of(d) == 0real) by (nonlinear_arith)
            requires
                real_of(d) == real_of(x) * real_of(y),
                real_of(x) == 0real || real_of(y) == 0real,
        ;
    }
    let (rv, rt, ran, rc, ral) = (real_of(v), real_of(t), real_of(an), real_of(c), real_of(al));
    let (rn, rnc, ri) = (real_of(n), real_of(nc), real_of(i));
    assert(rn == 1real - ri);
    assert(0real <= rn && rn * 10real <= 9real);
    assert(rt * 100real == (5real + 3real * rn) * rn * 3real) by (nonlinear_arith)
        requires
            rt == ran * rc,
            ran == ral * rn,
            ral * 10real == 5real + rnc * 10real,
            rnc == rn * rc,
            rc * 10real == 3real,
    ;
    assert(0real <= rt && rt * 10000real <= 2079real) by (nonlinear_arith)
        requires
            rt * 100real == (5real + 3real * rn) * rn * 3real,
            0real <= rn,
            rn * 10real <= 9real,
    ;
    assert(rn * 10real == 9real ==> rt * 10000real == 2079real) by (nonlinear_arith)
        requires
            rt * 100real == (5real + 3real * rn) * rn * 3real,
    ;
}

/// Where nothing is rounded, there is no depth at the edge.
proof fn lemma_no_depth<K: Numerics>(
    k: &K,
    real_of: spec_fn(K::Value) -> real,
    n: usize,
    v: K::Value,
)
    requires
        is_exact(k, real_of),
        n > 0,
        evaluates(k, depth_formula(0, n), v),
    ensures
        real_of(v) == 0real,
{
    lemma_tens();
    let two = Formula::<K::Value>::Decimal(2, 0);
    let (e, h) = quotient_parts(k, Formula::Count(0), Formula::Count(n).over(two), v);
    let (c, t) = quotient_parts(k, Formula::Count(n), two, h);
    assert(is_count(k, 0, e) && is_count(k, n, c) && is_decimal(k, 2, 0, t));
    assert(real_of(t) * 1real == 2real);
    let (rv, rh, rt, rn) = (real_of(v), real_of(h), real_of(t), n as real);
    assert(rt != 0real);
    assert(rh * rt == rn);
    assert(rh != 0real) by (nonlinear_arith)
        requires
            rh * rt == rn,
            rn != 0real,
    ;
    assert(rv * rh == real_of(e));
    assert(rv == 0real) by (nonlinear_arith)
        requires
            rv * rh == 0real,
            rh != 0real,
    ;
}

// ── Centers ──

/// The center of a cell, as a real number.
proof fn lemma_center<K: Numerics>(
    k: &K,
    real_of: spec_fn(K::Value) -> real,
    low: K::Value,
    high: K::Value,
    i: usize,
    n: usize,
    v: K::Value,
)
    requires
        is_exact(k, real_of),
        n > 0,
        evaluates(k, center_formula(low, high, i, n), v),
    ensures
        (real_of(v) - real_of(low)) * (2real * (n as real)) == (2real * (i as real) + 1real) * (
        real_of(high) - real_of(low)),
{
    lemma_tens();
    let start = Formula::Known(low);
    let wide = Formula::Known(high).minus(start);
    let step = wide.over(Formula::Count(n));
    let place = Formula::<K::Value>::Count(i).plus(Formula::Decimal(5, 1));
    let (l, m) = sum_parts(k, start, place.times(step), v);
    let (p, s) = product_parts(k, place, step, m);
    let (ci, half) = sum_parts(k, Formula::Count(i), Formula::Decimal(5, 1), p);
    let (w, cn) = quotient_parts(k, wide, Formula::Count(n), s);
    let (h, l2) = difference_parts(k, Formula::Known(high), start, w);
    assert(l == low && l2 == low && h == high);
    assert(is_count(k, i, ci) && is_count(k, n, cn) && is_decimal(k, 5, 1, half));
    assert(real_of(half) * 10real == 5real);
    let (rm, rp, rs, rw) = (real_of(m), real_of(p), real_of(s), real_of(w));
    let (ri, rn) = (i as real, n as real);
    assert(rn != 0real);
    assert(rm * (2real * rn) == (2real * ri + 1real) * rw) by (nonlinear_arith)
        requires
            rm == rp * rs,
            rp * 10real == ri * 10real + 5real,
            rs * rn == rw,
    ;
}

/// Where nothing is rounded, the center of every cell lies strictly between the edges.
pub proof fn centers_lie_inside<K: Numerics>(
    k: &K,
    real_of: spec_fn(K::Value) -> real,
    low: K::Value,
    high: K::Value,
    i: usize,
    n: usize,
    v: K::Value,
)
    requires
        is_exact(k, real_of),
        real_of(low) < real_of(high),
        i < n,
        evaluates(k, center_formula(low, high, i, n), v),
    ensures
        real_of(low) < real_of(v) < real_of(high),
{
    lemma_center(k, real_of, low, high, i, n, v);
    let (a, b, x, ri, rn) = (real_of(low), real_of(high), real_of(v), i as real, n as real);
    assert(a < x < b) by (nonlinear_arith)
        requires
            (x - a) * (2real * rn) == (2real * ri + 1real) * (b - a),
            a < b,
            0real <= ri,
            ri + 1real <= rn,
    ;
}

/// Where nothing is rounded, the centers of opposite cells are mirror images: they add up to the
/// two edges.
pub proof fn centers_are_mirrored<K: Numerics>(
    k: &K,
    real_of: spec_fn(K::Value) -> real,
    low: K::Value,
    high: K::Value,
    i: usize,
    j: usize,
    n: usize,
    v: K::Value,
    w: K::Value,
)
    requires
        is_exact(k, real_of),
        i + j == n - 1,
        evaluates(k, center_formula(low, high, i, n), v),
        evaluates(k, center_formula(low, high, j, n), w),
    ensures
        real_of(v) + real_of(w) == real_of(low) + real_of(high),
{
    lemma_center(k, real_of, low, high, i, n, v);
    lemma_center(k, real_of, low, high, j, n, w);
    let (a, b, x, y) = (real_of(low), real_of(high), real_of(v), real_of(w));
    let (ri, rj, rn) = (i as real, j as real, n as real);
    assert(ri + rj == rn - 1real);
    assert(x + y == a + b) by (nonlinear_arith)
        requires
            (x - a) * (2real * rn) == (2real * ri + 1real) * (b - a),
            (y - a) * (2real * rn) == (2real * rj + 1real) * (b - a),
            ri + rj == rn - 1real,
            rn > 0real,
    ;
}

// ── Incidence ──

/// The angle of a column in the swath, in degrees, as a real number.
proof fn lemma_swath<K: Numerics>(
    k: &K,
    real_of: spec_fn(K::Value) -> real,
    col: usize,
    width: usize,
    v: K::Value,
)
    requires
        is_exact(k, real_of),
        width > 0,
        evaluates(k, swath_formula(col, width), v),
    ensures
        (real_of(v) * 10real - 291real) * (2real * (width as real)) == (2real * (col as real)
            + 1real) * 169real,
{
    lemma_tens();
    let half = Formula::<K::Value>::Decimal(5, 1);
    let near = Formula::<K::Value>::Decimal(291, 1);
    let far = Formula::<K::Value>::Decimal(460, 1);
    let count = Formula::<K::Value>::Count(width);
    let place = Formula::<K::Value>::Count(col).plus(half);
    let (n, x) = sum_parts(k, near, place.over(count).times(far.minus(near)), v);
    let (q, s) = product_parts(k, place.over(count), far.minus(near), x);
    let (p, w) = quotient_parts(k, place, count, q);
    let (c, h) = sum_parts(k, Formula::Count(col), half, p);
    let (e, d) = difference_parts(k, far, near, s);
    assert(is_decimal(k, 291, 1, n) && is_decimal(k, 291, 1, d) && is_decimal(k, 460, 1, e));
    assert(is_decimal(k, 5, 1, h) && is_count(k, col, c) && is_count(k, width, w));
    assert(real_of(n) * 10real == 291real && real_of(d) * 10real == 291real);
    assert(real_of(e) * 10real == 460real && real_of(h) * 10real == 5real);
    let (rx, rq, rs, rp) = (real_of(x), real_of(q), real_of(s), real_of(p));
    let (rc, rw) = (col as real, width as real);
    assert(rw != 0real);
    assert(rx * 10real * (2real * rw) == (2real * rc + 1real) * 169real) by (nonlinear_arith)
        requires
            rx == rq * rs,
            rs * 10real == 169real,
            rq * rw == rp,
            rp * 10real == rc * 10real + 5real,
    ;
}

/// Where nothing is rounded, the angle of incidence rises from the west side of a row to the east
/// side.
pub proof fn angles_rise_from_west_to_east<K: Numerics>(
    k: &K,
    real_of: spec_fn(K::Value) -> real,
    bbox: Seq<K::Value>,
    grid: Grid,
    cell1: Cell,
    cell2: Cell,
    v1: K::Value,
    v2: K::Value,
)
    requires
        single_valued(k),
        is_exact(k, real_of),
        grid.width > 0,
        cell1.row == cell2.row,
        cell1.col < cell2.col,
        evaluates(k, incidence_formula(bbox, grid, cell1), v1),
        evaluates(k, incidence_formula(bbox, grid, cell2), v2),
    ensures
        real_of(v1) < real_of(v2),
{
    lemma_tens();
    let circle = Formula::<K::Value>::Decimal(180, 0);
    let curvature = curvature_formula(bbox, cell1.row, grid.height);
    let f1 = swath_formula::<K::Value>(cell1.col, grid.width);
    let f2 = swath_formula::<K::Value>(cell2.col, grid.width);
    let (r1, c1) = quotient_parts(k, f1.plus(curvature).times(Formula::Pi), circle, v1);
    let (r2, c2) = quotient_parts(k, f2.plus(curvature).times(Formula::Pi), circle, v2);
    let (d1, p1) = product_parts(k, f1.plus(curvature), Formula::Pi, r1);
    let (d2, p2) = product_parts(k, f2.plus(curvature), Formula::Pi, r2);
    let (s1, t1) = sum_parts(k, f1, curvature, d1);
    let (s2, t2) = sum_parts(k, f2, curvature, d2);
    formulas_have_one_value(k, curvature, t1, t2);
    lemma_swath(k, real_of, cell1.col, grid.width, s1);
    lemma_swath(k, real_of, cell2.col, grid.width, s2);
    assert(is_pi(k, p1) && is_pi(k, p2));
    assert(is_decimal(k, 180, 0, c1) && is_decimal(k, 180, 0, c2));
    assert(real_of(c1) * 1real == 180real && real_of(c2) * 1real == 180real);
    let (x, y, w) = (real_of(s1), real_of(s2), grid.width as real);
    let (a, b) = (cell1.col as real, cell2.col as real);
    assert(x < y) by (nonlinear_arith)
        requires
            (x * 10real - 291real) * (2real * w) == (2real * a + 1real) * 169real,
            (y * 10real - 291real) * (2real * w) == (2real * b + 1real) * 169real,
            a + 1real <= b,
            w > 0real,
    ;
    let (e, f, p) = (real_of(d1), real_of(d2), real_of(p1));
    assert(e * p < f * p) by (nonlinear_arith)
        requires
            e < f,
            p > 0real,
    ;
}

// ── Atmosphere ──

/// Whether no sine or cosine is beyond one.
pub open spec fn waves_are_bounded<K: Numerics>(k: &K, real_of: spec_fn(K::Value) -> real) -> bool {
    &&& forall|a: K::Value, r: K::Value| #[trigger]
        is_sine(k, a, r) ==> -1real <= real_of(r) <= 1real
    &&& forall|a: K::Value, r: K::Value| #[trigger]
        is_cosine(k, a, r) ==> -1real <= real_of(r) <= 1real
}

/// The product of two numbers within minus one and one lies within them.
proof fn lemma_product_bounded(x: real, y: real)
    requires
        -1real <= x <= 1real,
        -1real <= y <= 1real,
    ensures
        -1real <= x * y <= 1real,
{
    assert(-1real <= x * y <= 1real) by (nonlinear_arith)
        requires
            -1real <= x <= 1real,
            -1real <= y <= 1real,
    ;
}

/// A wave lies within minus one and one.
proof fn lemma_wave_bounded<K: Numerics>(
    k: &K,
    real_of: spec_fn(K::Value) -> real,
    x: Formula<K::Value>,
    y: Formula<K::Value>,
    v: K::Value,
)
    requires
        is_exact(k, real_of),
        waves_are_bounded(k, real_of),
        evaluates(k, wave_formula(x, y), v),
    ensures
        -1real <= real_of(v) <= 1real,
{
    let (s, c) = product_parts(k, x.sine(), y.cosine(), v);
    let a = sine_part(k, x, s);
    let b = cosine_part(k, y, c);
    lemma_product_bounded(real_of(s), real_of(c));
}

/// Where nothing is rounded and no sine or cosine is beyond one, the phase of the atmosphere has a
/// low amplitude: it lies within minus 0.644 and 0.644.
pub proof fn atmosphere_has_a_low_amplitude<K: Numerics>(
    k: &K,
    real_of: spec_fn(K::Value) -> real,
    center: (K::Value, K::Value),
    seed: usize,
    v: K::Value,
)
    requires
        single_valued(k),
        is_exact(k, real_of),
        waves_are_bounded(k, real_of),
        evaluates(k, atmosphere_formula(center, seed), v),
    ensures
        -644real / 1000real <= real_of(v) <= 644real / 1000real,
{
    lemma_tens();
    let thousand = Formula::<K::Value>::Decimal(1000, 0);
    let x = Formula::Known(center.0).times(thousand).plus(
        Formula::Count(seed).times(Formula::Decimal(1, 1)),
    );
    let y = Formula::Known(center.1).times(thousand).plus(
        Formula::Count(seed).times(Formula::Decimal(7, 2)),
    );
    let long_x = x.times(Formula::Decimal(1, 1));
    let long_y = y.times(Formula::Decimal(8, 2));
    let short_x = x.times(Formula::Decimal(27, 1));
    let short_y = y.times(Formula::Decimal(31, 1));
    let cross_x = x.times(Formula::Decimal(3, 1)).cosine();
    let cross_y = y.times(Formula::Decimal(5, 1)).sine();
    let long = wave_formula(long_x, long_y);
    let direct = wave_formula(x, y).times(Formula::Decimal(37, 1));
    let crossed = cross_x.times(cross_y).times(Formula::Decimal(21, 1));
    let short = wave_formula(short_x, short_y);
    let medium = direct.plus(crossed).times(Formula::Decimal(8, 2));
    let (lm, s) = sum_parts(
        k,
        long.times(Formula::Decimal(15, 2)).plus(medium),
        short.times(Formula::Decimal(3, 2)),
        v,
    );
    let (l, m) = sum_parts(k, long.times(Formula::Decimal(15, 2)), medium, lm);
    let (lw, lc) = product_parts(k, long, Formula::Decimal(15, 2), l);
    let (mw, mc) = product_parts(k, direct.plus(crossed), Formula::Decimal(8, 2), m);
    let (sw, sc) = product_parts(k, short, Formula::Decimal(3, 2), s);
    let (d, c) = sum_parts(k, direct, crossed, mw);
    let (dw, dc) = product_parts(k, wave_formula(x, y), Formula::Decimal(37, 1), d);
    let (cw, cc) = product_parts(k, cross_x.times(cross_y), Formula::Decimal(21, 1), c);
    let (cx, cy) = product_parts(k, cross_x, cross_y, cw);
    let ax = cosine_part(k, x.times(Formula::Decimal(3, 1)), cx);
    let ay = sine_part(k, y.times(Formula::Decimal(5, 1)), cy);
    lemma_wave_bounded(k, real_of, long_x, long_y, lw);
    lemma_wave_bounded(k, real_of, x, y, dw);
    lemma_wave_bounded(k, real_of, short_x, short_y, sw);
    lemma_product_bounded(real_of(cx), real_of(cy));
    assert(is_decimal(k, 15, 2, lc) && is_decimal(k, 8, 2, mc) && is_decimal(k, 3, 2, sc));
    assert(is_decimal(k, 37, 1, dc) && is_decimal(k, 21, 1, cc));
    lemma_scaled(real_of(lw), real_of(lc), 1real, 15real, 100real);
    lemma_scaled(real_of(dw), real_of(dc), 1real, 37real, 10real);
    lemma_scaled(real_of(cw), real_of(cc), 1real, 21real, 10real);
    lemma_scaled(real_of(mw), real_of(mc), 58real / 10real, 8real, 100real);
    lemma_scaled(real_of(sw), real_of(sc), 1real, 3real, 100real);
}

/// A number within a limit stays within its share of it.
proof fn lemma_scaled(x: real, share: real, limit: real, digits: real, scale: real)
    requires
        -limit <= x <= limit,
        share * scale == digits,
        scale > 0real,
        digits >= 0real,
        limit >= 0real,
    ensures
        -(limit * digits / scale) <= x * share <= limit * digits / scale,
{
    assert(share >= 0real) by (nonlinear_arith)
        requires
            share * scale == digits,
            scale > 0real,
            digits >= 0real,
    ;
    assert(limit * digits / scale == limit * share) by (nonlinear_arith)
        requires
            share * scale == digits,
            scale > 0real,
    ;
    assert(-(limit * share) <= x * share <= limit * share) by (nonlinear_arith)
        requires
            -limit <= x <= limit,
            share >= 0real,
    ;
}

} // verus!
