//! The radar signal, in numbers: what each measurement comes to where it is computed with real
//! numbers, whatever the box, the grid, the place and the time.
use vstd::prelude::*;
use crate::formula::{evaluates, Formula};
use crate::grid::{Cell, Grid};
use crate::numerics::Numerics;
use crate::promises::reals::{
    computes_in_reals, divides, meaning, tens, values_are_what_formulas_come_to, Reals,
};
use crate::signal::{
    atmosphere_formula, cell_center, center_formula, coherence_formula, curvature_formula,
    deformation_formula, depth_formula, estimate_coherence, goldstein_filter, goldstein_formula,
    incidence_formula, inner_formula, local_incidence_angle, multilook_coherence,
    multilook_coherence_formula, multilook_formula, multilook_phase, offset_formula, radius_formula,
    simulate_atmospheric_phase, simulate_deformation_phase, sinking_formula, spatial_formula,
    swath_formula, temporal_formula, thermal_formula, vertical_displacement, vertical_formula,
    weight_formula, EFFECTIVE_LOOKS,
};

verus! {

// ── Numbers ──

/// A number within two ends.
pub open spec fn limited(x: real, low: real, high: real) -> real {
    if x < low {
        low
    } else if x > high {
        high
    } else {
        x
    }
}

/// Where the center of place `i` of `n` between two edges lies.
pub open spec fn center_number(low: real, high: real, i: int, n: int) -> real {
    low + (i as real + 1real / 2real) * ((high - low) / (n as real))
}

/// The distance of a place from the middle of two edges, in halves of their distance.
pub open spec fn offset_number(place: real, low: real, high: real) -> real {
    (2real * place - low - high) / (high - low)
}

/// The squared distance of a place from the center of a box, in halves of its sides.
pub open spec fn radius_number(lon: real, lat: real, bbox: Seq<real>) -> real {
    offset_number(lon, bbox[0], bbox[2]) * offset_number(lon, bbox[0], bbox[2]) + offset_number(
        lat,
        bbox[1],
        bbox[3],
    ) * offset_number(lat, bbox[1], bbox[3])
}

/// The angle of incidence at a cell.
pub open spec fn incidence_number(pi: real, bbox: Seq<real>, grid: Grid, cell: Cell) -> real {
    let west_to_east = (cell.col as real + 1real / 2real) / (grid.width as real);
    let latitude = bbox[1] + (cell.row as real + 1real / 2real) / (grid.height as real) * (bbox[3]
        - bbox[1]);
    let size = if latitude < 0real {
        -latitude
    } else {
        latitude
    };
    (291real / 10real + west_to_east * (169real / 10real) + (size - 45real) / 100real) * pi
        / 180real
}

/// The phase of the subsidence bowl.
pub open spec fn bowl_number<V>(m: Reals<V>, lon: real, lat: real, bbox: Seq<real>, days: int)
    -> real {
    -(4real * m.pi * (5real / 1000real) * (days as real / 12real)) / (5546real / 100000real) * (
    m.exp)(-(radius_number(lon, lat, bbox) / (32real / 100real)))
}

/// The phase of the atmosphere.
pub open spec fn atmosphere_number<V>(m: Reals<V>, lon: real, lat: real, seed: int) -> real {
    let x = lon * 1000real + seed as real * (1real / 10real);
    let y = lat * 1000real + seed as real * (7real / 100real);
    (m.sin)(x * (1real / 10real)) * (m.cos)(y * (8real / 100real)) * (15real / 100real) + ((m.sin)(
        x,
    ) * (m.cos)(y) * (37real / 10real) + (m.cos)(x * (3real / 10real)) * (m.sin)(
        y * (5real / 10real),
    ) * (21real / 10real)) * (8real / 100real) + (m.sin)(x * (27real / 10real)) * (m.cos)(
        y * (31real / 10real),
    ) * (3real / 100real)
}

/// What the Goldstein filter leaves of a phase.
pub open spec fn damping_number(grid: Grid, cell: Cell) -> real {
    let noise = 1real - limited(
        (4real * (cell.edge_x as real) * (cell.edge_y as real)) / ((grid.width as real) * (
        grid.height as real)),
        1real / 10real,
        1real,
    );
    1real - (5real / 10real + noise * (3real / 10real)) * noise * (3real / 10real)
}

/// A phase as a vertical displacement.
pub open spec fn vertical_number<V>(m: Reals<V>, phase: real, incidence: real) -> real {
    (5546real / 100000real) / (4real * m.pi) * phase / (m.cos)(incidence) * 1000real
}

/// The coherence at a place after some days.
pub open spec fn coherence_number<V>(m: Reals<V>, lon: real, lat: real, bbox: Seq<real>, days: int)
    -> real {
    limited(
        (95real / 100real) * (m.exp)(-(radius_number(lon, lat, bbox) / (3real / 2real))) * (m.exp)(
            -(days as real / 365real) * (3real / 10real),
        ) * (40real / 41real),
        5real / 100real,
        99real / 100real,
    )
}

/// The coherence after multi-looking.
pub open spec fn looked_number<V>(m: Reals<V>, coherence: real) -> real {
    (m.pow)(coherence, 1real / (m.root)(4real))
}

/// The numbers of a box.
pub open spec fn box_numbers<V>(m: Reals<V>, bbox: Seq<V>) -> Seq<real> {
    bbox.map_values(|v: V| (m.of)(v))
}

// ── Formulas ──

/// The center of a cell, in numbers.
pub proof fn center_value<K: Numerics>(
    k: &K,
    m: Reals<K::Value>,
    low: K::Value,
    high: K::Value,
    i: usize,
    n: usize,
    v: K::Value,
)
    requires
        computes_in_reals(k, m),
        n > 0,
        evaluates(k, center_formula(low, high, i, n), v),
    ensures
        (m.of)(v) == center_number((m.of)(low), (m.of)(high), i as int, n as int),
{
    tens();
    let f = center_formula(low, high, i, n);
    reveal_with_fuel(meaning, 5);
    reveal_with_fuel(divides, 5);
    assert(divides(m, f));
    values_are_what_formulas_come_to(k, m, f, v);
    let half = meaning(m, Formula::<K::Value>::Decimal(5, 1));
    let (l, h, x, y) = ((m.of)(low), (m.of)(high), i as real, n as real);
    assert(half == 5real / 10real);
    assert((m.of)(v) == l + (x + half) * ((h - l) / y));
}

/// The distance from the middle, in numbers.
proof fn offset_meaning<V>(m: Reals<V>, place: V, low: V, high: V)
    requires
        (m.of)(low) != (m.of)(high),
    ensures
        divides(m, offset_formula(place, low, high)),
        meaning(m, offset_formula(place, low, high)) == offset_number(
            (m.of)(place),
            (m.of)(low),
            (m.of)(high),
        ),
{
    tens();
    reveal_with_fuel(meaning, 5);
    reveal_with_fuel(divides, 5);
    let (p, l, h) = ((m.of)(place), (m.of)(low), (m.of)(high));
    let two = meaning(m, Formula::<V>::Decimal(2, 0));
    assert(two == 2real / 1real);
    let (mid, ext) = ((l + h) / two, (h - l) / two);
    assert(ext != 0real && (p - mid) / ext == (2real * p - l - h) / (h - l)) by (nonlinear_arith)
        requires
            l != h,
            two == 2real / 1real,
            mid == (l + h) / two,
            ext == (h - l) / two,
    ;
}

/// The squared distance from the center, in numbers.
proof fn radius_meaning<V>(m: Reals<V>, center: (V, V), bbox: Seq<V>)
    requires
        bbox.len() == 4,
        (m.of)(bbox[0]) != (m.of)(bbox[2]),
        (m.of)(bbox[1]) != (m.of)(bbox[3]),
    ensures
        divides(m, radius_formula(center, bbox)),
        meaning(m, radius_formula(center, bbox)) == radius_number(
            (m.of)(center.0),
            (m.of)(center.1),
            box_numbers(m, bbox),
        ),
{
    offset_meaning(m, center.0, bbox[0], bbox[2]);
    offset_meaning(m, center.1, bbox[1], bbox[3]);
    reveal_with_fuel(meaning, 3);
    reveal_with_fuel(divides, 3);
}

/// The phase of the subsidence bowl, in numbers.
pub proof fn bowl_value<K: Numerics>(
    k: &K,
    m: Reals<K::Value>,
    center: (K::Value, K::Value),
    bbox: Seq<K::Value>,
    days: i64,
    v: K::Value,
)
    requires
        computes_in_reals(k, m),
        bbox.len() == 4,
        (m.of)(bbox[0]) != (m.of)(bbox[2]),
        (m.of)(bbox[1]) != (m.of)(bbox[3]),
        evaluates(k, deformation_formula(center, bbox, days), v),
    ensures
        (m.of)(v) == bowl_number(
            m,
            (m.of)(center.0),
            (m.of)(center.1),
            box_numbers(m, bbox),
            days as int,
        ),
{
    tens();
    let f = deformation_formula(center, bbox, days);
    radius_meaning(m, center, bbox);
    sinking_meaning(m, days);
    weight_meaning(m, center, bbox);
    reveal_with_fuel(meaning, 2);
    reveal_with_fuel(divides, 2);
    assert(divides(m, f));
    values_are_what_formulas_come_to(k, m, f, v);
}

/// The phase of sinking ground, in numbers.
proof fn sinking_meaning<V>(m: Reals<V>, days: i64)
    ensures
        divides(m, sinking_formula(days)),
        meaning(m, sinking_formula(days)) == -(4real * m.pi * (5real / 1000real) * (days as real
            / 12real)) / (5546real / 100000real),
{
    tens();
    reveal_with_fuel(meaning, 6);
    reveal_with_fuel(divides, 6);
    let (t, p) = (days as real, m.pi);
    assert(meaning(m, sinking_formula(days)) == (4real / 1real * p) * ((-5i64 as real) / 1000real
        * ((t / 1real) / (120real / 10real))) / (5546real / 100000real));
    assert((4real / 1real * p) * ((-5real) / 1000real * ((t / 1real) / (120real / 10real))) == -(
    4real * p * (5real / 1000real) * (t / 12real))) by (nonlinear_arith);
}

/// The depth of the bowl, in numbers.
proof fn weight_meaning<V>(m: Reals<V>, center: (V, V), bbox: Seq<V>)
    requires
        bbox.len() == 4,
        (m.of)(bbox[0]) != (m.of)(bbox[2]),
        (m.of)(bbox[1]) != (m.of)(bbox[3]),
    ensures
        divides(m, weight_formula(center, bbox)),
        meaning(m, weight_formula(center, bbox)) == (m.exp)(
            -(radius_number((m.of)(center.0), (m.of)(center.1), box_numbers(m, bbox)) / (32real
                / 100real)),
        ),
{
    tens();
    radius_meaning(m, center, bbox);
    let radius = radius_formula(center, bbox);
    let variance = Formula::<V>::Decimal(4, 1).times(Formula::Decimal(4, 1));
    let scale = Formula::<V>::Decimal(2, 0).times(variance);
    assert(meaning(m, scale) == 2real / 1real * (4real / 10real * (4real / 10real)) && divides(
        m,
        scale,
    )) by {
        reveal_with_fuel(meaning, 3);
        reveal_with_fuel(divides, 3);
    }
    assert(2real / 1real * (4real / 10real * (4real / 10real)) == 32real / 100real)
        by (nonlinear_arith);
    let r = meaning(m, radius);
    assert(-r / (32real / 100real) == -(r / (32real / 100real)));
    assert(meaning(m, radius.negative().over(scale)) == -r / (32real / 100real) && divides(
        m,
        radius.negative().over(scale),
    )) by {
        reveal_with_fuel(meaning, 3);
        reveal_with_fuel(divides, 3);
    }
}

/// The phase of the atmosphere, in numbers.
pub proof fn atmosphere_value<K: Numerics>(
    k: &K,
    m: Reals<K::Value>,
    center: (K::Value, K::Value),
    seed: usize,
    v: K::Value,
)
    requires
        computes_in_reals(k, m),
        evaluates(k, atmosphere_formula(center, seed), v),
    ensures
        (m.of)(v) == atmosphere_number(m, (m.of)(center.0), (m.of)(center.1), seed as int),
{
    tens();
    let f = atmosphere_formula(center, seed);
    let (lon, lat, count) = ((m.of)(center.0), (m.of)(center.1), seed as real);
    let thousand = meaning(m, Formula::<K::Value>::Decimal(1000, 0));
    let tenth = meaning(m, Formula::<K::Value>::Decimal(1, 1));
    let seven = meaning(m, Formula::<K::Value>::Decimal(7, 2));
    let d8 = meaning(m, Formula::<K::Value>::Decimal(8, 2));
    let d15 = meaning(m, Formula::<K::Value>::Decimal(15, 2));
    let d37 = meaning(m, Formula::<K::Value>::Decimal(37, 1));
    let d3 = meaning(m, Formula::<K::Value>::Decimal(3, 1));
    let d5 = meaning(m, Formula::<K::Value>::Decimal(5, 1));
    let d21 = meaning(m, Formula::<K::Value>::Decimal(21, 1));
    let d27 = meaning(m, Formula::<K::Value>::Decimal(27, 1));
    let d31 = meaning(m, Formula::<K::Value>::Decimal(31, 1));
    let d03 = meaning(m, Formula::<K::Value>::Decimal(3, 2));
    let x = lon * thousand + count * tenth;
    let y = lat * thousand + count * seven;
    assert(divides(m, f) && meaning(m, f) == (m.sin)(x * tenth) * (m.cos)(y * d8) * d15 + ((m.sin)(
        x,
    ) * (m.cos)(y) * d37 + (m.cos)(x * d3) * (m.sin)(y * d5) * d21) * d8 + (m.sin)(x * d27) * (
    m.cos)(y * d31) * d03) by {
        reveal_with_fuel(meaning, 11);
        reveal_with_fuel(divides, 11);
    }
    values_are_what_formulas_come_to(k, m, f, v);
    assert(thousand == 1000real / 1real && tenth == 1real / 10real && seven == 7real / 100real);
    assert(d8 == 8real / 100real && d15 == 15real / 100real && d37 == 37real / 10real);
    assert(d3 == 3real / 10real && d5 == 5real / 10real && d21 == 21real / 10real);
    assert(d27 == 27real / 10real && d31 == 31real / 10real && d03 == 3real / 100real);
}

/// A phase after multi-looking, in numbers.
pub proof fn multilook_value<K: Numerics>(
    k: &K,
    m: Reals<K::Value>,
    phase: K::Value,
    v: K::Value,
)
    requires
        computes_in_reals(k, m),
        (m.root)(4real) != 0real,
        evaluates(k, multilook_formula(phase), v),
    ensures
        (m.of)(v) == (m.of)(phase),
{
    let f = multilook_formula(phase);
    reveal_with_fuel(meaning, 4);
    reveal_with_fuel(divides, 4);
    assert(EFFECTIVE_LOOKS as real == 4real);
    assert(divides(m, f));
    values_are_what_formulas_come_to(k, m, f, v);
    let (p, q) = ((m.of)(phase), (m.root)(4real));
    assert(p / q * q == p) by (nonlinear_arith)
        requires
            q != 0real,
    ;
}

/// What the filter leaves of a phase, in numbers.
pub proof fn goldstein_value<K: Numerics>(
    k: &K,
    m: Reals<K::Value>,
    phase: K::Value,
    grid: Grid,
    cell: Cell,
    v: K::Value,
)
    requires
        computes_in_reals(k, m),
        grid.width > 0,
        grid.height > 0,
        evaluates(k, goldstein_formula(phase, grid, cell), v),
    ensures
        (m.of)(v) == (m.of)(phase) * damping_number(grid, cell),
{
    tens();
    inner_meaning(m, grid, cell);
    let f = goldstein_formula(phase, grid, cell);
    let inner = meaning(m, inner_formula::<K::Value>(grid, cell));
    let one = meaning(m, Formula::<K::Value>::Decimal(1, 0));
    let five = meaning(m, Formula::<K::Value>::Decimal(5, 1));
    let three = meaning(m, Formula::<K::Value>::Decimal(3, 1));
    let noise = one - inner;
    assert(divides(m, f) && meaning(m, f) == (m.of)(phase) * (one - (five + noise * three) * noise
        * three)) by {
        reveal_with_fuel(meaning, 7);
        reveal_with_fuel(divides, 7);
    }
    values_are_what_formulas_come_to(k, m, f, v);
    assert(one == 1real / 1real && five == 5real / 10real && three == 3real / 10real);
}

/// How close a cell is to the middle, in numbers.
proof fn inner_meaning<V>(m: Reals<V>, grid: Grid, cell: Cell)
    requires
        grid.width > 0,
        grid.height > 0,
    ensures
        divides(m, inner_formula::<V>(grid, cell)),
        meaning(m, inner_formula::<V>(grid, cell)) == limited(
            (4real * (cell.edge_x as real) * (cell.edge_y as real)) / ((grid.width as real) * (
            grid.height as real)),
            1real / 10real,
            1real,
        ),
{
    tens();
    let f = inner_formula::<V>(grid, cell);
    let (x, y) = (cell.edge_x as real, cell.edge_y as real);
    let (w, h) = (grid.width as real, grid.height as real);
    let two = meaning(m, Formula::<V>::Decimal(2, 0));
    let one = meaning(m, Formula::<V>::Decimal(1, 0));
    let tenth = meaning(m, Formula::<V>::Decimal(1, 1));
    assert(two == 2real / 1real && one == 1real / 1real && tenth == 1real / 10real);
    let (p, q) = (w / two, h / two);
    assert(p != 0real && q != 0real && (x / p) * (y / q) == (4real * x * y) / (w * h))
        by (nonlinear_arith)
        requires
            w > 0real,
            h > 0real,
            two == 2real / 1real,
            p == w / two,
            q == h / two,
    ;
    reveal_with_fuel(meaning, 5);
    reveal_with_fuel(divides, 5);
    let product = depth_formula::<V>(cell.edge_x, grid.width).times(
        depth_formula(cell.edge_y, grid.height),
    );
    assert(meaning(m, product) == (x / p) * (y / q) && divides(m, product));
    assert(f == product.within(Formula::Decimal(1, 1), Formula::Decimal(1, 0)));
}

/// A vertical displacement, in numbers.
pub proof fn vertical_value<K: Numerics>(
    k: &K,
    m: Reals<K::Value>,
    phase: K::Value,
    incidence: K::Value,
    v: K::Value,
)
    requires
        computes_in_reals(k, m),
        (m.cos)((m.of)(incidence)) != 0real,
        evaluates(k, vertical_formula(phase, incidence), v),
    ensures
        (m.of)(v) == vertical_number(m, (m.of)(phase), (m.of)(incidence)),
{
    tens();
    let f = vertical_formula(phase, incidence);
    let (pi, x, c) = (m.pi, (m.of)(phase), (m.cos)((m.of)(incidence)));
    let four = meaning(m, Formula::<K::Value>::Decimal(4, 0));
    let wave = meaning(m, Formula::<K::Value>::Decimal(5546, 5));
    let thousand = meaning(m, Formula::<K::Value>::Decimal(1000, 0));
    assert(four == 4real / 1real && wave == 5546real / 100000real && thousand == 1000real / 1real);
    assert(four * pi != 0real) by (nonlinear_arith)
        requires
            four == 4real / 1real,
            pi > 0real,
    ;
    assert(divides(m, f) && meaning(m, f) == wave / (four * pi) * x / c * thousand) by {
        reveal_with_fuel(meaning, 6);
        reveal_with_fuel(divides, 6);
    }
    values_are_what_formulas_come_to(k, m, f, v);
}

/// The coherence at a place, in numbers.
pub proof fn coherence_value<K: Numerics>(
    k: &K,
    m: Reals<K::Value>,
    center: (K::Value, K::Value),
    bbox: Seq<K::Value>,
    days: i64,
    v: K::Value,
)
    requires
        computes_in_reals(k, m),
        bbox.len() == 4,
        (m.of)(bbox[0]) != (m.of)(bbox[2]),
        (m.of)(bbox[1]) != (m.of)(bbox[3]),
        evaluates(k, coherence_formula(center, bbox, days), v),
    ensures
        (m.of)(v) == coherence_number(
            m,
            (m.of)(center.0),
            (m.of)(center.1),
            box_numbers(m, bbox),
            days as int,
        ),
{
    tens();
    let f = coherence_formula(center, bbox, days);
    spatial_meaning(m, center, bbox);
    temporal_meaning(m, days);
    thermal_meaning(m);
    reveal_with_fuel(meaning, 4);
    reveal_with_fuel(divides, 4);
    assert(divides(m, f));
    values_are_what_formulas_come_to(k, m, f, v);
}

/// The coherence of a place, in numbers.
proof fn spatial_meaning<V>(m: Reals<V>, center: (V, V), bbox: Seq<V>)
    requires
        bbox.len() == 4,
        (m.of)(bbox[0]) != (m.of)(bbox[2]),
        (m.of)(bbox[1]) != (m.of)(bbox[3]),
    ensures
        divides(m, spatial_formula(center, bbox)),
        meaning(m, spatial_formula(center, bbox)) == (95real / 100real) * (m.exp)(
            -(radius_number((m.of)(center.0), (m.of)(center.1), box_numbers(m, bbox)) / (3real
                / 2real)),
        ),
{
    tens();
    radius_meaning(m, center, bbox);
    let radius = radius_formula(center, bbox);
    let scale = Formula::<V>::Decimal(15, 1);
    let r = meaning(m, radius);
    assert(-r / (15real / 10real) == -(r / (3real / 2real)));
    reveal_with_fuel(meaning, 5);
    reveal_with_fuel(divides, 5);
    assert(meaning(m, radius.negative().over(scale)) == -r / (15real / 10real));
    assert(divides(m, radius.negative().over(scale)));
}

/// The coherence after some days, in numbers.
proof fn temporal_meaning<V>(m: Reals<V>, days: i64)
    ensures
        divides(m, temporal_formula::<V>(days)),
        meaning(m, temporal_formula::<V>(days)) == (m.exp)(
            -(days as real / 365real) * (3real / 10real),
        ),
{
    tens();
    reveal_with_fuel(meaning, 6);
    reveal_with_fuel(divides, 6);
    let t = days as real;
    assert(-(t / 1real) / (365real / 1real) == -(t / 365real));
}

/// The share of the signal, in numbers.
proof fn thermal_meaning<V>(m: Reals<V>)
    ensures
        divides(m, thermal_formula::<V>()),
        meaning(m, thermal_formula::<V>()) == 40real / 41real,
{
    tens();
    let ten = meaning(m, Formula::<V>::Decimal(10, 0));
    let one = meaning(m, Formula::<V>::Decimal(1, 0));
    assert(ten == 10real / 1real && one == 1real / 1real);
    let looks = EFFECTIVE_LOOKS as real;
    assert(EFFECTIVE_LOOKS == 4);
    assert(looks == 4real);
    let snr = ten * looks;
    assert(snr == 40real && one + snr != 0real && snr / (one + snr) == 40real / 41real)
        by (nonlinear_arith)
        requires
            ten == 10real / 1real,
            one == 1real / 1real,
            looks == 4real,
            snr == ten * looks,
    ;
    reveal_with_fuel(meaning, 5);
    reveal_with_fuel(divides, 5);
    assert(meaning(m, thermal_formula::<V>()) == snr / (one + snr));
}

/// A coherence after multi-looking, in numbers.
pub proof fn looked_value<K: Numerics>(k: &K, m: Reals<K::Value>, coherence: K::Value, v: K::Value)
    requires
        computes_in_reals(k, m),
        (m.root)(4real) != 0real,
        evaluates(k, multilook_coherence_formula(coherence), v),
    ensures
        (m.of)(v) == looked_number(m, (m.of)(coherence)),
{
    tens();
    let f = multilook_coherence_formula(coherence);
    reveal_with_fuel(meaning, 4);
    reveal_with_fuel(divides, 4);
    let one = meaning(m, Formula::<K::Value>::Decimal(1, 0));
    assert(one == 1real / 1real);
    assert(EFFECTIVE_LOOKS as real == 4real);
    assert(divides(m, f));
    values_are_what_formulas_come_to(k, m, f, v);
    assert((m.of)(v) == (m.pow)((m.of)(coherence), one / (m.root)(4real)));
}

/// The angle of incidence, in numbers.
pub proof fn incidence_value<K: Numerics>(
    k: &K,
    m: Reals<K::Value>,
    bbox: Seq<K::Value>,
    grid: Grid,
    cell: Cell,
    v: K::Value,
)
    requires
        computes_in_reals(k, m),
        bbox.len() == 4,
        grid.width > 0,
        grid.height > 0,
        evaluates(k, incidence_formula(bbox, grid, cell), v),
    ensures
        (m.of)(v) == incidence_number(m.pi, box_numbers(m, bbox), grid, cell),
{
    tens();
    let f = incidence_formula(bbox, grid, cell);
    swath_meaning::<K::Value>(m, cell.col, grid.width);
    curvature_meaning(m, bbox, cell.row, grid.height);
    let flat = meaning(m, Formula::<K::Value>::Decimal(180, 0));
    assert(flat == 180real / 1real);
    assert(divides(m, f) && meaning(m, f) == (meaning(
        m,
        swath_formula::<K::Value>(cell.col, grid.width),
    ) + meaning(m, curvature_formula(bbox, cell.row, grid.height))) * m.pi / flat) by {
        reveal_with_fuel(meaning, 4);
        reveal_with_fuel(divides, 4);
    }
    values_are_what_formulas_come_to(k, m, f, v);
}

/// The angle of a column, in numbers.
proof fn swath_meaning<V>(m: Reals<V>, col: usize, width: usize)
    requires
        width > 0,
    ensures
        divides(m, swath_formula::<V>(col, width)),
        meaning(m, swath_formula::<V>(col, width)) == 291real / 10real + (col as real + 1real
            / 2real) / (width as real) * (169real / 10real),
{
    tens();
    let half = meaning(m, Formula::<V>::Decimal(5, 1));
    let near = meaning(m, Formula::<V>::Decimal(291, 1));
    let far = meaning(m, Formula::<V>::Decimal(460, 1));
    assert(half == 5real / 10real && near == 291real / 10real && far == 460real / 10real);
    reveal_with_fuel(meaning, 6);
    reveal_with_fuel(divides, 6);
    let share = (col as real + half) / (width as real);
    assert(meaning(m, swath_formula::<V>(col, width)) == near + share * (far - near));
}

/// What the latitude adds, in numbers.
proof fn curvature_meaning<V>(m: Reals<V>, bbox: Seq<V>, row: usize, height: usize)
    requires
        bbox.len() == 4,
        height > 0,
    ensures
        divides(m, curvature_formula(bbox, row, height)),
        ({
            let b = box_numbers(m, bbox);
            let latitude = b[1] + (row as real + 1real / 2real) / (height as real) * (b[3] - b[1]);
            let size = if latitude < 0real {
                -latitude
            } else {
                latitude
            };
            meaning(m, curvature_formula(bbox, row, height)) == (size - 45real) / 100real
        }),
{
    tens();
    let half = meaning(m, Formula::<V>::Decimal(5, 1));
    let middle = meaning(m, Formula::<V>::Decimal(450, 1));
    let slope = meaning(m, Formula::<V>::Decimal(1, 2));
    assert(half == 5real / 10real && middle == 450real / 10real && slope == 1real / 100real);
    reveal_with_fuel(meaning, 8);
    reveal_with_fuel(divides, 8);
    let (south, north) = ((m.of)(bbox[1]), (m.of)(bbox[3]));
    let latitude = south + (row as real + half) / (height as real) * (north - south);
    let size = if latitude < 0real {
        -latitude
    } else {
        latitude
    };
    assert(meaning(m, curvature_formula(bbox, row, height)) == (size - middle) * slope);
}

// ── Measurements ──

/// In real numbers, the center of cell `i` of `n` lies behind `2 i + 1` of the `2 n` halves of
/// cells between two edges.
pub proof fn centers_lie_in_the_middle<K: Numerics>(
    k: &K,
    m: Reals<K::Value>,
    low: K::Value,
    high: K::Value,
    i: usize,
    n: usize,
    c: K::Value,
)
    requires
        computes_in_reals(k, m),
        n > 0,
        call_ensures(cell_center::<K>, (k, low, high, i, n), c),
    ensures
        ((m.of)(c) - (m.of)(low)) * (2 * n) as real == ((m.of)(high) - (m.of)(low)) * (2 * i
            + 1) as real,
{
    center_value(k, m, low, high, i, n, c);
    let (l, h, x, y, z) = ((m.of)(low), (m.of)(high), i as real, n as real, (m.of)(c));
    assert((2 * n) as real == 2real * y && (2 * i + 1) as real == 2real * x + 1real);
    assert((z - l) * (2real * y) == (h - l) * (2real * x + 1real)) by (nonlinear_arith)
        requires
            z == l + (x + 1real / 2real) * ((h - l) / y),
            y > 0real,
    ;
}

/// In real numbers, the bowl sinks by 5 mm in every 12 days in the middle of any box, and by the
/// Gaussian share of that elsewhere. The distances `x` and `y` from the middle are -1 at the low
/// edge of the box and 1 at the high edge, whatever its size.
pub proof fn bowl_has_the_size_of_the_box<K: Numerics>(
    k: &K,
    m: Reals<K::Value>,
    center: (K::Value, K::Value),
    bbox: &[K::Value; 4],
    days: i64,
    x: real,
    y: real,
    phase: K::Value,
)
    requires
        computes_in_reals(k, m),
        (m.of)(bbox@[0]) != (m.of)(bbox@[2]),
        (m.of)(bbox@[1]) != (m.of)(bbox@[3]),
        x * ((m.of)(bbox@[2]) - (m.of)(bbox@[0])) == ((m.of)(center.0) - (m.of)(bbox@[0])) - ((
        m.of)(bbox@[2]) - (m.of)(center.0)),
        y * ((m.of)(bbox@[3]) - (m.of)(bbox@[1])) == ((m.of)(center.1) - (m.of)(bbox@[1])) - ((
        m.of)(bbox@[3]) - (m.of)(center.1)),
        call_ensures(simulate_deformation_phase::<K>, (k, center, bbox, days), phase),
    ensures
        (m.of)(phase) == -(4real * m.pi * (5real / 1000real) * (days as real / 12real)) / (5546real
            / 100000real) * (m.exp)(-((x * x + y * y) / (32real / 100real))),
{
    bowl_value(k, m, center, bbox@, days, phase);
    offset_is_the_share((m.of)(center.0), (m.of)(bbox@[0]), (m.of)(bbox@[2]), x);
    offset_is_the_share((m.of)(center.1), (m.of)(bbox@[1]), (m.of)(bbox@[3]), y);
}

/// The offset is the one number that makes up the distance from the middle.
proof fn offset_is_the_share(place: real, low: real, high: real, x: real)
    requires
        low != high,
        x * (high - low) == (place - low) - (high - place),
    ensures
        x == offset_number(place, low, high),
{
    assert(x == (2real * place - low - high) / (high - low)) by (nonlinear_arith)
        requires
            low != high,
            x * (high - low) == (place - low) - (high - place),
    ;
}

/// In real numbers, at the middle of the western or eastern edge of a box the bowl has the same
/// phase whatever the box: its share is that of the squared distance 1.
pub proof fn edges_of_all_boxes_are_alike<K: Numerics>(
    k: &K,
    m: Reals<K::Value>,
    center: (K::Value, K::Value),
    bbox: &[K::Value; 4],
    days: i64,
    phase: K::Value,
    other_center: (K::Value, K::Value),
    other_box: &[K::Value; 4],
    other_phase: K::Value,
)
    requires
        computes_in_reals(k, m),
        (m.of)(bbox@[0]) != (m.of)(bbox@[2]),
        (m.of)(bbox@[1]) != (m.of)(bbox@[3]),
        (m.of)(other_box@[0]) != (m.of)(other_box@[2]),
        (m.of)(other_box@[1]) != (m.of)(other_box@[3]),
        center.0 == bbox@[0],
        2real * (m.of)(center.1) == (m.of)(bbox@[1]) + (m.of)(bbox@[3]),
        other_center.0 == other_box@[2],
        2real * (m.of)(other_center.1) == (m.of)(other_box@[1]) + (m.of)(other_box@[3]),
        call_ensures(simulate_deformation_phase::<K>, (k, center, bbox, days), phase),
        call_ensures(
            simulate_deformation_phase::<K>,
            (k, other_center, other_box, days),
            other_phase,
        ),
    ensures
        (m.of)(phase) == (m.of)(other_phase),
{
    assert(0real * ((m.of)(bbox@[3]) - (m.of)(bbox@[1])) == 0real);
    assert(0real * ((m.of)(other_box@[3]) - (m.of)(other_box@[1])) == 0real);
    bowl_has_the_size_of_the_box(k, m, center, bbox, days, -1real, 0real, phase);
    bowl_has_the_size_of_the_box(
        k,
        m,
        other_center,
        other_box,
        days,
        1real,
        0real,
        other_phase,
    );
    assert((-1real) * (-1real) == 1real * 1real) by (nonlinear_arith);
}

/// In real numbers, the atmosphere is the sum of its long, medium and short waves, at every place
/// and for every interferogram.
pub proof fn atmosphere_has_three_waves<K: Numerics>(
    k: &K,
    m: Reals<K::Value>,
    center: (K::Value, K::Value),
    seed: usize,
    x: real,
    y: real,
    phase: K::Value,
)
    requires
        computes_in_reals(k, m),
        x == (m.of)(center.0) * 1000real + seed as real * (1real / 10real),
        y == (m.of)(center.1) * 1000real + seed as real * (7real / 100real),
        call_ensures(simulate_atmospheric_phase::<K>, (k, center, seed), phase),
    ensures
        (m.of)(phase) == (m.sin)(x * (1real / 10real)) * (m.cos)(y * (8real / 100real)) * (15real
            / 100real) + ((m.sin)(x) * (m.cos)(y) * (37real / 10real) + (m.cos)(
            x * (3real / 10real),
        ) * (m.sin)(y * (5real / 10real)) * (21real / 10real)) * (8real / 100real) + (m.sin)(
            x * (27real / 10real),
        ) * (m.cos)(y * (31real / 10real)) * (3real / 100real),
{
    atmosphere_value(k, m, center, seed, phase);
}

/// In real numbers, the angle of incidence grows from 29.1 degrees at the western end of the swath
/// by 16.9 degrees to the eastern end, and by a hundredth of the latitude's distance from 45
/// degrees, on every grid.
pub proof fn incidence_follows_swath_and_latitude<K: Numerics>(
    k: &K,
    m: Reals<K::Value>,
    bbox: &[K::Value; 4],
    grid: &Grid,
    cell: &Cell,
    across: real,
    latitude: real,
    angle: K::Value,
)
    requires
        computes_in_reals(k, m),
        grid.width > 0,
        grid.height > 0,
        across * (2 * grid.width) as real == (2 * cell.col + 1) as real,
        (latitude - (m.of)(bbox@[1])) * (2 * grid.height) as real == ((m.of)(bbox@[3]) - (m.of)(
            bbox@[1],
        )) * (2 * cell.row + 1) as real,
        call_ensures(local_incidence_angle::<K>, (k, bbox, grid, cell), angle),
    ensures
        latitude >= 0real ==> (m.of)(angle) * 180real == (291real / 10real + across * (169real
            / 10real) + (latitude - 45real) / 100real) * m.pi,
        latitude < 0real ==> (m.of)(angle) * 180real == (291real / 10real + across * (169real
            / 10real) + (-latitude - 45real) / 100real) * m.pi,
{
    incidence_value(k, m, bbox@, *grid, *cell, angle);
    let (c, w) = (cell.col as real, grid.width as real);
    assert((2 * cell.col + 1) as real == 2real * c + 1real && (2 * grid.width) as real == 2real
        * w);
    assert(across == (c + 1real / 2real) / w) by (nonlinear_arith)
        requires
            across * (2real * w) == 2real * c + 1real,
            w > 0real,
    ;
    let (r, h) = (cell.row as real, grid.height as real);
    let (s, n) = ((m.of)(bbox@[1]), (m.of)(bbox@[3]));
    assert((2 * cell.row + 1) as real == 2real * r + 1real && (2 * grid.height) as real == 2real
        * h);
    let share = (r + 1real / 2real) / h;
    assert(latitude == s + share * (n - s)) by (nonlinear_arith)
        requires
            (latitude - s) * (2real * h) == (n - s) * (2real * r + 1real),
            h > 0real,
            share == (r + 1real / 2real) / h,
    ;
}

/// In real numbers, multi-looking keeps every phase.
pub proof fn multilooking_keeps_the_phase<K: Numerics>(
    k: &K,
    m: Reals<K::Value>,
    phase: K::Value,
    v: K::Value,
)
    requires
        computes_in_reals(k, m),
        (m.root)(4real) == 2real,
        call_ensures(multilook_phase::<K>, (k, phase), v),
    ensures
        (m.of)(v) == (m.of)(phase),
{
    multilook_value(k, m, phase, v);
}

/// In real numbers, the filter takes from a phase the share that the noise at the cell's distance
/// from the edges asks for: nothing where the cell is in the middle of the grid, and the more the
/// nearer it is to an edge, on every grid.
pub proof fn filter_goes_by_the_distance_from_the_edges<K: Numerics>(
    k: &K,
    m: Reals<K::Value>,
    phase: K::Value,
    grid: &Grid,
    cell: &Cell,
    depth: real,
    v: K::Value,
)
    requires
        computes_in_reals(k, m),
        grid.width > 0,
        grid.height > 0,
        depth * ((grid.width as real) * (grid.height as real)) == 4real * (cell.edge_x as real) * (
        cell.edge_y as real),
        call_ensures(goldstein_filter::<K>, (k, phase, grid, cell), v),
    ensures
        depth >= 1real ==> (m.of)(v) == (m.of)(phase),
        1real / 10real <= depth <= 1real ==> (m.of)(v) == (m.of)(phase) * (1real - (5real / 10real
            + (1real - depth) * (3real / 10real)) * (1real - depth) * (3real / 10real)),
        depth <= 1real / 10real ==> (m.of)(v) == (m.of)(phase) * (7921real / 10000real),
{
    goldstein_value(k, m, phase, *grid, *cell, v);
    let (x, y) = (cell.edge_x as real, cell.edge_y as real);
    let (w, h) = (grid.width as real, grid.height as real);
    assert(depth == (4real * x * y) / (w * h)) by (nonlinear_arith)
        requires
            depth * (w * h) == 4real * x * y,
            w > 0real,
            h > 0real,
    ;
    let inner = limited((4real * x * y) / (w * h), 1real / 10real, 1real);
    if depth >= 1real {
        let noise = 1real - inner;
        assert(1real - (5real / 10real + noise * (3real / 10real)) * noise * (3real / 10real)
            == 1real) by (nonlinear_arith)
            requires
                noise == 0real,
        ;
        let (p, d) = ((m.of)(phase), damping_number(*grid, *cell));
        assert(p * d == p) by (nonlinear_arith)
            requires
                d == 1real,
        ;
    }
    if depth <= 1real / 10real {
        let noise = 1real - inner;
        assert(1real - (5real / 10real + noise * (3real / 10real)) * noise * (3real / 10real)
            == 7921real / 10000real) by (nonlinear_arith)
            requires
                noise == 9real / 10real,
        ;
    }
}

/// In real numbers, the path that a phase stands for, twice there and back, is the share of the
/// wavelength that the phase is of a turn, seen under the angle of incidence.
pub proof fn displacement_is_the_path_of_the_phase<K: Numerics>(
    k: &K,
    m: Reals<K::Value>,
    phase: K::Value,
    incidence: K::Value,
    v: K::Value,
)
    requires
        computes_in_reals(k, m),
        (m.cos)((m.of)(incidence)) != 0real,
        call_ensures(vertical_displacement::<K>, (k, phase, incidence), v),
    ensures
        (m.of)(v) * (m.cos)((m.of)(incidence)) * (4real * m.pi) == (m.of)(phase) * (5546real
            / 100real),
{
    vertical_value(k, m, phase, incidence, v);
    let (d, c, p, x) = ((m.of)(v), (m.cos)((m.of)(incidence)), m.pi, (m.of)(phase));
    let (q, w) = (4real * p, 5546real / 100000real);
    let (s, u) = (w / q, w / q * x);
    let t = u / c;
    assert(s * q == w) by (nonlinear_arith)
        requires
            q == 4real * p,
            p > 0real,
            s == w / q,
    ;
    assert(t * c == u) by (nonlinear_arith)
        requires
            c != 0real,
            t == u / c,
    ;
    assert(d == t * 1000real);
    assert(u == s * x);
    assert(d * c * q == x * (5546real / 100real)) by (nonlinear_arith)
        requires
            d == t * 1000real,
            t * c == u,
            u == s * x,
            s * q == w,
            w == 5546real / 100000real,
    ;
}

/// In real numbers, the coherence falls off from the middle of any box with the squared distance,
/// and with every year, is reduced by the thermal noise of 40 to 1, and kept within 0.05 and 0.99.
pub proof fn coherence_falls_off_with_distance_and_time<K: Numerics>(
    k: &K,
    m: Reals<K::Value>,
    center: (K::Value, K::Value),
    bbox: &[K::Value; 4],
    days: i64,
    x: real,
    y: real,
    full: real,
    v: K::Value,
)
    requires
        computes_in_reals(k, m),
        (m.of)(bbox@[0]) != (m.of)(bbox@[2]),
        (m.of)(bbox@[1]) != (m.of)(bbox@[3]),
        x * ((m.of)(bbox@[2]) - (m.of)(bbox@[0])) == ((m.of)(center.0) - (m.of)(bbox@[0])) - ((
        m.of)(bbox@[2]) - (m.of)(center.0)),
        y * ((m.of)(bbox@[3]) - (m.of)(bbox@[1])) == ((m.of)(center.1) - (m.of)(bbox@[1])) - ((
        m.of)(bbox@[3]) - (m.of)(center.1)),
        full == (95real / 100real) * (m.exp)(-((x * x + y * y) / (3real / 2real))) * (m.exp)(
            -(days as real / 365real) * (3real / 10real),
        ) * (40real / 41real),
        call_ensures(estimate_coherence::<K>, (k, center, bbox, days), v),
    ensures
        5real / 100real <= full <= 99real / 100real ==> (m.of)(v) == full,
        full < 5real / 100real ==> (m.of)(v) == 5real / 100real,
        full > 99real / 100real ==> (m.of)(v) == 99real / 100real,
{
    coherence_value(k, m, center, bbox@, days, v);
    offset_is_the_share((m.of)(center.0), (m.of)(bbox@[0]), (m.of)(bbox@[2]), x);
    offset_is_the_share((m.of)(center.1), (m.of)(bbox@[1]), (m.of)(bbox@[3]), y);
}

/// In real numbers, multi-looking takes the square root of every coherence.
pub proof fn multilooking_takes_the_root_of_the_coherence<K: Numerics>(
    k: &K,
    m: Reals<K::Value>,
    coherence: K::Value,
    v: K::Value,
)
    requires
        computes_in_reals(k, m),
        (m.root)(4real) == 2real,
        call_ensures(multilook_coherence::<K>, (k, coherence), v),
    ensures
        (m.of)(v) == (m.pow)((m.of)(coherence), 1real / 2real),
{
    looked_value(k, m, coherence, v);
}

} // verus!
