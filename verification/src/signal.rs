//! The radar signal: where a cell lies, which phase it shows, and how reliable that is.
//!
//! A box holds its west, south, east and north edge, in degrees. Each function computes the formula
//! of the same name.
use vstd::prelude::*;
use crate::formula::{evaluates, Formula, Term};
use crate::grid::{Cell, Grid};
use crate::numerics::{is_count, is_product, is_quotient, is_root, Numerics};

verus! {

/// Range looks of the multi-looking.
pub const LOOKS_RANGE: usize = 4;

/// Azimuth looks of the multi-looking.
pub const LOOKS_AZIMUTH: usize = 1;

/// The looks that reduce noise.
pub const EFFECTIVE_LOOKS: usize = LOOKS_RANGE * LOOKS_AZIMUTH;

// ── Formulas ──

/// The center of the cell at place `i` of `n` between two edges.
pub open spec fn center_formula<V>(low: V, high: V, i: usize, n: usize) -> Formula<V> {
    let step = Formula::Known(high).minus(Formula::Known(low)).over(Formula::Count(n));
    Formula::Known(low).plus(Formula::Count(i).plus(Formula::Decimal(5, 1)).times(step))
}

/// The angle of incidence in a column of the swath, in degrees: from 29.1 at the near end to 46 at
/// the far end.
pub open spec fn swath_formula<V>(col: usize, width: usize) -> Formula<V> {
    let range_fraction = Formula::Count(col).plus(Formula::Decimal(5, 1)).over(
        Formula::Count(width),
    );
    let swath = Formula::Decimal(460, 1).minus(Formula::Decimal(291, 1));
    Formula::Decimal(291, 1).plus(range_fraction.times(swath))
}

/// What the latitude of a row adds to the angle of incidence, in degrees.
pub open spec fn curvature_formula<V>(bbox: Seq<V>, row: usize, height: usize) -> Formula<V> {
    let latitude = Formula::Known(bbox[1]).plus(
        Formula::Count(row).plus(Formula::Decimal(5, 1)).over(Formula::Count(height)).times(
            Formula::Known(bbox[3]).minus(Formula::Known(bbox[1])),
        ),
    );
    latitude.magnitude().minus(Formula::Decimal(450, 1)).times(Formula::Decimal(1, 2))
}

/// The angle of incidence at a cell, in radians: that of its column in the swath, with a slight
/// dependence on the latitude.
pub open spec fn incidence_formula<V>(bbox: Seq<V>, grid: Grid, cell: Cell) -> Formula<V> {
    swath_formula(cell.col, grid.width).plus(
        curvature_formula(bbox, cell.row, grid.height),
    ).times(Formula::Pi).over(Formula::Decimal(180, 0))
}

/// The middle of two edges.
pub open spec fn middle_formula<V>(low: V, high: V) -> Formula<V> {
    Formula::Known(low).plus(Formula::Known(high)).over(Formula::Decimal(2, 0))
}

/// Half the distance of two edges.
pub open spec fn extent_formula<V>(low: V, high: V) -> Formula<V> {
    Formula::Known(high).minus(Formula::Known(low)).over(Formula::Decimal(2, 0))
}

/// The distance of a place from the middle of two edges, in halves of their distance.
pub open spec fn offset_formula<V>(place: V, low: V, high: V) -> Formula<V> {
    Formula::Known(place).minus(middle_formula(low, high)).over(extent_formula(low, high))
}

/// The squared distance of a place from the center of a box: zero there, one at the middle of an
/// edge.
pub open spec fn radius_formula<V>(center: (V, V), bbox: Seq<V>) -> Formula<V> {
    let dx = offset_formula(center.0, bbox[0], bbox[2]);
    let dy = offset_formula(center.1, bbox[1], bbox[3]);
    dx.times(dx).plus(dy.times(dy))
}

/// The depth of a subsidence bowl at a place, as a share of its depth in the middle: a Gaussian
/// with a deviation of 0.4.
pub open spec fn weight_formula<V>(center: (V, V), bbox: Seq<V>) -> Formula<V> {
    let variance = Formula::Decimal(4, 1).times(Formula::Decimal(4, 1));
    radius_formula(center, bbox).negative().over(
        Formula::Decimal(2, 0).times(variance),
    ).exponential()
}

/// The phase of ground that sinks 5 mm in every repeat cycle of 12 days.
pub open spec fn sinking_formula<V>(days: i64) -> Formula<V> {
    let metres = Formula::Decimal(-5i64, 3).times(
        Formula::Decimal(days, 0).over(Formula::Decimal(120, 1)),
    );
    Formula::Decimal(4, 0).times(Formula::Pi).times(metres).over(Formula::Decimal(5546, 5))
}

/// The phase of a subsidence bowl in the middle of a box.
pub open spec fn deformation_formula<V>(center: (V, V), bbox: Seq<V>, days: i64) -> Formula<V> {
    sinking_formula(days).times(weight_formula(center, bbox))
}

/// A wave over the grid: the sine of one place times the cosine of the other.
pub open spec fn wave_formula<V>(x: Formula<V>, y: Formula<V>) -> Formula<V> {
    x.sine().times(y.cosine())
}

/// The phase of the atmosphere: waves of three lengths.
pub open spec fn atmosphere_formula<V>(center: (V, V), seed: usize) -> Formula<V> {
    let thousand = Formula::Decimal(1000, 0);
    let x = Formula::Known(center.0).times(thousand).plus(
        Formula::Count(seed).times(Formula::Decimal(1, 1)),
    );
    let y = Formula::Known(center.1).times(thousand).plus(
        Formula::Count(seed).times(Formula::Decimal(7, 2)),
    );
    let long = wave_formula(
        x.times(Formula::Decimal(1, 1)),
        y.times(Formula::Decimal(8, 2)),
    ).times(Formula::Decimal(15, 2));
    let medium = wave_formula(x, y).times(Formula::Decimal(37, 1)).plus(
        x.times(Formula::Decimal(3, 1)).cosine().times(
            y.times(Formula::Decimal(5, 1)).sine(),
        ).times(Formula::Decimal(21, 1)),
    ).times(Formula::Decimal(8, 2));
    let short = wave_formula(
        x.times(Formula::Decimal(27, 1)),
        y.times(Formula::Decimal(31, 1)),
    ).times(Formula::Decimal(3, 2));
    long.plus(medium).plus(short)
}

/// A phase after multi-looking, which preserves it.
pub open spec fn multilook_formula<V>(phase: V) -> Formula<V> {
    let looks = Formula::Count(EFFECTIVE_LOOKS).root();
    Formula::Known(phase).over(looks).times(looks)
}

/// How close a cell is to the middle of the grid in one direction: its distance from the nearer
/// edge, in halves of the grid.
pub open spec fn depth_formula<V>(edge: usize, n: usize) -> Formula<V> {
    Formula::Count(edge).over(Formula::Count(n).over(Formula::Decimal(2, 0)))
}

/// How close a cell is to the middle of the grid, in both directions together: from 0.1 at the
/// edges to 1.
pub open spec fn inner_formula<V>(grid: Grid, cell: Cell) -> Formula<V> {
    depth_formula(cell.edge_x, grid.width).times(depth_formula(cell.edge_y, grid.height)).within(
        Formula::Decimal(1, 1),
        Formula::Decimal(1, 0),
    )
}

/// What the Goldstein filter leaves of a phase, which is less towards the edges of the grid.
pub open spec fn damping_formula<V>(grid: Grid, cell: Cell) -> Formula<V> {
    let one = Formula::Decimal(1, 0);
    let noise = one.minus(inner_formula(grid, cell));
    let alpha = Formula::Decimal(5, 1).plus(noise.times(Formula::Decimal(3, 1)));
    one.minus(alpha.times(noise).times(Formula::Decimal(3, 1)))
}

/// A phase after the Goldstein filter.
pub open spec fn goldstein_formula<V>(phase: V, grid: Grid, cell: Cell) -> Formula<V> {
    Formula::Known(phase).times(damping_formula(grid, cell))
}

/// A phase as a vertical displacement in millimetres: the wavelength over four pi times the phase
/// along the line of sight, over the cosine of the incidence.
pub open spec fn vertical_formula<V>(phase: V, incidence: V) -> Formula<V> {
    let sight = Formula::Decimal(5546, 5).over(Formula::Decimal(4, 0).times(Formula::Pi)).times(
        Formula::Known(phase),
    );
    sight.over(Formula::Known(incidence).cosine()).times(Formula::Decimal(1000, 0))
}

/// The coherence of a place: high in the middle of the box.
pub open spec fn spatial_formula<V>(center: (V, V), bbox: Seq<V>) -> Formula<V> {
    Formula::Decimal(95, 2).times(
        radius_formula(center, bbox).negative().over(Formula::Decimal(15, 1)).exponential(),
    )
}

/// The coherence after some days: high after a short time.
pub open spec fn temporal_formula<V>(days: i64) -> Formula<V> {
    Formula::Decimal(days, 0).negative().over(Formula::Decimal(365, 0)).times(
        Formula::Decimal(3, 1),
    ).exponential()
}

/// The share of the signal in a measurement with thermal noise.
pub open spec fn thermal_formula<V>() -> Formula<V> {
    let snr = Formula::Decimal(10, 0).times(Formula::Count(EFFECTIVE_LOOKS));
    snr.over(Formula::Decimal(1, 0).plus(snr))
}

/// The coherence between two acquisitions, within 0.05 and 0.99.
pub open spec fn coherence_formula<V>(center: (V, V), bbox: Seq<V>, days: i64) -> Formula<V> {
    spatial_formula(center, bbox).times(temporal_formula(days)).times(thermal_formula()).within(
        Formula::Decimal(5, 2),
        Formula::Decimal(99, 2),
    )
}

/// A coherence after multi-looking, which improves it.
pub open spec fn multilook_coherence_formula<V>(coherence: V) -> Formula<V> {
    Formula::Known(coherence).power(
        Formula::Decimal(1, 0).over(Formula::Count(EFFECTIVE_LOOKS).root()),
    )
}

// ── Values ──

/// Longitude or latitude of a cell's center, from the edges in that direction.
pub fn cell_center<K: Numerics>(k: &K, low: K::Value, high: K::Value, i: usize, n: usize) -> (c:
    K::Value)
    ensures
        evaluates(k, center_formula(low, high, i, n), c),
{
    let start = Term::known(k, low);
    let step = Term::known(k, high).minus(k, &start).over(k, &Term::count(k, n));
    let half = Term::decimal(k, 5, 1);
    let center = start.plus(k, &Term::count(k, i).plus(k, &half).times(k, &step));
    center.value
}

/// The angle of incidence at a cell.
pub fn local_incidence_angle<K: Numerics>(
    k: &K,
    bbox: &[K::Value; 4],
    grid: &Grid,
    cell: &Cell,
) -> (angle: K::Value)
    ensures
        evaluates(k, incidence_formula(bbox@, *grid, *cell), angle),
{
    let half = Term::decimal(k, 5, 1);
    let near = Term::decimal(k, 291, 1);
    let south = Term::known(k, bbox[1]);
    let range_fraction = Term::count(k, cell.col).plus(k, &half).over(
        k,
        &Term::count(k, grid.width),
    );
    let swath = Term::decimal(k, 460, 1).minus(k, &near);
    let degrees = near.plus(k, &range_fraction.times(k, &swath));
    let height_fraction = Term::count(k, cell.row).plus(k, &half).over(
        k,
        &Term::count(k, grid.height),
    );
    let latitude = south.plus(
        k,
        &height_fraction.times(k, &Term::known(k, bbox[3]).minus(k, &south)),
    );
    let correction = latitude.magnitude(k).minus(k, &Term::decimal(k, 450, 1)).times(
        k,
        &Term::decimal(k, 1, 2),
    );
    let angle = degrees.plus(k, &correction).times(k, &Term::pi(k)).over(
        k,
        &Term::decimal(k, 180, 0),
    );
    angle.value
}

/// The distance of a place from the middle of two edges.
fn offset<K: Numerics>(k: &K, place: K::Value, low: K::Value, high: K::Value) -> (term: Term<
    K::Value,
>)
    ensures
        term.holds(k),
        term.formula@ == offset_formula(place, low, high),
{
    let two = Term::decimal(k, 2, 0);
    let start = Term::known(k, low);
    let end = Term::known(k, high);
    let middle = start.plus(k, &end).over(k, &two);
    let extent = end.minus(k, &start).over(k, &two);
    Term::known(k, place).minus(k, &middle).over(k, &extent)
}

/// The squared distance of a place from the center of a box.
fn radius<K: Numerics>(k: &K, center: (K::Value, K::Value), bbox: &[K::Value; 4]) -> (term: Term<
    K::Value,
>)
    ensures
        term.holds(k),
        term.formula@ == radius_formula(center, bbox@),
{
    let dx = offset(k, center.0, bbox[0], bbox[2]);
    let dy = offset(k, center.1, bbox[1], bbox[3]);
    dx.times(k, &dx).plus(k, &dy.times(k, &dy))
}

/// The phase of the deformation at a place after some days.
pub fn simulate_deformation_phase<K: Numerics>(
    k: &K,
    center: (K::Value, K::Value),
    bbox: &[K::Value; 4],
    days: i64,
) -> (phase: K::Value)
    ensures
        evaluates(k, deformation_formula(center, bbox@, days), phase),
{
    let deviation = Term::decimal(k, 4, 1);
    let variance = deviation.times(k, &deviation);
    let weight = radius(k, center, bbox).negative(k).over(
        k,
        &Term::decimal(k, 2, 0).times(k, &variance),
    ).exponential(k);
    let cycles = Term::decimal(k, days, 0).over(k, &Term::decimal(k, 120, 1));
    let metres = Term::decimal(k, -5, 3).times(k, &cycles);
    let scale = Term::decimal(k, 4, 0).times(k, &Term::pi(k)).times(k, &metres).over(
        k,
        &Term::decimal(k, 5546, 5),
    );
    let phase = scale.times(k, &weight);
    phase.value
}

/// The phase of the atmosphere at a place.
pub fn simulate_atmospheric_phase<K: Numerics>(
    k: &K,
    center: (K::Value, K::Value),
    seed: usize,
) -> (phase: K::Value)
    ensures
        evaluates(k, atmosphere_formula(center, seed), phase),
{
    let thousand = Term::decimal(k, 1000, 0);
    let tenth = Term::decimal(k, 1, 1);
    let count = Term::count(k, seed);
    let x = Term::known(k, center.0).times(k, &thousand).plus(k, &count.times(k, &tenth));
    let y = Term::known(k, center.1).times(k, &thousand).plus(
        k,
        &count.times(k, &Term::decimal(k, 7, 2)),
    );
    let long = wave(k, &x.times(k, &tenth), &y.times(k, &Term::decimal(k, 8, 2))).times(
        k,
        &Term::decimal(k, 15, 2),
    );
    let crossed = x.times(k, &Term::decimal(k, 3, 1)).cosine(k).times(
        k,
        &y.times(k, &Term::decimal(k, 5, 1)).sine(k),
    );
    let medium = wave(k, &x, &y).times(k, &Term::decimal(k, 37, 1)).plus(
        k,
        &crossed.times(k, &Term::decimal(k, 21, 1)),
    ).times(k, &Term::decimal(k, 8, 2));
    let short = wave(
        k,
        &x.times(k, &Term::decimal(k, 27, 1)),
        &y.times(k, &Term::decimal(k, 31, 1)),
    ).times(k, &Term::decimal(k, 3, 2));
    let phase = long.plus(k, &medium).plus(k, &short);
    phase.value
}

/// A wave over the grid.
fn wave<K: Numerics>(k: &K, x: &Term<K::Value>, y: &Term<K::Value>) -> (term: Term<K::Value>)
    requires
        x.holds(k),
        y.holds(k),
    ensures
        term.holds(k),
        term.formula@ == wave_formula(x.formula@, y.formula@),
{
    x.sine(k).times(k, &y.cosine(k))
}

/// A phase after multi-looking.
pub fn multilook_phase<K: Numerics>(k: &K, phase: K::Value) -> (looked: K::Value)
    ensures
        evaluates(k, multilook_formula(phase), looked),
{
    let looks = Term::count(k, EFFECTIVE_LOOKS).root(k);
    let looked = Term::known(k, phase).over(k, &looks).times(k, &looks);
    looked.value
}

/// How close a cell is to the middle of the grid in one direction.
fn depth<K: Numerics>(k: &K, edge: usize, n: usize) -> (term: Term<K::Value>)
    ensures
        term.holds(k),
        term.formula@ == depth_formula::<K::Value>(edge, n),
{
    Term::count(k, edge).over(k, &Term::count(k, n).over(k, &Term::decimal(k, 2, 0)))
}

/// A phase after the Goldstein filter.
pub fn goldstein_filter<K: Numerics>(k: &K, phase: K::Value, grid: &Grid, cell: &Cell) -> (filtered:
    K::Value)
    ensures
        evaluates(k, goldstein_formula(phase, *grid, *cell), filtered),
{
    let one = Term::decimal(k, 1, 0);
    let strength = Term::decimal(k, 3, 1);
    let inner = depth(k, cell.edge_x, grid.width).times(
        k,
        &depth(k, cell.edge_y, grid.height),
    ).within(k, &Term::decimal(k, 1, 1), &one);
    let noise = one.minus(k, &inner);
    let alpha = Term::decimal(k, 5, 1).plus(k, &noise.times(k, &strength));
    let damping = one.minus(k, &alpha.times(k, &noise).times(k, &strength));
    let filtered = Term::known(k, phase).times(k, &damping);
    filtered.value
}

/// A phase as a vertical displacement in millimetres.
pub fn vertical_displacement<K: Numerics>(k: &K, phase: K::Value, incidence: K::Value) -> (mm:
    K::Value)
    ensures
        evaluates(k, vertical_formula(phase, incidence), mm),
{
    let turn = Term::decimal(k, 4, 0).times(k, &Term::pi(k));
    let sight = Term::decimal(k, 5546, 5).over(k, &turn).times(k, &Term::known(k, phase));
    let mm = sight.over(k, &Term::known(k, incidence).cosine(k)).times(
        k,
        &Term::decimal(k, 1000, 0),
    );
    mm.value
}

/// The coherence at a place between two acquisitions some days apart.
pub fn estimate_coherence<K: Numerics>(
    k: &K,
    center: (K::Value, K::Value),
    bbox: &[K::Value; 4],
    days: i64,
) -> (coherence: K::Value)
    ensures
        evaluates(k, coherence_formula(center, bbox@, days), coherence),
{
    let spatial = Term::decimal(k, 95, 2).times(
        k,
        &radius(k, center, bbox).negative(k).over(k, &Term::decimal(k, 15, 1)).exponential(k),
    );
    let temporal = Term::decimal(k, days, 0).negative(k).over(k, &Term::decimal(k, 365, 0)).times(
        k,
        &Term::decimal(k, 3, 1),
    ).exponential(k);
    let snr = Term::decimal(k, 10, 0).times(k, &Term::count(k, EFFECTIVE_LOOKS));
    let thermal = snr.over(k, &Term::decimal(k, 1, 0).plus(k, &snr));
    let coherence = spatial.times(k, &temporal).times(k, &thermal).within(
        k,
        &Term::decimal(k, 5, 2),
        &Term::decimal(k, 99, 2),
    );
    coherence.value
}

/// A coherence after multi-looking.
pub fn multilook_coherence<K: Numerics>(k: &K, coherence: K::Value) -> (looked: K::Value)
    ensures
        evaluates(k, multilook_coherence_formula(coherence), looked),
{
    let exponent = Term::decimal(k, 1, 0).over(k, &Term::count(k, EFFECTIVE_LOOKS).root(k));
    let looked = Term::known(k, coherence).power(k, &exponent);
    looked.value
}

/// Where the looks have one root, and multiplying with it undoes dividing by it, multi-looking
/// leaves a phase as it is.
pub proof fn multilooking_preserves_the_phase<K: Numerics>(
    k: &K,
    looks: K::Value,
    phase: K::Value,
    looked: K::Value,
)
    requires
        evaluates(k, multilook_formula(phase), looked),
        forall|n: K::Value, r: K::Value|
            is_count(k, EFFECTIVE_LOOKS, n) && #[trigger] is_root(k, n, r) ==> r == looks,
        forall|q: K::Value, r: K::Value| #[trigger]
            is_quotient(k, phase, looks, q) && #[trigger] is_product(k, q, looks, r) ==> r == phase,
    ensures
        looked == phase,
{
    reveal_with_fuel(evaluates, 5);
}

} // verus!
