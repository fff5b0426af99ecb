//! Enumeration of the grid windows that meet a bounding box.
//!
//! A window is named by its integer grid indices `(i, j)`; with the cell
//! intervals `dx` and `dy` it covers `[i * dx, (i + 1) * dx]` by
//! `[j * dy, (j + 1) * dy]`.
use vstd::arithmetic::div_mod::lemma_fundamental_div_mod_converse;
use vstd::prelude::*;

use crate::geocode::{Geocode, Interval};

verus! {

#[derive(Clone, Copy, Debug, PartialEq, Eq, Structural)]
pub struct Window {
    pub x_index: i64,
    pub y_index: i64,
}

/// The index of the cell that holds `v` (cells are closed below).
pub open spec fn floor_index(v: int, iv: Interval) -> int {
    (v * iv.divisions) / (iv.span as int)
}

/// One past the index of the last cell that reaches `v`.
pub open spec fn ceil_index(v: int, iv: Interval) -> int {
    -((-v * iv.divisions) / (iv.span as int))
}

/// The windows of the index ranges `[i0, i1)` and `[j0, j1)`, x-major.
pub open spec fn spec_windows(i0: int, i1: int, j0: int, j1: int) -> Seq<(int, int)> {
    let nx = if i1 > i0 { i1 - i0 } else { 0 };
    let ny = if j1 > j0 { j1 - j0 } else { 0 };
    Seq::new((nx * ny) as nat, |t: int| (i0 + t / ny, j0 + t % ny))
}

/// The index ranges of a bounding box fit the integers of a window.
pub open spec fn windows_fit(
    min_x: int,
    max_x: int,
    min_y: int,
    max_y: int,
    x_interval: Interval,
    y_interval: Interval,
) -> bool {
    &&& i64::MIN <= floor_index(min_x, x_interval)
    &&& ceil_index(max_x, x_interval) <= i64::MAX
    &&& i64::MIN <= floor_index(min_y, y_interval)
    &&& ceil_index(max_y, y_interval) <= i64::MAX
}

/// `a / d`, rounded down.
fn floor_div(a: i128, d: i128) -> (r: i128)
    requires
        d > 0,
        a > i128::MIN,
    ensures
        r == a / d,
        a >= 0 ==> 0 <= r <= a,
        a < 0 ==> a <= r < 0,
{
    if a >= 0 {
        let q = (a as u128) / (d as u128);
        proof {
            assert(q <= a) by (nonlinear_arith)
                requires
                    q == (a as int) / (d as int),
                    a >= 0,
                    d >= 1,
            {
                vstd::arithmetic::div_mod::lemma_div_is_ordered_by_denominator(a as int, 1, d as int);
            }
        }
        q as i128
    } else {
        let m = (-a) as u128;
        let x = m + (d as u128 - 1);
        let c = x / (d as u128);
        let s = x % (d as u128);
        proof {
            vstd::arithmetic::div_mod::lemma_fundamental_div_mod(x as int, d as int);
            assert(a == -(c as int) * d + (d - 1 - s)) by (nonlinear_arith)
                requires
                    x == d * c + s,
                    x == m + (d - 1),
                    m == -a,
            ;
            assert(1 <= c <= m) by (nonlinear_arith)
                requires
                    x == d * c + s,
                    x == m + (d - 1),
                    m >= 1,
                    d >= 1,
                    0 <= s < d,
            ;
            lemma_fundamental_div_mod_converse(a as int, d as int, -(c as int), d - 1 - s);
        }
        -(c as i128)
    }
}

/// Grid index of the cell holding `v`, and one past the last cell
/// reaching `hi`, for one axis.
fn index_range(lo: i64, hi: i64, iv: Interval) -> (r: (i128, i128))
    requires
        iv.span > 0,
    ensures
        r.0 == floor_index(lo as int, iv),
        r.1 == ceil_index(hi as int, iv),
{
    proof {
        assert((lo as int) * (iv.divisions as int) > i128::MIN) by (nonlinear_arith)
            requires
                i64::MIN <= lo <= i64::MAX,
                0 <= iv.divisions <= u64::MAX,
        ;
        assert((lo as int) * (iv.divisions as int) < i128::MAX) by (nonlinear_arith)
            requires
                i64::MIN <= lo <= i64::MAX,
                0 <= iv.divisions <= u64::MAX,
        ;
        assert(-(hi as int) * (iv.divisions as int) > i128::MIN) by (nonlinear_arith)
            requires
                i64::MIN <= hi <= i64::MAX,
                0 <= iv.divisions <= u64::MAX,
        ;
        assert(-(hi as int) * (iv.divisions as int) < i128::MAX) by (nonlinear_arith)
            requires
                i64::MIN <= hi <= i64::MAX,
                0 <= iv.divisions <= u64::MAX,
        ;
    }
    let first = floor_div(lo as i128 * iv.divisions as i128, iv.span as i128);
    let q = floor_div(-(hi as i128) * iv.divisions as i128, iv.span as i128);
    proof {
        assert(-(hi as int) * (iv.divisions as int) == (-hi) * iv.divisions);
    }
    (first, -q)
}

/// All windows of the grid of cell sizes `x_interval` and `y_interval` that
/// meet the box `[min_x, max_x]` by `[min_y, max_y]`: the indices run over
/// `[floor(min / d), ceil(max / d))` on each axis, x-major.
pub fn get_windows(
    min_x: i64,
    max_x: i64,
    min_y: i64,
    max_y: i64,
    x_interval: Interval,
    y_interval: Interval,
) -> (r: Vec<Window>)
    requires
        x_interval.span > 0,
        y_interval.span > 0,
        windows_fit(min_x as int, max_x as int, min_y as int, max_y as int, x_interval, y_interval),
    ensures
        ({
            let w = spec_windows(
                floor_index(min_x as int, x_interval),
                ceil_index(max_x as int, x_interval),
                floor_index(min_y as int, y_interval),
                ceil_index(max_y as int, y_interval),
            );
            &&& r@.len() == w.len()
            &&& forall|t: int| 0 <= t < r@.len() ==> (r@[t].x_index as int, r@[t].y_index as int) == w[t]
        }),
{
    let (i0, i1) = index_range(min_x, max_x, x_interval);
    let (j0, j1) = index_range(min_y, max_y, y_interval);
    let ghost w = spec_windows(i0 as int, i1 as int, j0 as int, j1 as int);
    let ghost ny: int = if j1 > j0 { j1 - j0 } else { 0 };
    let mut r: Vec<Window> = Vec::new();
    if i1 <= i0 || j1 <= j0 {
        assert(w.len() == 0) by (nonlinear_arith)
            requires
                w.len() == (if i1 > i0 { i1 - i0 } else { 0 }) * ny,
                i1 <= i0 || j1 <= j0,
                ny == (if j1 > j0 { j1 - j0 } else { 0 }),
        ;
        return r;
    }
    assert(w.len() == (i1 - i0) * ny) by {
        assert((i1 - i0) * ny >= 0) by (nonlinear_arith)
            requires
                i1 > i0,
                ny > 0,
        ;
    }
    let mut i: i128 = i0;
    while i < i1
        invariant
            i0 <= i <= i1,
            j0 < j1,
            i1 <= i64::MAX,
            i64::MIN <= i0,
            i64::MIN <= j0,
            j1 <= i64::MAX,
            ny == j1 - j0,
            w == spec_windows(i0 as int, i1 as int, j0 as int, j1 as int),
            w.len() == (i1 - i0) * ny,
            r@.len() == (i - i0) * ny,
            forall|t: int| 0 <= t < r@.len() ==> (r@[t].x_index as int, r@[t].y_index as int) == w[t],
        decreases i1 - i,
    {
        let mut j: i128 = j0;
        while j < j1
            invariant
                i0 <= i < i1,
                j0 <= j <= j1,
                i1 <= i64::MAX,
                i64::MIN <= i0,
                i64::MIN <= j0,
                j1 <= i64::MAX,
                ny == j1 - j0,
                w == spec_windows(i0 as int, i1 as int, j0 as int, j1 as int),
                w.len() == (i1 - i0) * ny,
                r@.len() == (i - i0) * ny + (j - j0),
                forall|t: int| 0 <= t < r@.len() ==> (r@[t].x_index as int, r@[t].y_index as int) == w[t],
            decreases j1 - j,
        {
            let ghost t: int = r@.len() as int;
            proof {
                lemma_fundamental_div_mod_converse(t, ny, i - i0, j - j0);
                vstd::arithmetic::mul::lemma_mul_inequality(i - i0 + 1, i1 - i0, ny);
                assert((i - i0 + 1) * ny == (i - i0) * ny + ny) by (nonlinear_arith);
            }
            r.push(Window { x_index: i as i64, y_index: j as i64 });
            j = j + 1;
        }
        proof {
            assert((i - i0) * ny + ny == (i + 1 - i0) * ny) by (nonlinear_arith);
        }
        i = i + 1;
    }
    assert(r@.len() == w.len());
    r
}

/// The windows that the enumeration yields tile the index box: no window
/// comes twice (their interiors are disjoint), each lies in the box, and
/// every cell of the box is one of them.
pub proof fn lemma_windows_tile(i0: int, i1: int, j0: int, j1: int)
    requires
        i0 <= i1,
        j0 <= j1,
    ensures
        ({
            let w = spec_windows(i0, i1, j0, j1);
            &&& w.len() == (i1 - i0) * (j1 - j0)
            &&& forall|t: int, u: int| 0 <= t < u < w.len() ==> w[t] != w[u]
            &&& forall|t: int|
                0 <= t < w.len() ==> i0 <= #[trigger] w[t].0 < i1 && j0 <= w[t].1 < j1
            &&& forall|i: int, j: int|
                i0 <= i < i1 && j0 <= j < j1 ==> #[trigger] w.contains((i, j))
        }),
{
    let w = spec_windows(i0, i1, j0, j1);
    let ny = j1 - j0;
    if i0 == i1 || j0 == j1 {
        assert(w.len() == 0);
        return;
    }
    assert(w.len() == (i1 - i0) * ny) by {
        assert((i1 - i0) * ny >= 0) by (nonlinear_arith)
            requires
                i1 > i0,
                ny > 0,
        ;
    }
    assert forall|t: int, u: int| 0 <= t < u < w.len() implies w[t] != w[u] by {
        lemma_div_mod_bounds(t, ny);
        lemma_div_mod_bounds(u, ny);
        if w[t] == w[u] {
            assert(t == (t / ny) * ny + t % ny);
            assert(u == (u / ny) * ny + u % ny);
        }
    }
    assert forall|t: int| 0 <= t < w.len() implies i0 <= #[trigger] w[t].0 < i1 && j0 <= w[t].1
        < j1 by {
        lemma_div_mod_bounds(t, ny);
        assert(t / ny < i1 - i0) by (nonlinear_arith)
            requires
                t == (t / ny) * ny + t % ny,
                0 <= t % ny,
                t < (i1 - i0) * ny,
                ny > 0,
        ;
    }
    assert forall|i: int, j: int| i0 <= i < i1 && j0 <= j < j1 implies #[trigger] w.contains(
        (i, j),
    ) by {
        let t = (i - i0) * ny + (j - j0);
        lemma_fundamental_div_mod_converse(t, ny, i - i0, j - j0);
        vstd::arithmetic::mul::lemma_mul_inequality(i - i0 + 1, i1 - i0, ny);
        assert((i - i0 + 1) * ny == (i - i0) * ny + ny) by (nonlinear_arith);
        assert(w[t] == (i, j));
    }
}

proof fn lemma_div_mod_bounds(t: int, ny: int)
    requires
        t >= 0,
        ny > 0,
    ensures
        t == (t / ny) * ny + t % ny,
        0 <= t % ny < ny,
        t / ny >= 0,
{
    vstd::arithmetic::div_mod::lemma_fundamental_div_mod(t, ny);
    vstd::arithmetic::div_mod::lemma_mod_bound(t, ny);
    vstd::arithmetic::div_mod::lemma_div_pos_is_pos(t, ny);
    assert(t == ny * (t / ny) + t % ny);
    assert((t / ny) * ny == ny * (t / ny)) by (nonlinear_arith);
}

/// The windows of a geohash grid of `precision` symbols over a box given in
/// latitude and longitude; each pair is `(latitude index, longitude index)`,
/// latitude-major.
pub fn get_coordinate_bounds(
    lat_min: i64,
    lat_max: i64,
    long_min: i64,
    long_max: i64,
    precision: u8,
) -> (r: Vec<Window>)
    requires
        precision <= Geocode::Geohash.max_precision(),
        windows_fit(
            lat_min as int,
            lat_max as int,
            long_min as int,
            long_max as int,
            compute_delta_spec(precision as nat).0,
            compute_delta_spec(precision as nat).1,
        ),
    ensures
        ({
            let (lat_iv, long_iv) = compute_delta_spec(precision as nat);
            let w = spec_windows(
                floor_index(lat_min as int, lat_iv),
                ceil_index(lat_max as int, lat_iv),
                floor_index(long_min as int, long_iv),
                ceil_index(long_max as int, long_iv),
            );
            &&& r@.len() == w.len()
            &&& forall|t: int| 0 <= t < r@.len() ==> (r@[t].x_index as int, r@[t].y_index as int) == w[t]
        }),
{
    let (lat_iv, long_iv) = compute_delta(precision);
    get_windows(lat_min, lat_max, long_min, long_max, lat_iv, long_iv)
}

/// The geohash cell sizes of `precision` symbols, latitude first.
pub open spec fn compute_delta_spec(precision: nat) -> (Interval, Interval) {
    (
        Interval {
            span: Geocode::Geohash.span_y() as u64,
            divisions: vstd::arithmetic::power2::pow2(Geocode::Geohash.y_bits(precision)) as u64,
        },
        Interval {
            span: Geocode::Geohash.span_x() as u64,
            divisions: vstd::arithmetic::power2::pow2(Geocode::Geohash.x_bits(precision)) as u64,
        },
    )
}

/// The geohash cell sizes at `precision` symbols as `(latitude, longitude)`.
pub fn compute_delta(precision: u8) -> (r: (Interval, Interval))
    requires
        precision <= Geocode::Geohash.max_precision(),
    ensures
        r == compute_delta_spec(precision as nat),
        r.0.span > 0,
        r.1.span > 0,
{
    let (x_iv, y_iv) = Geocode::Geohash.get_intervals(precision);
    (y_iv, x_iv)
}

} // verus!
