//! Hierarchical geocodes: a point is located by repeated halving of the
//! native bounds, alternating between the x axis and the y axis, and each
//! group of halvings becomes one symbol of the code.
use vstd::arithmetic::div_mod::lemma_fundamental_div_mod_converse;
use vstd::arithmetic::power2::{lemma_pow2_pos, lemma_pow2_unfold, pow2};
use vstd::prelude::*;
use vstd::string::StrSliceExecFns;

use crate::wrappers::push_char;

verus! {

/// Fixed-point coordinate units per native unit (degree or metre).
pub const COORD_SCALE: i64 = 1_000_000_000;

/// Half the width of the Web Mercator square, in nanometres.
pub const MERCATOR_HALF_SPAN: i64 = 20_037_508_342_789_248;

/// The two supported geocodes.
#[derive(Clone, Copy, Debug, PartialEq, Eq, Structural)]
pub enum Geocode {
    /// Base-32 geohash over WGS84 longitude (x) and latitude (y).
    Geohash,
    /// Base-4 quadtile over Web Mercator.
    QuadTile,
}

/// The size of a grid cell along one axis: `span / divisions` native
/// fixed-point units, so that `divisions` cells tile the span exactly.
#[derive(Clone, Copy, Debug, PartialEq, Eq, Structural)]
pub struct Interval {
    pub span: u64,
    pub divisions: u64,
}

/// A cell of a geocode grid: column `x_index` of `2^x_bits` and row
/// `y_index` of `2^y_bits`, counted from the lower native bounds.
#[derive(Clone, Copy, Debug, PartialEq, Eq, Structural)]
pub struct Cell {
    pub x_index: u64,
    pub x_bits: u32,
    pub y_index: u64,
    pub y_bits: u32,
}

/// Failure of an encoding.
#[derive(Clone, Copy, Debug, PartialEq, Eq, Structural)]
pub enum GeocodeError {
    /// The point lies outside the geocode's native bounds.
    OutOfRange,
}

/// Index of the cell, among `2^n` equal cells of a span of length `span`,
/// that halving `n` times selects for an offset `v` from the lower bound.
/// A point on a boundary belongs to the lower cell.
pub open spec fn cell_index(v: int, span: int, n: nat) -> int {
    if v <= 0 {
        0
    } else {
        (v * pow2(n) - 1) / span
    }
}

pub open spec fn geohash_alphabet() -> Seq<char> {
    seq![
        '0', '1', '2', '3', '4', '5', '6', '7', '8', '9', 'b', 'c', 'd', 'e', 'f', 'g',
        'h', 'j', 'k', 'm', 'n', 'p', 'q', 'r', 's', 't', 'u', 'v', 'w', 'x', 'y', 'z',
    ]
}

pub open spec fn quadtile_alphabet() -> Seq<char> {
    seq!['2', '0', '3', '1']
}


/// One halving step: with `r` the distance, scaled by `2^n`, from the lower
/// edge of the current cell, the next cell is the upper child exactly when
/// `2 * r > span`, and the scaled distance becomes `2 * r - bit * span`.
proof fn lemma_halving_step(v: int, span: int, n: nat, r: int, bit: int)
    requires
        span > 0,
        0 <= v <= span,
        r == v * pow2(n) - cell_index(v, span, n) * span,
        0 <= r <= span,
        v > 0 ==> r > 0,
        bit == (if 2 * r > span { 1int } else { 0int }),
    ensures
        cell_index(v, span, n + 1) == 2 * cell_index(v, span, n) + bit,
        cell_index(v, span, n + 1) % 2 == bit,
        cell_index(v, span, n) >= 0,
        2 * r - bit * span == v * pow2(n + 1) - cell_index(v, span, n + 1) * span,
        0 <= 2 * r - bit * span <= span,
        v > 0 ==> 2 * r - bit * span > 0,
{
    let k = cell_index(v, span, n);
    let r2 = 2 * r - bit * span;
    lemma_pow2_unfold(n + 1);
    assert(pow2(n + 1) == 2 * pow2(n));
    assert(v * pow2(n + 1) == 2 * (v * pow2(n))) by (nonlinear_arith)
        requires
            pow2(n + 1) == 2 * pow2(n),
    ;
    assert(r2 == v * pow2(n + 1) - (2 * k + bit) * span) by (nonlinear_arith)
        requires
            r == v * pow2(n) - k * span,
            r2 == 2 * r - bit * span,
            v * pow2(n + 1) == 2 * (v * pow2(n)),
    ;
    if v > 0 {
        lemma_pow2_pos(n);
        assert(v * pow2(n) >= 1) by (nonlinear_arith)
            requires
                v > 0,
                pow2(n) > 0,
        ;
        lemma_fundamental_div_mod_converse(v * pow2(n) - 1, span, k, r - 1);
        assert(k >= 0) by (nonlinear_arith)
            requires
                v * pow2(n) - 1 == k * span + (r - 1),
                0 <= r - 1 < span,
                v * pow2(n) >= 1,
                span > 0,
        ;
        lemma_fundamental_div_mod_converse(v * pow2(n + 1) - 1, span, 2 * k + bit, r2 - 1);
    }
}

/// Before any halving the whole span is the one cell.
proof fn lemma_halving_start(v: int, span: int)
    requires
        span > 0,
        0 <= v <= span,
    ensures
        cell_index(v, span, 0) == 0,
        v == v * pow2(0) - cell_index(v, span, 0) * span,
{
    assert(pow2(0) == 1) by {
        vstd::arithmetic::power2::lemma_pow2(0);
        vstd::arithmetic::power::lemma_pow0(2);
    }
    if v > 0 {
        lemma_fundamental_div_mod_converse(v - 1, span, 0, v - 1);
    }
}


/// After any number of halvings the point lies in its cell: the scaled
/// distance from the cell's lower edge is within the cell.
proof fn lemma_cell_remainder(v: int, span: int, n: nat)
    requires
        span > 0,
        0 <= v <= span,
    ensures
        0 <= v * pow2(n) - cell_index(v, span, n) * span <= span,
        v > 0 ==> v * pow2(n) - cell_index(v, span, n) * span > 0,
    decreases n,
{
    if n == 0 {
        lemma_halving_start(v, span);
    } else {
        let m = (n - 1) as nat;
        lemma_cell_remainder(v, span, m);
        let r = v * pow2(m) - cell_index(v, span, m) * span;
        let bit: int = if 2 * r > span { 1 } else { 0 };
        lemma_halving_step(v, span, m, r, bit);
    }
}

/// Each halving keeps the cell or moves to its upper half.
proof fn lemma_cell_index_next(v: int, span: int, n: nat)
    requires
        span > 0,
        0 <= v <= span,
    ensures
        cell_index(v, span, n + 1) == 2 * cell_index(v, span, n) + cell_index(v, span, n + 1) % 2,
{
    lemma_cell_remainder(v, span, n);
    let r = v * pow2(n) - cell_index(v, span, n) * span;
    let bit: int = if 2 * r > span { 1 } else { 0 };
    lemma_halving_step(v, span, n, r, bit);
}

/// The point at offset `v` lies in the cell `cell_index(v, span, n)`: between
/// `k * span / 2^n` and `(k + 1) * span / 2^n`.
pub proof fn lemma_point_in_cell(v: int, span: int, n: nat)
    requires
        span > 0,
        0 <= v <= span,
    ensures
        cell_index(v, span, n) * span <= v * pow2(n) <= cell_index(v, span, n) * span + span,
{
    lemma_cell_remainder(v, span, n);
}

/// A number of `j` bits is below `2^j`.
proof fn lemma_digits_bound(g: Geocode, vx: int, vy: int, start: nat, j: nat)
    requires
        vx >= 0,
        vy >= 0,
    ensures
        0 <= g.code_digits(vx, vy, start, j) < pow2(j),
    decreases j,
{
    if j == 0 {
        assert(pow2(0) == 1) by {
            vstd::arithmetic::power2::lemma_pow2(0);
            vstd::arithmetic::power::lemma_pow0(2);
        }
    } else {
        lemma_digits_bound(g, vx, vy, start, (j - 1) as nat);
        lemma_pow2_unfold(j);
        let t = start + (j - 1) as nat;
        if t % 2 == 0 {
            lemma_cell_index_nonneg(vx, g.span_x(), t / 2 + 1);
        } else {
            lemma_cell_index_nonneg(vy, g.span_y(), t / 2 + 1);
        }
    }
}

proof fn lemma_cell_index_nonneg(v: int, span: int, n: nat)
    requires
        span > 0,
    ensures
        cell_index(v, span, n) >= 0,
{
    if v > 0 {
        lemma_pow2_pos(n);
        assert(v * pow2(n) - 1 >= 0) by (nonlinear_arith)
            requires
                v > 0,
                pow2(n) > 0,
        ;
        vstd::arithmetic::div_mod::lemma_div_pos_is_pos(v * pow2(n) - 1, span);
    }
}

/// `2^n` for `n < 64`.
pub fn power_of_two(n: u32) -> (r: u64)
    requires
        n < 64,
    ensures
        r == pow2(n as nat),
        r > 0,
{
    let mut r: u64 = 1;
    let mut i: u32 = 0;
    proof {
        vstd::arithmetic::power2::lemma2_to64();
    }
    while i < n
        invariant
            i <= n < 64,
            r == pow2(i as nat),
        decreases n - i,
    {
        proof {
            lemma_pow2_unfold((i + 1) as nat);
            vstd::arithmetic::power2::lemma_pow2_strictly_increases((i + 1) as nat, 64);
            vstd::arithmetic::power2::lemma2_to64();
        }
        r = 2 * r;
        i = i + 1;
    }
    proof {
        lemma_pow2_pos(n as nat);
    }
    r
}

/// The x bits of the first `t` bits of a stream form a number below
/// `2^ceil(t / 2)`, and the y bits one below `2^floor(t / 2)`.
proof fn lemma_axis_value_bound(g: Geocode, values: Seq<int>, t: nat)
    requires
        forall|i: int| 0 <= i < values.len() && i * g.bits_per_char() < t ==> values[i] >= 0,
        t <= values.len() * g.bits_per_char(),
    ensures
        0 <= g.axis_value(values, t, 0) < pow2((t + 1) / 2),
        0 <= g.axis_value(values, t, 1) < pow2(t / 2),
    decreases t,
{
    if t == 0 {
        vstd::arithmetic::power2::lemma2_to64();
    } else {
        let s = (t - 1) as nat;
        lemma_axis_value_bound(g, values, s);
        let bpc = g.bits_per_char();
        vstd::arithmetic::div_mod::lemma_div_pos_is_pos(s as int, bpc as int);
        let q = (s as int) / (bpc as int);
        vstd::arithmetic::div_mod::lemma_fundamental_div_mod(s as int, bpc as int);
        vstd::arithmetic::div_mod::lemma_mod_bound(s as int, bpc as int);
        assert(q < values.len() && q * bpc < t) by (nonlinear_arith)
            requires
                (s as int) == (bpc as int) * q + (s as int) % (bpc as int),
                0 <= (s as int) % (bpc as int) < bpc,
                s < t,
                t <= values.len() * bpc,
                bpc > 0,
        ;
        lemma_pow2_pos((bpc - 1 - s % bpc) as nat);
        vstd::arithmetic::div_mod::lemma_div_pos_is_pos(
            values[s as int / bpc as int],
            pow2((bpc - 1 - s % bpc) as nat) as int,
        );
        if s % 2 == 0 {
            lemma_pow2_unfold((t + 1) / 2);
        } else {
            lemma_pow2_unfold(t / 2);
        }
    }
}

/// While decoding a code of at most the largest precision, the x and y
/// numbers read so far can take one more bit.
proof fn lemma_decode_bounds(g: Geocode, values: Seq<int>, t: nat)
    requires
        forall|i: int| 0 <= i < values.len() && i * g.bits_per_char() < t ==> values[i] >= 0,
        t <= values.len() * g.bits_per_char(),
        t + 1 <= g.max_precision() * g.bits_per_char(),
    ensures
        0 <= 2 * g.axis_value(values, t, 0) + 1 <= u64::MAX,
        0 <= 2 * g.axis_value(values, t, 1) + 1 <= u64::MAX,
{
    lemma_axis_value_bound(g, values, t);
    assert(g.max_precision() * g.bits_per_char() <= 126) by {
        if g == Geocode::Geohash {
        } else {
        }
    }
    vstd::arithmetic::power2::lemma2_to64();
    vstd::arithmetic::power2::lemma2_to64_rest();
    assert(pow2(63) == 0x8000_0000_0000_0000nat);
    assert((t + 1) / 2 <= 63);
    if (t + 1) / 2 < 63 {
        vstd::arithmetic::power2::lemma_pow2_strictly_increases((t + 1) / 2, 63);
    }
    if t / 2 < 63 {
        vstd::arithmetic::power2::lemma_pow2_strictly_increases(t / 2, 63);
    }
    assert(pow2((t + 1) / 2) <= 0x8000_0000_0000_0000nat);
    assert(pow2(t / 2) <= 0x8000_0000_0000_0000nat);
}

/// Bit `j` of a number of `n` code bits, counted from the top, is code bit
/// `start + j`.
proof fn lemma_digit_bit(g: Geocode, vx: int, vy: int, start: nat, n: nat, j: nat)
    requires
        0 <= vx <= g.span_x(),
        0 <= vy <= g.span_y(),
        j < n,
    ensures
        (g.code_digits(vx, vy, start, n) / pow2((n - 1 - j) as nat) as int) % 2 == g.code_bit(
            vx,
            vy,
            start + j,
        ),
    decreases n,
{
    let m = (n - 1) as nat;
    let a = g.code_digits(vx, vy, start, m);
    let t = start + m;
    let b = g.code_bit(vx, vy, t);
    lemma_digits_bound(g, vx, vy, start, m);
    if t % 2 == 0 {
        lemma_cell_index_nonneg(vx, g.span_x(), t / 2 + 1);
    } else {
        lemma_cell_index_nonneg(vy, g.span_y(), t / 2 + 1);
    }
    assert(0 <= b < 2);
    assert(g.code_digits(vx, vy, start, n) == 2 * a + b);
    lemma_fundamental_div_mod_converse(2 * a + b, 2, a, b);
    if j == m {
        vstd::arithmetic::power2::lemma2_to64();
        assert(pow2((n - 1 - j) as nat) == 1);
    } else {
        let k = (n - 1 - j) as nat;
        lemma_pow2_unfold(k);
        lemma_pow2_pos((k - 1) as nat);
        vstd::arithmetic::div_mod::lemma_div_denominator(2 * a + b, 2, pow2((k - 1) as nat) as int);
        assert(k - 1 == m - 1 - j);
        lemma_digit_bit(g, vx, vy, start, m, j);
    }
}

/// Reading the symbol values of a code as a bit stream gives back the bits
/// that encoding chose.
proof fn lemma_stream_bit(g: Geocode, vx: int, vy: int, p: nat, t: nat)
    requires
        0 <= vx <= g.span_x(),
        0 <= vy <= g.span_y(),
        t < p * g.bits_per_char(),
    ensures
        g.stream_bit(Seq::new(p, |c: int| g.symbol_value(vx, vy, c as nat)), t) == g.code_bit(
            vx,
            vy,
            t,
        ),
{
    let bpc = g.bits_per_char();
    let c = t / bpc;
    let j = t % bpc;
    vstd::arithmetic::div_mod::lemma_fundamental_div_mod(t as int, bpc as int);
    vstd::arithmetic::div_mod::lemma_mod_bound(t as int, bpc as int);
    assert(c < p) by (nonlinear_arith)
        requires
            t == bpc * c + j,
            0 <= j,
            t < p * bpc,
            bpc > 0,
    ;
    assert(c * bpc + j == t) by (nonlinear_arith)
        requires
            t == bpc * c + j,
    ;
    lemma_digit_bit(g, vx, vy, c * bpc, bpc, j);
}

/// The x and y numbers read from the first `t` bits of a code are the
/// indices of the cells that the point reaches by then.
proof fn lemma_axis_cells(g: Geocode, vx: int, vy: int, p: nat, t: nat)
    requires
        0 <= vx <= g.span_x(),
        0 <= vy <= g.span_y(),
        t <= p * g.bits_per_char(),
    ensures
        g.axis_value(Seq::new(p, |c: int| g.symbol_value(vx, vy, c as nat)), t, 0) == cell_index(
            vx,
            g.span_x(),
            (t + 1) / 2,
        ),
        g.axis_value(Seq::new(p, |c: int| g.symbol_value(vx, vy, c as nat)), t, 1) == cell_index(
            vy,
            g.span_y(),
            t / 2,
        ),
    decreases t,
{
    let values = Seq::new(p, |c: int| g.symbol_value(vx, vy, c as nat));
    if t == 0 {
        lemma_halving_start(vx, g.span_x());
        lemma_halving_start(vy, g.span_y());
    } else {
        let s = (t - 1) as nat;
        lemma_axis_cells(g, vx, vy, p, s);
        lemma_stream_bit(g, vx, vy, p, s);
        if s % 2 == 0 {
            lemma_cell_index_next(vx, g.span_x(), s / 2);
        } else {
            lemma_cell_index_next(vy, g.span_y(), s / 2);
        }
    }
}

/// A code names the cell that holds its point: the x and y numbers that its
/// symbols spell are the indices of the cells of `x_bits` and `y_bits`
/// halvings that hold the point, and the point lies within those cells.
pub proof fn lemma_code_names_cell(g: Geocode, x: int, y: int, precision: nat)
    requires
        g.in_bounds(x, y),
    ensures
        ({
            let vx = x - g.min_x();
            let vy = y - g.min_y();
            let values = Seq::new(precision, |c: int| g.symbol_value(vx, vy, c as nat));
            let kx = g.axis_value(values, precision * g.bits_per_char(), 0);
            let ky = g.axis_value(values, precision * g.bits_per_char(), 1);
            &&& kx == cell_index(vx, g.span_x(), g.x_bits(precision))
            &&& ky == cell_index(vy, g.span_y(), g.y_bits(precision))
            &&& kx * g.span_x() <= vx * pow2(g.x_bits(precision)) <= kx * g.span_x() + g.span_x()
            &&& ky * g.span_y() <= vy * pow2(g.y_bits(precision)) <= ky * g.span_y() + g.span_y()
        }),
{
    let vx = x - g.min_x();
    let vy = y - g.min_y();
    let t = precision * g.bits_per_char();
    lemma_axis_cells(g, vx, vy, precision, t);
    assert(g.x_bits(precision) == (t + 1) / 2);
    assert(g.y_bits(precision) == t / 2);
    lemma_point_in_cell(vx, g.span_x(), g.x_bits(precision));
    lemma_point_in_cell(vy, g.span_y(), g.y_bits(precision));
}

impl Geocode {
    pub open spec fn bits_per_char(self) -> nat {
        match self {
            Geocode::Geohash => 5,
            Geocode::QuadTile => 2,
        }
    }

    pub open spec fn alphabet(self) -> Seq<char> {
        match self {
            Geocode::Geohash => geohash_alphabet(),
            Geocode::QuadTile => quadtile_alphabet(),
        }
    }

    pub open spec fn min_x(self) -> int {
        match self {
            Geocode::Geohash => -180 * COORD_SCALE,
            Geocode::QuadTile => -MERCATOR_HALF_SPAN,
        }
    }

    pub open spec fn min_y(self) -> int {
        match self {
            Geocode::Geohash => -90 * COORD_SCALE,
            Geocode::QuadTile => -MERCATOR_HALF_SPAN,
        }
    }

    pub open spec fn span_x(self) -> int {
        match self {
            Geocode::Geohash => 360 * COORD_SCALE,
            Geocode::QuadTile => 2 * MERCATOR_HALF_SPAN,
        }
    }

    pub open spec fn span_y(self) -> int {
        match self {
            Geocode::Geohash => 180 * COORD_SCALE,
            Geocode::QuadTile => 2 * MERCATOR_HALF_SPAN,
        }
    }

    pub open spec fn in_bounds(self, x: int, y: int) -> bool {
        &&& self.min_x() <= x <= self.min_x() + self.span_x()
        &&& self.min_y() <= y <= self.min_y() + self.span_y()
    }

    /// Bit `t` of the code (0-based, most significant first): even bits halve
    /// x and odd bits halve y; a bit is 1 when the point is in the upper half.
    pub open spec fn code_bit(self, vx: int, vy: int, t: nat) -> int {
        if t % 2 == 0 {
            cell_index(vx, self.span_x(), t / 2 + 1) % 2
        } else {
            cell_index(vy, self.span_y(), t / 2 + 1) % 2
        }
    }

    /// The `j` bits of the code starting at bit `start`, read as a number.
    pub open spec fn code_digits(self, vx: int, vy: int, start: nat, j: nat) -> int
        decreases j,
    {
        if j == 0 {
            0
        } else {
            2 * self.code_digits(vx, vy, start, (j - 1) as nat) + self.code_bit(
                vx,
                vy,
                start + (j - 1) as nat,
            )
        }
    }

    /// The symbol index of character `c` of the code.
    pub open spec fn symbol_value(self, vx: int, vy: int, c: nat) -> int {
        self.code_digits(vx, vy, c * self.bits_per_char(), self.bits_per_char())
    }

    /// The code of length `precision` of the point at offsets `(vx, vy)` from
    /// the lower native bounds.
    pub open spec fn spec_encode(self, vx: int, vy: int, precision: nat) -> Seq<char> {
        Seq::new(precision, |c: int| self.alphabet()[self.symbol_value(vx, vy, c as nat)])
    }

    /// The EPSG code of the geocode's native coordinate reference system.
    pub fn get_epsg_code(&self) -> (r: u32)
        ensures
            r == (match *self {
                Geocode::Geohash => 4326u32,
                Geocode::QuadTile => 3857u32,
            }),
    {
        match self {
            Geocode::Geohash => 4326,
            Geocode::QuadTile => 3857,
        }
    }

    /// The native bounds as `(min_x, span_x, min_y, span_y)`.
    fn native_bounds(&self) -> (b: (i64, u64, i64, u64))
        ensures
            b.0 == self.min_x(),
            b.1 == self.span_x(),
            b.2 == self.min_y(),
            b.3 == self.span_y(),
    {
        match self {
            Geocode::Geohash => (-180 * COORD_SCALE, 360 * COORD_SCALE as u64, -90 * COORD_SCALE, 180
                * COORD_SCALE as u64),
            Geocode::QuadTile => (
                -MERCATOR_HALF_SPAN,
                2 * MERCATOR_HALF_SPAN as u64,
                -MERCATOR_HALF_SPAN,
                2 * MERCATOR_HALF_SPAN as u64,
            ),
        }
    }

    fn char_bits(&self) -> (r: u64)
        ensures
            r == self.bits_per_char(),
    {
        match self {
            Geocode::Geohash => 5,
            Geocode::QuadTile => 2,
        }
    }

    /// The geocode's alphabet.
    fn alphabet_table(&self) -> (t: Vec<char>)
        ensures
            t@ == self.alphabet(),
    {
        let table: Vec<char> = match self {
            Geocode::Geohash => vec![
                '0', '1', '2', '3', '4', '5', '6', '7', '8', '9', 'b', 'c', 'd', 'e', 'f', 'g',
                'h', 'j', 'k', 'm', 'n', 'p', 'q', 'r', 's', 't', 'u', 'v', 'w', 'x', 'y', 'z',
            ],
            Geocode::QuadTile => vec!['2', '0', '3', '1'],
        };
        assert(table@ =~= self.alphabet());
        table
    }

    /// The symbol with index `i` in the geocode's alphabet.
    fn symbol(&self, i: u64) -> (c: char)
        requires
            i < self.alphabet().len(),
        ensures
            c == self.alphabet()[i as int],
    {
        let table = self.alphabet_table();
        table[i as usize]
    }

    /// Encodes the point `(x, y)`, in fixed-point native coordinates, as a
    /// code of `precision` symbols; fails when the point is outside the
    /// native bounds.
    pub fn encode(&self, x: i64, y: i64, precision: u8) -> (r: Result<String, GeocodeError>)
        ensures
            r is Err <==> !self.in_bounds(x as int, y as int),
            r is Ok ==> r->Ok_0@ == self.spec_encode(
                x - self.min_x(),
                y - self.min_y(),
                precision as nat,
            ),
            r is Ok ==> r->Ok_0@.len() == precision,
    {
        let (min_x, span_x, min_y, span_y) = self.native_bounds();
        if x < min_x || x > min_x + span_x as i64 || y < min_y || y > min_y + span_y as i64 {
            return Err(GeocodeError::OutOfRange);
        }
        let vx: u64 = (x - min_x) as u64;
        let vy: u64 = (y - min_y) as u64;
        let bpc = self.char_bits();
        let ghost sx = span_x as int;
        let ghost sy = span_y as int;
        proof {
            lemma_halving_start(vx as int, sx);
            lemma_halving_start(vy as int, sy);
        }
        let mut out = String::new();
        let mut rx: u64 = vx;
        let mut ry: u64 = vy;
        let mut t: u64 = 0;
        let mut c: u8 = 0;
        while c < precision
            invariant
                c <= precision,
                bpc == self.bits_per_char(),
                sx == self.span_x(),
                sy == self.span_y(),
                sx == span_x,
                sy == span_y,
                0 <= vx <= sx,
                0 <= vy <= sy,
                t == c * bpc,
                out@ == self.spec_encode(vx as int, vy as int, c as nat),
                rx == vx * pow2(((t + 1) / 2) as nat) - cell_index(vx as int, sx, ((t + 1) / 2) as nat)
                    * sx,
                0 <= rx <= sx,
                vx > 0 ==> rx > 0,
                ry == vy * pow2((t / 2) as nat) - cell_index(vy as int, sy, (t / 2) as nat) * sy,
                0 <= ry <= sy,
                vy > 0 ==> ry > 0,
            decreases precision - c,
        {
            let ghost start: nat = t as nat;
            let mut value: u64 = 0;
            let mut j: u64 = 0;
            proof {
                assert(pow2(0) == 1) by {
                    vstd::arithmetic::power2::lemma_pow2(0);
                    vstd::arithmetic::power::lemma_pow0(2);
                }
            }
            while j < bpc
                invariant
                    c < precision,
                    j <= bpc,
                    bpc == self.bits_per_char(),
                    sx == self.span_x(),
                    sy == self.span_y(),
                    sx == span_x,
                    sy == span_y,
                    0 <= vx <= sx,
                    0 <= vy <= sy,
                    start == c * bpc,
                    t == start + j,
                    value == self.code_digits(vx as int, vy as int, start, j as nat),
                    value < pow2(j as nat),
                    rx == vx * pow2(((t + 1) / 2) as nat) - cell_index(
                        vx as int,
                        sx,
                        ((t + 1) / 2) as nat,
                    ) * sx,
                    0 <= rx <= sx,
                    vx > 0 ==> rx > 0,
                    ry == vy * pow2((t / 2) as nat) - cell_index(vy as int, sy, (t / 2) as nat)
                        * sy,
                    0 <= ry <= sy,
                    vy > 0 ==> ry > 0,
                decreases bpc - j,
            {
                let bit: u64;
                let ghost t0: nat = t as nat;
                if t % 2 == 0 {
                    proof {
                        assert(t0 / 2 == (t0 + 1) / 2);
                        assert(rx == vx * pow2(t0 / 2) - cell_index(vx as int, sx, t0 / 2) * sx);
                    }
                    bit = if 2 * rx > span_x { 1 } else { 0 };
                    proof {
                        lemma_halving_step(vx as int, sx, t0 / 2, rx as int, bit as int);
                    }
                    rx = 2 * rx - bit * span_x;
                } else {
                    proof {
                        assert(ry == vy * pow2(t0 / 2) - cell_index(vy as int, sy, t0 / 2) * sy);
                    }
                    bit = if 2 * ry > span_y { 1 } else { 0 };
                    proof {
                        lemma_halving_step(vy as int, sy, t0 / 2, ry as int, bit as int);
                    }
                    ry = 2 * ry - bit * span_y;
                }
                proof {
                    lemma_pow2_unfold((j + 1) as nat);
                    assert(bit == self.code_bit(vx as int, vy as int, t0));
                    assert(self.code_digits(vx as int, vy as int, start, (j + 1) as nat) == 2
                        * self.code_digits(vx as int, vy as int, start, j as nat) + self.code_bit(
                        vx as int,
                        vy as int,
                        t0,
                    ));
                    assert(pow2(j as nat) <= 16) by {
                        vstd::arithmetic::power2::lemma2_to64();
                        if j == 0 {
                        } else if j == 1 {
                        } else if j == 2 {
                        } else if j == 3 {
                        } else {
                        }
                    }
                }
                value = 2 * value + bit;
                t = t + 1;
                j = j + 1;
            }
            proof {
                assert(value == self.symbol_value(vx as int, vy as int, c as nat));
                assert(self.alphabet().len() == pow2(bpc as nat)) by {
                    lemma_pow2_unfold(1);
                    lemma_pow2_unfold(2);
                    lemma_pow2_unfold(3);
                    lemma_pow2_unfold(4);
                    lemma_pow2_unfold(5);
                    vstd::arithmetic::power2::lemma_pow2(0);
                    vstd::arithmetic::power::lemma_pow0(2);
                }
            }
            let ch = self.symbol(value);
            let ghost before = out@;
            push_char(&mut out, ch);
            proof {
                assert(out@ =~= self.spec_encode(vx as int, vy as int, (c + 1) as nat));
            }
            c = c + 1;
        }
        Ok(out)
    }

    /// Number of halvings of the x axis in a code of `precision` symbols.
    pub open spec fn x_bits(self, precision: nat) -> nat {
        match self {
            Geocode::Geohash => 2 * precision + (precision + 1) / 2,
            Geocode::QuadTile => precision,
        }
    }

    /// Number of halvings of the y axis in a code of `precision` symbols.
    pub open spec fn y_bits(self, precision: nat) -> nat {
        match self {
            Geocode::Geohash => 2 * precision + precision / 2,
            Geocode::QuadTile => precision,
        }
    }

    /// The largest precision whose cell counts fit in 64 bits.
    pub open spec fn max_precision(self) -> nat {
        match self {
            Geocode::Geohash => 25,
            Geocode::QuadTile => 63,
        }
    }

    /// The cell size, along x and along y, of codes of `precision` symbols:
    /// the native span divided into `2^bits` equal cells.
    pub fn get_intervals(&self, precision: u8) -> (r: (Interval, Interval))
        requires
            precision <= self.max_precision(),
        ensures
            r.0.span == self.span_x(),
            r.0.divisions == pow2(self.x_bits(precision as nat)),
            r.1.span == self.span_y(),
            r.1.divisions == pow2(self.y_bits(precision as nat)),
            r.0.divisions > 0,
            r.1.divisions > 0,
    {
        let (_, span_x, _, span_y) = self.native_bounds();
        let p = precision as u32;
        let (x_bits, y_bits): (u32, u32) = match self {
            Geocode::Geohash => (2 * p + (p + 1) / 2, 2 * p + p / 2),
            Geocode::QuadTile => (p, p),
        };
        (
            Interval { span: span_x, divisions: power_of_two(x_bits) },
            Interval { span: span_y, divisions: power_of_two(y_bits) },
        )
    }

    /// Bit `t` of the bit stream of symbol values `values`, most significant
    /// bit of each symbol first.
    pub open spec fn stream_bit(self, values: Seq<int>, t: nat) -> int {
        (values[t as int / self.bits_per_char() as int] / pow2(
            (self.bits_per_char() - 1 - t % self.bits_per_char()) as nat,
        ) as int) % 2
    }

    /// The number formed by the bits of axis `axis` (0 for x, 1 for y)
    /// among the first `t` bits of the stream.
    pub open spec fn axis_value(self, values: Seq<int>, t: nat, axis: nat) -> int
        decreases t,
    {
        if t == 0 {
            0
        } else if (t - 1) as nat % 2 == axis {
            2 * self.axis_value(values, (t - 1) as nat, axis) + self.stream_bit(values, (t - 1) as nat)
        } else {
            self.axis_value(values, (t - 1) as nat, axis)
        }
    }

    /// The first position of `c` in the alphabet.
    pub open spec fn symbol_index(self, c: char) -> int {
        choose|i: int|
            0 <= i < self.alphabet().len() && self.alphabet()[i] == c && forall|m: int|
                0 <= m < i ==> self.alphabet()[m] != c
    }

    /// The symbol values of the characters of a code.
    pub open spec fn code_values(self, code: Seq<char>) -> Seq<int> {
        Seq::new(code.len(), |i: int| self.symbol_index(code[i]))
    }

    /// The position of `c` in the alphabet, if it is there.
    fn find_symbol(&self, c: char) -> (r: Option<u64>)
        ensures
            r is Some <==> self.alphabet().contains(c),
            r matches Some(i) ==> i == self.symbol_index(c) && i < self.alphabet().len(),
    {
        let table = self.alphabet_table();
        let mut i: usize = 0;
        while i < table.len()
            invariant
                i <= table@.len(),
                table@ == self.alphabet(),
                forall|m: int| 0 <= m < i ==> table@[m] != c,
            decreases table@.len() - i,
        {
            if table[i] == c {
                let ghost k = self.symbol_index(c);
                assert(0 <= i < self.alphabet().len() && self.alphabet()[i as int] == c && forall|
                    m: int,
                | 0 <= m < i ==> self.alphabet()[m] != c);
                assert(k == i) by {
                    if k < i {
                        assert(table@[k] != c);
                    } else if k > i {
                        assert(self.alphabet()[i as int] != c);
                    }
                }
                return Some(i as u64);
            }
            i = i + 1;
        }
        None
    }

    /// The cell that a code names: its symbols, read as bits, halve x and y
    /// in turn. None when a character is not in the alphabet or when the
    /// code is longer than the largest precision.
    pub fn decode(&self, code: &str) -> (r: Option<Cell>)
        ensures
            r is Some <==> (code@.len() <= self.max_precision() && forall|i: int|
                0 <= i < code@.len() ==> #[trigger] self.alphabet().contains(code@[i])),
            r matches Some(cell) ==> {
                let n = code@.len();
                let values = self.code_values(code@);
                &&& cell.x_bits == self.x_bits(n)
                &&& cell.y_bits == self.y_bits(n)
                &&& cell.x_index == self.axis_value(values, n * self.bits_per_char(), 0)
                &&& cell.y_index == self.axis_value(values, n * self.bits_per_char(), 1)
            },
    {
        let n = code.unicode_len();
        let max: usize = match self {
            Geocode::Geohash => 25,
            Geocode::QuadTile => 63,
        };
        if n > max {
            return None;
        }
        let bpc = self.char_bits();
        let ghost values = self.code_values(code@);
        let mut x: u64 = 0;
        let mut y: u64 = 0;
        let mut t: u64 = 0;
        let mut c: usize = 0;
        while c < n
            invariant
                c <= n <= max,
                max == self.max_precision(),
                n == code@.len(),
                bpc == self.bits_per_char(),
                values == self.code_values(code@),
                t == c * bpc,
                forall|i: int| 0 <= i < c ==> #[trigger] self.alphabet().contains(code@[i]),
                forall|i: int| 0 <= i < c ==> values[i] >= 0,
                x == self.axis_value(values, t as nat, 0),
                y == self.axis_value(values, t as nat, 1),
            decreases n - c,
        {
            let ch = code.get_char(c);
            let v = match self.find_symbol(ch) {
                Some(v) => v,
                None => {
                    return None;
                },
            };
            assert(v == values[c as int]);
            let mut j: u64 = 0;
            while j < bpc
                invariant
                    c < n <= max,
                    n == code@.len(),
                    max == self.max_precision(),
                    j <= bpc,
                    bpc == self.bits_per_char(),
                    values == self.code_values(code@),
                    v == values[c as int],
                    v < self.alphabet().len(),
                    forall|i: int| 0 <= i <= c ==> values[i] >= 0,
                    t == c * bpc + j,
                    x == self.axis_value(values, t as nat, 0),
                    y == self.axis_value(values, t as nat, 1),
                decreases bpc - j,
            {
                proof {
                    vstd::arithmetic::div_mod::lemma_fundamental_div_mod_converse(
                        t as int,
                        bpc as int,
                        c as int,
                        j as int,
                    );
                    assert forall|i: int|
                        0 <= i < values.len() && i * self.bits_per_char() < t implies values[i]
                        >= 0 by {
                        if i > c {
                            assert(i * bpc >= (c + 1) * bpc) by (nonlinear_arith)
                                requires
                                    i >= c + 1,
                                    bpc > 0,
                            ;
                        }
                    }
                    assert(values.len() == n);
                    assert(t <= values.len() * bpc && t + 1 <= max * bpc) by (nonlinear_arith)
                        requires
                            t == c * bpc + j,
                            j < bpc,
                            c < n,
                            n <= max,
                            values.len() == n,
                    ;
                    lemma_decode_bounds(*self, values, t as nat);
                }
                let bit = (v / power_of_two((bpc - 1 - j) as u32)) % 2;
                if t % 2 == 0 {
                    x = 2 * x + bit;
                } else {
                    y = 2 * y + bit;
                }
                t = t + 1;
                j = j + 1;
            }
            c = c + 1;
        }
        proof {
            assert(self.x_bits(n as nat) == (t + 1) / 2);
            assert(self.y_bits(n as nat) == t / 2);
        }
        Some(Cell { x_index: x, x_bits: ((t + 1) / 2) as u32, y_index: y, y_bits: (t / 2) as u32 })
    }
}

} // verus!
