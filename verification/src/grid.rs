//! The lattice: positions, quantization to cell multiples, and squared distances.

use vstd::prelude::*;

verus! {

/// A point in world space, in fixed-point units. `y` is the vertical axis.
#[derive(Clone, Copy, Debug, PartialEq, Eq, Structural)]
pub struct Position {
    pub x: i64,
    pub y: i64,
    pub z: i64,
}

/// The multiple of `cell` nearest to `v`; a value half-way between two
/// multiples goes to the one farther from zero.
pub open spec fn round_to_cell(v: int, cell: int) -> int {
    if v >= 0 {
        ((2 * v + cell) / (2 * cell)) * cell
    } else {
        -(((2 * (-v) + cell) / (2 * cell)) * cell)
    }
}

/// What one coordinate snaps to: `round_to_cell`, except that where that
/// multiple lies outside the range of `i64` the neighbouring multiple on the
/// side of zero is taken.
pub open spec fn snap_coord(v: i64, cell: u32) -> int {
    let m = round_to_cell(v as int, cell as int);
    if m > i64::MAX {
        m - cell
    } else if m < i64::MIN {
        m + cell
    } else {
        m
    }
}

/// Whether `v` is a multiple of `cell`.
pub open spec fn on_lattice(v: int, cell: int) -> bool {
    v % cell == 0
}

/// `round_to_cell` lands on the lattice, at most half a cell from `v`, on the
/// same side of zero as `v`.
pub proof fn lemma_round_to_cell(v: int, cell: int)
    requires
        cell > 0,
    ensures
        on_lattice(round_to_cell(v, cell), cell),
        2 * (round_to_cell(v, cell) - v) <= cell,
        2 * (v - round_to_cell(v, cell)) <= cell,
        v >= 0 ==> round_to_cell(v, cell) >= 0,
        v <= 0 ==> round_to_cell(v, cell) <= 0,
{
    let a = if v >= 0 { v } else { -v };
    let q = (2 * a + cell) / (2 * cell);
    let r = (2 * a + cell) % (2 * cell);
    vstd::arithmetic::div_mod::lemma_fundamental_div_mod(2 * a + cell, 2 * cell);
    vstd::arithmetic::div_mod::lemma_mod_bound(2 * a + cell, 2 * cell);
    assert(2 * cell * q == 2 * (q * cell)) by (nonlinear_arith);
    assert(q >= 0 && q * cell >= 0) by (nonlinear_arith)
        requires
            2 * a + cell == 2 * cell * q + r,
            0 <= r < 2 * cell,
            a >= 0,
            cell > 0,
    ;
    if v == 0 {
        vstd::arithmetic::div_mod::lemma_fundamental_div_mod_converse(cell, 2 * cell, 0, cell);
    }
    vstd::arithmetic::div_mod::lemma_mod_multiples_basic(q, cell);
    vstd::arithmetic::div_mod::lemma_mod_multiples_basic(-q, cell);
    assert((-q) * cell == -(q * cell)) by (nonlinear_arith);
}

/// No multiple of `cell` is nearer to `v` than `round_to_cell`, and of two
/// that are equally near it is the one farther from zero.
pub proof fn lemma_round_is_nearest(v: int, cell: int, k: int)
    requires
        cell > 0,
    ensures
        vstd::math::abs(round_to_cell(v, cell) - v) <= vstd::math::abs(k * cell - v),
        vstd::math::abs(round_to_cell(v, cell) - v) == vstd::math::abs(k * cell - v)
            ==> vstd::math::abs(k * cell) <= vstd::math::abs(round_to_cell(v, cell)),
{
    let m = round_to_cell(v, cell);
    let a = if v >= 0 { v } else { -v };
    let q = (2 * a + cell) / (2 * cell);
    let r = (2 * a + cell) % (2 * cell);
    vstd::arithmetic::div_mod::lemma_fundamental_div_mod(2 * a + cell, 2 * cell);
    vstd::arithmetic::div_mod::lemma_mod_bound(2 * a + cell, 2 * cell);
    assert(2 * cell * q == 2 * (q * cell)) by (nonlinear_arith);
    assert((-q) * cell == -(q * cell)) by (nonlinear_arith);
    let j = if v >= 0 { q } else { -q };
    assert(m == j * cell);
    assert(k == j || (k - j) * cell >= cell || (k - j) * cell <= -cell) by (nonlinear_arith)
        requires
            cell > 0,
    ;
    assert((k - j) * cell == k * cell - j * cell) by (nonlinear_arith);
}

/// A multiple of `cell` rounds to itself.
pub proof fn lemma_round_fixes_lattice(v: int, cell: int)
    requires
        cell > 0,
        on_lattice(v, cell),
    ensures
        round_to_cell(v, cell) == v,
{
    let a = if v >= 0 { v } else { -v };
    let k = a / cell;
    vstd::arithmetic::div_mod::lemma_fundamental_div_mod(v, cell);
    vstd::arithmetic::div_mod::lemma_fundamental_div_mod(a, cell);
    assert(a % cell == 0) by {
        if v < 0 {
            let j = v / cell;
            assert(a == (-j) * cell) by (nonlinear_arith)
                requires
                    v == cell * j,
                    a == -v,
            ;
            vstd::arithmetic::div_mod::lemma_mod_multiples_basic(-j, cell);
        }
    }
    assert(a == k * cell) by (nonlinear_arith)
        requires
            a == cell * k + 0,
    ;
    assert(2 * a + cell == (2 * cell) * k + cell) by (nonlinear_arith)
        requires
            a == k * cell,
    ;
    vstd::arithmetic::div_mod::lemma_fundamental_div_mod_converse(
        2 * a + cell,
        2 * cell,
        k,
        cell,
    );
}

/// `snap_coord` fits in an `i64`, lies on the lattice within one cell of `v`
/// (within half a cell wherever the nearest multiple is representable), and is
/// a fixed point of snapping.
pub proof fn lemma_snap_coord(v: i64, cell: u32)
    requires
        cell > 0,
    ensures
        i64::MIN <= snap_coord(v, cell) <= i64::MAX,
        on_lattice(snap_coord(v, cell), cell as int),
        -(cell as int) <= snap_coord(v, cell) - v <= cell,
        snap_coord(v, cell) == round_to_cell(v as int, cell as int) ==> -(cell as int) <= 2
            * (snap_coord(v, cell) - v) <= cell,
        snap_coord(snap_coord(v, cell) as i64, cell) == snap_coord(v, cell),
{
    let c = cell as int;
    let m = round_to_cell(v as int, c);
    let s = snap_coord(v, cell);
    lemma_round_to_cell(v as int, c);
    if m > i64::MAX {
        vstd::arithmetic::div_mod::lemma_mod_sub_multiples_vanish(m, c);
    } else if m < i64::MIN {
        vstd::arithmetic::div_mod::lemma_mod_add_multiples_vanish(m, c);
    }
    lemma_round_fixes_lattice(s, c);
}

/// Snapping moves the two horizontal coordinates onto the lattice and leaves
/// the vertical one alone.
pub open spec fn snap_position(p: Position, cell: u32) -> Position {
    Position { x: snap_coord(p.x, cell) as i64, y: p.y, z: snap_coord(p.z, cell) as i64 }
}

/// Whether both horizontal coordinates of `p` are multiples of `cell`.
pub open spec fn position_on_lattice(p: Position, cell: u32) -> bool {
    on_lattice(p.x as int, cell as int) && on_lattice(p.z as int, cell as int)
}

/// Quantization is idempotent: a snapped position snaps to itself.
pub proof fn lemma_snap_idempotent(p: Position, cell: u32)
    requires
        cell > 0,
    ensures
        snap_position(snap_position(p, cell), cell) == snap_position(p, cell),
        position_on_lattice(snap_position(p, cell), cell),
{
    lemma_snap_coord(p.x, cell);
    lemma_snap_coord(p.z, cell);
}

/// A position on the lattice is left where it is.
pub proof fn lemma_snap_fixes_lattice(p: Position, cell: u32)
    requires
        cell > 0,
        position_on_lattice(p, cell),
    ensures
        snap_position(p, cell) == p,
{
    lemma_round_fixes_lattice(p.x as int, cell as int);
    lemma_round_fixes_lattice(p.z as int, cell as int);
}

/// Snaps one coordinate to the lattice of spacing `cell_size`.
pub fn snap_axis(v: i64, cell_size: u32) -> (snapped: i64)
    requires
        cell_size > 0,
    ensures
        snapped == snap_coord(v, cell_size),
        on_lattice(snapped as int, cell_size as int),
{
    let cell: i128 = cell_size as i128;
    let wide: i128 = v as i128;
    let magnitude: i128 = if wide >= 0 {
        wide
    } else {
        -wide
    };
    let cells: i128 = (2 * magnitude + cell) / (2 * cell);
    proof {
        lemma_snap_coord(v, cell_size);
        vstd::arithmetic::div_mod::lemma_fundamental_div_mod(2 * magnitude + cell, 2 * cell);
        vstd::arithmetic::div_mod::lemma_mod_bound(2 * magnitude + cell, 2 * cell);
        assert(0 <= cells * cell <= 2 * magnitude + cell) by (nonlinear_arith)
            requires
                2 * magnitude + cell == (2 * cell) * cells + (2 * magnitude + cell) % (2 * cell),
                0 <= (2 * magnitude + cell) % (2 * cell),
                cell > 0,
                magnitude >= 0,
        ;
    }
    let rounded: i128 = if wide >= 0 {
        cells * cell
    } else {
        -(cells * cell)
    };
    let fitted: i128 = if rounded > i64::MAX as i128 {
        rounded - cell
    } else if rounded < i64::MIN as i128 {
        rounded + cell
    } else {
        rounded
    };
    fitted as i64
}

/// Snaps a world position to the lattice: the horizontal coordinates go to
/// the nearest multiple of `cell_size`, the vertical one passes through.
pub fn snap_to_grid(position: Position, cell_size: u32) -> (snapped: Position)
    requires
        cell_size > 0,
    ensures
        snapped == snap_position(position, cell_size),
        position_on_lattice(snapped, cell_size),
        snap_position(snapped, cell_size) == snapped,
{
    proof {
        lemma_snap_idempotent(position, cell_size);
    }
    Position {
        x: snap_axis(position.x, cell_size),
        y: position.y,
        z: snap_axis(position.z, cell_size),
    }
}

/// The square of the Euclidean distance between two positions.
pub open spec fn dist_sq(a: Position, b: Position) -> int {
    (a.x - b.x) * (a.x - b.x) + (a.y - b.y) * (a.y - b.y) + (a.z - b.z) * (a.z - b.z)
}

/// Whether `a` and `b` are closer to each other than `tolerance`.
pub open spec fn within(a: Position, b: Position, tolerance: u32) -> bool {
    dist_sq(a, b) < tolerance * tolerance
}

/// Closeness is symmetric, and every position with a positive tolerance is
/// close to itself.
pub proof fn lemma_within_symmetric(a: Position, b: Position, tolerance: u32)
    ensures
        within(a, b, tolerance) == within(b, a, tolerance),
        tolerance > 0 ==> within(a, a, tolerance),
{
    assert(dist_sq(a, b) == dist_sq(b, a)) by (nonlinear_arith)
        requires
            dist_sq(a, b) == (a.x - b.x) * (a.x - b.x) + (a.y - b.y) * (a.y - b.y) + (a.z - b.z)
                * (a.z - b.z),
            dist_sq(b, a) == (b.x - a.x) * (b.x - a.x) + (b.y - a.y) * (b.y - a.y) + (b.z - a.z)
                * (b.z - a.z),
    ;
    assert(tolerance > 0 ==> 0 < tolerance * tolerance) by (nonlinear_arith);
}

/// The distance between two values along one axis.
fn axis_gap(a: i64, b: i64) -> (gap: i128)
    ensures
        gap >= 0,
        gap == a - b || gap == b - a,
        gap * gap == (a - b) * (a - b),
        gap <= u64::MAX,
{
    let d: i128 = a as i128 - b as i128;
    proof {
        assert((-d) * (-d) == d * d) by (nonlinear_arith);
    }
    if d >= 0 {
        d
    } else {
        -d
    }
}

impl Position {
    /// Whether `other` lies closer to this position than `tolerance`.
    pub fn is_within(&self, other: &Position, tolerance: u32) -> (close: bool)
        ensures
            close == within(*self, *other, tolerance),
    {
        let t: i128 = tolerance as i128;
        let dx: i128 = axis_gap(self.x, other.x);
        let dy: i128 = axis_gap(self.y, other.y);
        let dz: i128 = axis_gap(self.z, other.z);
        proof {
            assert(dx * dx >= 0 && dy * dy >= 0 && dz * dz >= 0) by (nonlinear_arith);
            assert(dx >= t ==> dx * dx >= t * t) by (nonlinear_arith)
                requires
                    t >= 0,
            ;
            assert(dy >= t ==> dy * dy >= t * t) by (nonlinear_arith)
                requires
                    t >= 0,
            ;
            assert(dz >= t ==> dz * dz >= t * t) by (nonlinear_arith)
                requires
                    t >= 0,
            ;
        }
        if dx >= t || dy >= t || dz >= t {
            return false;
        }
        proof {
            assert(dx * dx <= 0xffff_ffff * 0xffff_ffff) by (nonlinear_arith)
                requires
                    0 <= dx <= 0xffff_ffff,
            ;
            assert(dy * dy <= 0xffff_ffff * 0xffff_ffff) by (nonlinear_arith)
                requires
                    0 <= dy <= 0xffff_ffff,
            ;
            assert(dz * dz <= 0xffff_ffff * 0xffff_ffff) by (nonlinear_arith)
                requires
                    0 <= dz <= 0xffff_ffff,
            ;
            assert(t * t <= 0xffff_ffff * 0xffff_ffff) by (nonlinear_arith)
                requires
                    0 <= t <= 0xffff_ffff,
            ;
        }
        dx * dx + dy * dy + dz * dz < t * t
    }
}

/// Two positions on the lattice that differ in a horizontal coordinate are
/// at least a cell apart.
pub proof fn lemma_lattice_apart(a: Position, b: Position, cell: u32)
    requires
        cell > 0,
        position_on_lattice(a, cell),
        position_on_lattice(b, cell),
        a.x != b.x || a.z != b.z,
    ensures
        dist_sq(a, b) >= cell * cell,
{
    let c = cell as int;
    vstd::arithmetic::div_mod::lemma_fundamental_div_mod(a.x as int, c);
    vstd::arithmetic::div_mod::lemma_fundamental_div_mod(b.x as int, c);
    vstd::arithmetic::div_mod::lemma_fundamental_div_mod(a.z as int, c);
    vstd::arithmetic::div_mod::lemma_fundamental_div_mod(b.z as int, c);
    let dx = a.x - b.x;
    let dy = a.y - b.y;
    let dz = a.z - b.z;
    let qx = a.x as int / c - b.x as int / c;
    let qz = a.z as int / c - b.z as int / c;
    assert(dx == c * qx && dz == c * qz) by (nonlinear_arith)
        requires
            a.x == c * (a.x as int / c),
            b.x == c * (b.x as int / c),
            a.z == c * (a.z as int / c),
            b.z == c * (b.z as int / c),
            dx == a.x - b.x,
            dz == a.z - b.z,
            qx == a.x as int / c - b.x as int / c,
            qz == a.z as int / c - b.z as int / c,
    ;
    assert(dx * dx + dy * dy + dz * dz >= c * c) by (nonlinear_arith)
        requires
            dx == c * qx,
            dz == c * qz,
            dx != 0 || dz != 0,
            c > 0,
    ;
}

} // verus!
