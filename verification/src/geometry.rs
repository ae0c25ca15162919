//! Fixed-point geometry of the table: positions, distances and straight-line movement.

use vstd::prelude::*;

verus! {

/// The number of position steps in one world unit.
pub const UNIT: i32 = 1000;

/// A point of the table. Each coordinate counts thousandths of a world unit.
#[derive(Clone, Copy, Debug, PartialEq, Eq, Structural)]
pub struct Position {
    pub x: i32,
    pub y: i32,
    pub z: i32,
}

/// The distance between two coordinates.
pub open spec fn gap(a: int, b: int) -> nat {
    if a >= b {
        (a - b) as nat
    } else {
        (b - a) as nat
    }
}

/// Whether `r` is the integer square root of `n`.
pub open spec fn is_sqrt_floor(n: nat, r: nat) -> bool {
    r * r <= n < (r + 1) * (r + 1)
}

/// The integer square root of `n`: the one `r` with `r * r <= n < (r + 1) * (r + 1)`.
pub open spec fn sqrt_floor(n: nat) -> nat {
    choose|r: nat| is_sqrt_floor(n, r)
}

/// The value `v` held to the range of an `i32`.
pub open spec fn clamp_i32(v: int) -> int {
    if v < i32::MIN {
        i32::MIN as int
    } else if v > i32::MAX {
        i32::MAX as int
    } else {
        v
    }
}

/// The coordinate reached from `from` after `stride` steps out of the `length` steps
/// that lead to `to`: the share of the way, rounded to the nearest whole step.
pub open spec fn advance(from: int, to: int, stride: nat, length: nat) -> int
    recommends
        length > 0,
{
    if to >= from {
        from + (2 * (to - from) * stride + length) / (2 * length as int)
    } else {
        from - (2 * (from - to) * stride + length) / (2 * length as int)
    }
}

/// Squares grow with their argument.
pub proof fn lemma_square_monotonic(a: nat, b: nat)
    requires
        a <= b,
    ensures
        a * a <= b * b,
{
    assert(a * a <= b * b) by (nonlinear_arith)
        requires
            a <= b,
    ;
}

/// Only one number can be the integer square root of `n`.
pub proof fn lemma_sqrt_floor_is(n: nat, r: nat)
    requires
        r * r <= n < (r + 1) * (r + 1),
    ensures
        sqrt_floor(n) == r,
{
    assert(is_sqrt_floor(n, r));
    let q = sqrt_floor(n);
    assert(is_sqrt_floor(n, q));
    if q < r {
        lemma_square_monotonic(q + 1, r);
    } else if r < q {
        lemma_square_monotonic(r + 1, q);
    }
}

/// The integer square root of `n`.
pub fn integer_sqrt(n: u128) -> (root: u64)
    ensures
        root == sqrt_floor(n as nat),
        root * root <= n < (root + 1) * (root + 1),
{
    let mut low: u128 = 0;
    let mut high: u128 = 0x1_0000_0000_0000_0000;
    assert(high * high > n) by (nonlinear_arith)
        requires
            high == 0x1_0000_0000_0000_0000,
            n <= u128::MAX,
    ;
    while high - low > 1
        invariant
            low < high <= 0x1_0000_0000_0000_0000,
            low * low <= n < high * high,
        decreases high - low,
    {
        let middle: u128 = low + (high - low) / 2;
        assert(middle * middle <= u128::MAX) by (nonlinear_arith)
            requires
                middle < 0x1_0000_0000_0000_0000,
        ;
        if middle * middle <= n {
            low = middle;
        } else {
            high = middle;
        }
    }
    proof {
        lemma_sqrt_floor_is(n as nat, low as nat);
    }
    low as u64
}

impl Position {
    /// The point at the centre of the table.
    pub fn origin() -> (p: Position)
        ensures
            p == (Position { x: 0, y: 0, z: 0 }),
    {
        Position { x: 0, y: 0, z: 0 }
    }

    /// The square of the straight-line distance between two points.
    pub open spec fn distance_squared_spec(self, other: Position) -> nat {
        gap(self.x as int, other.x as int) * gap(self.x as int, other.x as int) + gap(
            self.y as int,
            other.y as int,
        ) * gap(self.y as int, other.y as int) + gap(self.z as int, other.z as int) * gap(
            self.z as int,
            other.z as int,
        )
    }

    /// The square of the straight-line distance between two points.
    pub fn distance_squared(&self, other: &Position) -> (d: u128)
        ensures
            d == self.distance_squared_spec(*other),
            d < 0x3_0000_0000_0000_0000,
    {
        let dx: u128 = coordinate_gap(self.x, other.x) as u128;
        let dy: u128 = coordinate_gap(self.y, other.y) as u128;
        let dz: u128 = coordinate_gap(self.z, other.z) as u128;
        assert(dx * dx < 0x1_0000_0000_0000_0000) by (nonlinear_arith)
            requires
                dx < 0x1_0000_0000,
        ;
        assert(dy * dy < 0x1_0000_0000_0000_0000) by (nonlinear_arith)
            requires
                dy < 0x1_0000_0000,
        ;
        assert(dz * dz < 0x1_0000_0000_0000_0000) by (nonlinear_arith)
            requires
                dz < 0x1_0000_0000,
        ;
        dx * dx + dy * dy + dz * dz
    }

    /// The point `dx` steps to the right of this one, held to the coordinate range.
    pub fn shifted_x(&self, dx: i32) -> (p: Position)
        ensures
            p.x == clamp_i32(self.x + dx),
            p.y == self.y,
            p.z == self.z,
    {
        Position { x: clamp_to_i32(self.x as i64 + dx as i64), y: self.y, z: self.z }
    }

    /// Where a walker that sets out from `self` towards `target` stands after `stride` steps:
    /// on the straight line between the two, and at `target` itself once `stride` reaches
    /// the distance.
    pub open spec fn step_toward_spec(self, target: Position, stride: nat) -> Position {
        let length = sqrt_floor(self.distance_squared_spec(target));
        let taken = if stride < length {
            stride
        } else {
            length
        };
        if length == 0 {
            self
        } else {
            Position {
                x: advance(self.x as int, target.x as int, taken, length) as i32,
                y: advance(self.y as int, target.y as int, taken, length) as i32,
                z: advance(self.z as int, target.z as int, taken, length) as i32,
            }
        }
    }

    /// Moves `stride` steps from `self` straight towards `target`, never past it.
    pub fn step_toward(&self, target: &Position, stride: u32) -> (p: Position)
        ensures
            p == self.step_toward_spec(*target, stride as nat),
    {
        let length: u64 = integer_sqrt(self.distance_squared(target));
        if length == 0 {
            return *self;
        }
        let taken: u64 = if (stride as u64) < length {
            stride as u64
        } else {
            length
        };
        Position {
            x: advance_coordinate(self.x, target.x, taken, length),
            y: advance_coordinate(self.y, target.y, taken, length),
            z: advance_coordinate(self.z, target.z, taken, length),
        }
    }
}

/// The distance between two coordinates.
pub fn coordinate_gap(a: i32, b: i32) -> (d: u64)
    ensures
        d == gap(a as int, b as int),
        d < 0x1_0000_0000,
{
    if a >= b {
        (a as i64 - b as i64) as u64
    } else {
        (b as i64 - a as i64) as u64
    }
}

/// Holds `v` to the range of an `i32`.
pub fn clamp_to_i32(v: i64) -> (c: i32)
    ensures
        c == clamp_i32(v as int),
{
    if v < i32::MIN as i64 {
        i32::MIN
    } else if v > i32::MAX as i64 {
        i32::MAX
    } else {
        v as i32
    }
}

/// One coordinate of a move: `taken` of the `length` steps from `from` to `to`.
pub fn advance_coordinate(from: i32, to: i32, taken: u64, length: u64) -> (c: i32)
    requires
        0 < length,
        taken <= length,
    ensures
        c == advance(from as int, to as int, taken as nat, length as nat),
        from <= to ==> from <= c <= to,
        to <= from ==> to <= c <= from,
{
    let distance: u64 = coordinate_gap(from, to);
    assert(2 * distance * taken + length <= 0x2_0000_0000 * 0xffff_ffff_ffff_ffff
        + 0xffff_ffff_ffff_ffff) by (nonlinear_arith)
        requires
            distance < 0x1_0000_0000,
            taken <= 0xffff_ffff_ffff_ffff,
            length <= 0xffff_ffff_ffff_ffff,
    ;
    assert(2 * distance * taken == 2 * (distance * taken)) by (nonlinear_arith);
    let moved: u128 = (2 * (distance as u128) * (taken as u128) + length as u128) / (2 * (
    length as u128));
    assert(moved <= distance) by (nonlinear_arith)
        requires
            moved == (2 * distance * taken + length) / (2 * length as int),
            taken <= length,
            0 < length,
    ;
    if to >= from {
        (from as i64 + moved as i64) as i32
    } else {
        (from as i64 - moved as i64) as i32
    }
}

} // verus!
