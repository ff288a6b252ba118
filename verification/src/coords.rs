use vstd::prelude::*;
use vstd::arithmetic::div_mod::{
    lemma_div_nonincreasing, lemma_div_pos_is_pos, lemma_fundamental_div_mod,
    lemma_fundamental_div_mod_converse,
};

verus! {

/// A coordinate in the infinite chunk lattice (chunk-grid units).
#[derive(Clone, Copy, PartialEq, Eq, Structural, Debug, Hash)]
pub struct GridPos {
    pub x: i32,
    pub y: i32,
    pub z: i32,
}

/// Number of fixed-point subdivisions per world unit: world-space positions
/// are carried as integer counts of thousandths of a unit.
pub const MILLI: i64 = 1000;

/// A world-space position in fixed-point milli-units.
#[derive(Clone, Copy, PartialEq, Eq, Structural, Debug)]
pub struct WorldPos {
    pub x: i64,
    pub y: i64,
    pub z: i64,
}

/// Bound on the magnitude of world-space coordinates handed to the engine,
/// chosen so that every derived chunk coordinate fits in an `i32` and no
/// intermediate sum overflows.
pub const MAX_COORD: i64 = 0x1000_0000_0000;

impl GridPos {
    pub fn new(x: i32, y: i32, z: i32) -> (p: GridPos)
        ensures
            p.x == x && p.y == y && p.z == z,
    {
        GridPos { x, y, z }
    }
}

impl WorldPos {
    pub fn new(x: i64, y: i64, z: i64) -> (p: WorldPos)
        ensures
            p.x == x && p.y == y && p.z == z,
    {
        WorldPos { x, y, z }
    }

    /// All three coordinates lie within the engine's world bound.
    pub open spec fn bounded(self) -> bool {
        -MAX_COORD <= self.x <= MAX_COORD && -MAX_COORD <= self.y <= MAX_COORD
            && -MAX_COORD <= self.z <= MAX_COORD
    }
}

/// Squared Euclidean distance between two chunk coordinates, in chunk-grid units.
pub open spec fn dist_sq(a: GridPos, b: GridPos) -> int {
    (a.x - b.x) * (a.x - b.x) + (a.y - b.y) * (a.y - b.y) + (a.z - b.z) * (a.z - b.z)
}

/// Computes `dist_sq` exactly; `i128` holds the squares of any `i32` differences.
pub fn dist_sq_exec(a: GridPos, b: GridPos) -> (r: i128)
    ensures
        r == dist_sq(a, b),
{
    let dx: i128 = (a.x as i128) - (b.x as i128);
    let dy: i128 = (a.y as i128) - (b.y as i128);
    let dz: i128 = (a.z as i128) - (b.z as i128);
    proof {
        lemma_square_bounded(dx as int);
        lemma_square_bounded(dy as int);
        lemma_square_bounded(dz as int);
    }
    dx * dx + dy * dy + dz * dz
}

/// The square of anything the size of an `i32` difference stays tiny next to `i128`.
proof fn lemma_square_bounded(v: int)
    requires
        -0x1_0000_0000 <= v <= 0x1_0000_0000,
    ensures
        0 <= v * v <= 0x1_0000_0000_0000_0000,
{
    assert(0 <= v * v <= 0x1_0000_0000_0000_0000) by (nonlinear_arith)
        requires
            -0x1_0000_0000 <= v <= 0x1_0000_0000,
    ;
}

/// Floor division of a bounded world coordinate by a chunk-sized divisor
/// lands well inside the `i32` range of chunk coordinates.
pub proof fn lemma_div_magnitude(a: int, b: int)
    requires
        -2 * MAX_COORD <= a <= 2 * MAX_COORD,
        24000 <= b,
    ensures
        -0x6000_0000 <= a / b <= 0x6000_0000,
        -MAX_COORD <= a <= MAX_COORD ==> -0x4000_0000 <= a / b <= 0x4000_0000,
{
    lemma_fundamental_div_mod(a, b);
    let q = a / b;
    let r = a % b;
    assert(-0x6000_0000 <= q <= 0x6000_0000 && (-0x1000_0000_0000 <= a <= 0x1000_0000_0000
        ==> -0x4000_0000 <= q <= 0x4000_0000)) by (nonlinear_arith)
        requires
            a == b * q + r,
            0 <= r < b,
            24000 <= b,
            -0x2000_0000_0000 <= a <= 0x2000_0000_0000,
    ;
}

/// Floor division of `a` by a positive divisor `b`: the mathematical quotient,
/// rounding toward negative infinity (what spec-level `/` means here).
pub fn floor_div(a: i64, b: i64) -> (q: i64)
    requires
        0 < b,
        i64::MIN < a,
    ensures
        q == a as int / b as int,
{
    if a >= 0 {
        let qu = (a as u64) / (b as u64);
        proof {
            lemma_div_nonincreasing(a as int, b as int);
            lemma_div_pos_is_pos(a as int, b as int);
        }
        qu as i64
    } else {
        let n = (-a) as u64;
        let bu = b as u64;
        let qq = n / bu;
        let rr = n % bu;
        proof {
            lemma_fundamental_div_mod(n as int, bu as int);
            lemma_div_nonincreasing(n as int, bu as int);
            lemma_div_pos_is_pos(n as int, bu as int);
        }
        if rr == 0 {
            let q = -(qq as i64);
            proof {
                assert(a as int == (q as int) * (b as int) + 0) by (nonlinear_arith)
                    requires
                        n == bu * qq,
                        a == -(n as int),
                        q == -(qq as int),
                        bu == b,
                ;
                lemma_fundamental_div_mod_converse(a as int, b as int, q as int, 0);
            }
            q
        } else {
            let q = -(qq as i64) - 1;
            proof {
                assert(a as int == (q as int) * (b as int) + ((b - rr) as int)) by (
                nonlinear_arith)
                    requires
                        n == bu * qq + rr,
                        a == -(n as int),
                        q == -(qq as int) - 1,
                        bu == b,
                ;
                lemma_fundamental_div_mod_converse(a as int, b as int, q as int, b - rr);
            }
            q
        }
    }
}

} // verus!
