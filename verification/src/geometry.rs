//! Positions and the distance between them.
//!
//! A position is given in millimetres along three axes at right angles. Stop
//! points on a map have their easting and northing as the first two
//! coordinates and zero as the third. Stop points on the globe have their
//! coordinates from the centre of the Earth: the straight line between two of
//! them falls short of the way over the ground by about a millimetre when
//! they are ten kilometres apart, and by far less when they are nearer.
//!
//! Distances are Euclidean, rounded up to whole millimetres. Rounding up
//! loses nothing for the two questions asked of a distance here: whether it
//! exceeds a whole number of millimetres, and how many whole seconds it takes
//! to walk at a whole number of millimetres per second.

use vstd::prelude::*;

verus! {

/// A point, in millimetres from the origin along each axis.
#[derive(Clone, Copy, Debug, PartialEq, Eq, Structural)]
pub struct Position {
    /// Millimetres along the first axis.
    pub x: i64,
    /// Millimetres along the second axis.
    pub y: i64,
    /// Millimetres along the third axis.
    pub z: i64,
}

/// The square of the Euclidean distance between two positions.
pub open spec fn sq_distance(a: Position, b: Position) -> nat {
    ((a.x - b.x) * (a.x - b.x) + (a.y - b.y) * (a.y - b.y) + (a.z - b.z) * (a.z - b.z)) as nat
}

/// `r` is the least natural number whose square reaches `n`.
pub open spec fn is_ceil_sqrt(n: nat, r: nat) -> bool {
    &&& n <= r * r
    &&& r > 0 ==> (r - 1) * (r - 1) < n
}

/// The square root of `n`, rounded up.
pub open spec fn ceil_sqrt(n: nat) -> nat {
    choose|r: nat| is_ceil_sqrt(n, r)
}

/// How far apart the first coordinates of two positions are.
pub open spec fn gap(a: Position, b: Position) -> nat {
    if a.x >= b.x {
        (a.x - b.x) as nat
    } else {
        (b.x - a.x) as nat
    }
}

/// The distance between two positions in millimetres, rounded up.
pub open spec fn distance(a: Position, b: Position) -> nat {
    ceil_sqrt(sq_distance(a, b))
}

proof fn lemma_square_monotonic(a: nat, b: nat)
    requires
        a <= b,
    ensures
        a * a <= b * b,
{
    assert(a * a <= b * b) by (nonlinear_arith)
        requires
            a <= b,
    ;
}

proof fn lemma_ceil_sqrt_witness(n: nat) -> (r: nat)
    ensures
        is_ceil_sqrt(n, r),
    decreases n,
{
    if n == 0 {
        0
    } else {
        let p: nat = lemma_ceil_sqrt_witness((n - 1) as nat);
        if n <= p * p {
            p
        } else {
            assert((p + 1) * (p + 1) == p * p + 2 * p + 1) by (nonlinear_arith);
            p + 1
        }
    }
}

/// Every natural number has a rounded-up square root.
pub proof fn lemma_ceil_sqrt(n: nat)
    ensures
        is_ceil_sqrt(n, ceil_sqrt(n)),
{
    let r: nat = lemma_ceil_sqrt_witness(n);
    assert(is_ceil_sqrt(n, r));
}

/// The rounded-up square root is the only number that satisfies its definition.
pub proof fn lemma_ceil_sqrt_unique(n: nat, r: nat)
    requires
        is_ceil_sqrt(n, r),
    ensures
        r == ceil_sqrt(n),
{
    lemma_ceil_sqrt(n);
    let s: nat = ceil_sqrt(n);
    if r < s {
        lemma_square_monotonic(r, (s - 1) as nat);
    }
    if s < r {
        lemma_square_monotonic(s, (r - 1) as nat);
    }
}

/// A rounded-up square root stays below a bound exactly when the number stays
/// below the bound's square.
pub proof fn lemma_ceil_sqrt_bound(n: nat, limit: nat)
    ensures
        ceil_sqrt(n) <= limit <==> n <= limit * limit,
{
    lemma_ceil_sqrt(n);
    let r: nat = ceil_sqrt(n);
    if r <= limit {
        lemma_square_monotonic(r, limit);
    } else {
        lemma_square_monotonic(limit, (r - 1) as nat);
    }
}

/// The distance does not depend on the direction.
pub proof fn lemma_distance_symmetric(a: Position, b: Position)
    ensures
        sq_distance(a, b) == sq_distance(b, a),
        distance(a, b) == distance(b, a),
{
    let dx: int = a.x - b.x;
    let dy: int = a.y - b.y;
    let dz: int = a.z - b.z;
    assert(dx * dx == (-dx) * (-dx)) by (nonlinear_arith);
    assert(dy * dy == (-dy) * (-dy)) by (nonlinear_arith);
    assert(dz * dz == (-dz) * (-dz)) by (nonlinear_arith);
    assert(b.x - a.x == -dx);
    assert(b.y - a.y == -dy);
    assert(b.z - a.z == -dz);
}

/// A position is at distance zero from itself.
pub proof fn lemma_distance_to_self(a: Position)
    ensures
        distance(a, a) == 0,
{
    assert(sq_distance(a, a) == 0);
    lemma_ceil_sqrt_unique(0, 0);
}

/// Two positions are within `limit` millimetres of each other exactly when
/// the square of their distance does not exceed the square of `limit`: a pair
/// at the limit is within it, a pair beyond it by any amount is not.
pub proof fn lemma_within_limit(a: Position, b: Position, limit: nat)
    ensures
        distance(a, b) <= limit <==> sq_distance(a, b) <= limit * limit,
{
    lemma_ceil_sqrt_bound(sq_distance(a, b), limit);
}

/// Two positions are no nearer to each other than their first coordinates
/// are.
pub proof fn lemma_distance_reaches_gap(a: Position, b: Position, limit: nat)
    requires
        gap(a, b) > limit,
    ensures
        distance(a, b) > limit,
{
    lemma_within_limit(a, b, limit);
    let dx: int = a.x - b.x;
    let dy: int = a.y - b.y;
    let dz: int = a.z - b.z;
    assert(dx * dx > limit * limit) by (nonlinear_arith)
        requires
            dx > limit || -dx > limit,
            limit >= 0,
    ;
    assert(dy * dy >= 0) by (nonlinear_arith);
    assert(dz * dz >= 0) by (nonlinear_arith);
}

fn abs_difference(a: i64, b: i64) -> (d: u64)
    ensures
        d == (if a >= b { a - b } else { b - a }),
{
    if a >= b {
        (a as i128 - b as i128) as u64
    } else {
        (b as i128 - a as i128) as u64
    }
}

fn square(v: u64) -> (s: u128)
    ensures
        s == v * v,
{
    assert(v * v <= 0xffff_ffff_ffff_ffff * 0xffff_ffff_ffff_ffff) by (nonlinear_arith)
        requires
            0 <= v <= 0xffff_ffff_ffff_ffff,
    ;
    (v as u128) * (v as u128)
}

/// How far apart the first coordinates of `a` and `b` are.
pub fn gap_between(a: Position, b: Position) -> (g: u64)
    ensures
        g == gap(a, b),
{
    abs_difference(a.x, b.x)
}

/// The rounded-up square root of `n`, which is known not to exceed `limit`.
fn ceil_sqrt_below(n: u128, limit: u64) -> (r: u64)
    requires
        n <= limit * limit,
    ensures
        r == ceil_sqrt(n as nat),
        r <= limit,
{
    let mut lo: u64 = 0;
    let mut hi: u64 = limit;
    while lo < hi
        invariant
            lo <= hi <= limit,
            n <= hi * hi,
            lo > 0 ==> (lo - 1) * (lo - 1) < n,
        decreases hi - lo,
    {
        let mid: u64 = lo + (hi - lo) / 2;
        let mid_sq: u128 = square(mid);
        if mid_sq >= n {
            hi = mid;
        } else {
            lo = mid + 1;
        }
    }
    proof {
        lemma_ceil_sqrt_unique(n as nat, lo as nat);
    }
    lo
}

/// The distance between `a` and `b` if it does not exceed `limit`
/// millimetres, and nothing if it does.
pub fn distance_within(a: Position, b: Position, limit: u64) -> (d: Option<u64>)
    ensures
        d == (if distance(a, b) <= limit {
            Some(distance(a, b) as u64)
        } else {
            None::<u64>
        }),
{
    let dx: u64 = abs_difference(a.x, b.x);
    let dy: u64 = abs_difference(a.y, b.y);
    let dz: u64 = abs_difference(a.z, b.z);
    let dx_sq: u128 = square(dx);
    let dy_sq: u128 = square(dy);
    let dz_sq: u128 = square(dz);
    let limit_sq: u128 = square(limit);
    proof {
        let ix: int = a.x - b.x;
        let iy: int = a.y - b.y;
        let iz: int = a.z - b.z;
        assert(ix * ix == dx * dx) by (nonlinear_arith)
            requires
                dx == ix || dx == -ix,
        ;
        assert(iy * iy == dy * dy) by (nonlinear_arith)
            requires
                dy == iy || dy == -iy,
        ;
        assert(iz * iz == dz * dz) by (nonlinear_arith)
            requires
                dz == iz || dz == -iz,
        ;
        assert(sq_distance(a, b) == dx_sq + dy_sq + dz_sq);
        lemma_within_limit(a, b, limit as nat);
    }
    let flat: u128 = match dx_sq.checked_add(dy_sq) {
        Some(sum) => sum,
        None => {
            return None;
        },
    };
    match flat.checked_add(dz_sq) {
        None => None,
        Some(sq) => {
            if sq > limit_sq {
                None
            } else {
                Some(ceil_sqrt_below(sq, limit))
            }
        },
    }
}

} // verus!
