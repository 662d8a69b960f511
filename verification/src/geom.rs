//! Geodesic segment cost: a planar approximation of the distance between two
//! fixed-point coordinates, floored to whole meters, divided by the way's
//! speed floored to whole meters per second.

use vstd::prelude::*;

verus! {

/// Meters per degree of latitude used by the planar distance approximation.
pub const LAT_METERS_PER_DEGREE: i64 = 111229;

/// Meters per degree of longitude used by the planar distance approximation.
pub const LON_METERS_PER_DEGREE: i64 = 71695;

/// Coordinates are fixed-point degrees scaled by 10^7.
pub const COORD_SCALE: u64 = 10_000_000;

/// A geolocated point: unique id plus latitude and longitude stored as
/// fixed-point integers scaled by 10^7.
#[derive(Debug, PartialEq, Hash, Eq, Clone, Copy, PartialOrd, Ord, Structural)]
pub struct Node {
    pub id: i64,
    pub lat: i64,
    pub lon: i64,
}

/// A node holds a genuine geographic coordinate: latitude within +-90 degrees
/// and longitude within +-180 degrees, at the 10^7 fixed-point scale.
pub open spec fn coord_ok(n: Node) -> bool {
    &&& -900_000_000 <= n.lat <= 900_000_000
    &&& -1_800_000_000 <= n.lon <= 1_800_000_000
}

/// A speed (km/h) the cost computation accepts: at least 4 km/h, so that the
/// floored conversion to m/s is nonzero, and small enough that the conversion
/// cannot overflow.
pub open spec fn valid_speed(s: u64) -> bool {
    &&& 4 <= s
    &&& s * 5 <= u64::MAX
}

/// `r` is the floor of the square root of `n`.
pub open spec fn is_sqrt_floor(n: int, r: int) -> bool {
    &&& 0 <= r
    &&& r * r <= n
    &&& n < (r + 1) * (r + 1)
}

/// The floor of the square root of a nonnegative integer.
pub open spec fn sqrt_floor(n: int) -> int {
    choose|r: int| is_sqrt_floor(n, r)
}

/// Squaring is monotonic over the nonnegative integers.
pub proof fn lemma_square_monotonic(a: int, b: int)
    requires
        0 <= a <= b,
    ensures
        a * a <= b * b,
{
    assert(a * a <= b * b) by (nonlinear_arith)
        requires
            0 <= a <= b,
    ;
}

/// The floor of the square root exists and is unique.
pub proof fn lemma_sqrt_floor(n: int)
    requires
        0 <= n,
    ensures
        is_sqrt_floor(n, sqrt_floor(n)),
        forall|r: int| is_sqrt_floor(n, r) ==> r == sqrt_floor(n),
    decreases n,
{
    if n == 0 {
        assert(is_sqrt_floor(0, 0));
    } else {
        lemma_sqrt_floor(n - 1);
        let p = sqrt_floor(n - 1);
        if (p + 1) * (p + 1) <= n {
            assert(n < (p + 2) * (p + 2)) by (nonlinear_arith)
                requires
                    n - 1 < (p + 1) * (p + 1),
                    0 <= p,
            ;
            assert(is_sqrt_floor(n, p + 1));
        } else {
            assert(is_sqrt_floor(n, p));
        }
    }
    assert forall|r: int| is_sqrt_floor(n, r) implies r == sqrt_floor(n) by {
        let q = sqrt_floor(n);
        if r < q {
            lemma_square_monotonic(r + 1, q);
        }
        if q < r {
            lemma_square_monotonic(q + 1, r);
        }
    }
}

/// The squared planar distance between two coordinates, in units of
/// (meters / 10^7) squared.
pub open spec fn spec_sq_dist(tail: Node, head: Node) -> int {
    let dlat = (head.lat - tail.lat) * LAT_METERS_PER_DEGREE;
    let dlon = (head.lon - tail.lon) * LON_METERS_PER_DEGREE;
    dlat * dlat + dlon * dlon
}

/// The floored planar distance between two coordinates, in whole meters.
pub open spec fn spec_distance(tail: Node, head: Node) -> int {
    sqrt_floor(spec_sq_dist(tail, head)) / (COORD_SCALE as int)
}

/// The way speed converted from km/h to whole meters per second, floored.
pub open spec fn spec_speed_ms(speed: u64) -> int {
    (speed * 5) as int / 18
}

/// Traversal cost of a segment in whole seconds: floored distance divided by
/// floored speed, each stage an integer floor division.
pub open spec fn spec_cost(tail: Node, head: Node, speed: u64) -> u64 {
    (spec_distance(tail, head) / spec_speed_ms(speed)) as u64
}

/// Floor of the square root, by binary search over `u128`.
fn isqrt(n: u128) -> (r: u128)
    requires
        n < 0x40000000000000000000000000000000u128,
    ensures
        is_sqrt_floor(n as int, r as int),
        r < 0x8000000000000000u128,
{
    if n == 0 {
        return 0;
    }
    let mut lo: u128 = 0;
    let mut hi: u128 = 0x8000000000000000u128;
    assert(hi * hi == 0x40000000000000000000000000000000u128);
    while hi - lo > 1
        invariant
            0 <= lo < hi <= 0x8000000000000000u128,
            lo * lo <= n,
            n < hi * hi,
        decreases hi - lo,
    {
        let mid = lo + (hi - lo) / 2;
        proof {
            assert(mid * mid <= 0x40000000000000000000000000000000u128) by (nonlinear_arith)
                requires
                    0 <= mid <= 0x8000000000000000u128,
            ;
        }
        if mid * mid <= n {
            lo = mid;
        } else {
            hi = mid;
        }
    }
    lo
}

/// Traversal cost in whole seconds of the segment from `tail` to `head` at
/// `speed` km/h. A pure function of its three arguments.
pub fn segment_cost(tail: &Node, head: &Node, speed: u64) -> (c: u64)
    requires
        coord_ok(*tail),
        coord_ok(*head),
        valid_speed(speed),
    ensures
        c == spec_cost(*tail, *head, speed),
{
    proof {
        assert((head.lat - tail.lat) * LAT_METERS_PER_DEGREE <= 300_000_000_000_000
            && (head.lat - tail.lat) * LAT_METERS_PER_DEGREE >= -300_000_000_000_000)
            by (nonlinear_arith)
            requires
                -1_800_000_000 <= head.lat - tail.lat <= 1_800_000_000,
        ;
        assert((head.lon - tail.lon) * LON_METERS_PER_DEGREE <= 300_000_000_000_000
            && (head.lon - tail.lon) * LON_METERS_PER_DEGREE >= -300_000_000_000_000)
            by (nonlinear_arith)
            requires
                -3_600_000_000 <= head.lon - tail.lon <= 3_600_000_000,
        ;
    }
    let dlat: i64 = (head.lat - tail.lat) * LAT_METERS_PER_DEGREE;
    let dlon: i64 = (head.lon - tail.lon) * LON_METERS_PER_DEGREE;
    proof {
        assert(dlat as int * dlat as int <= 90_000_000_000_000_000_000_000_000_000int
            && dlat as int * dlat as int >= 0) by (nonlinear_arith)
            requires
                -300_000_000_000_000 <= dlat as int <= 300_000_000_000_000,
        ;
        assert(dlon as int * dlon as int <= 90_000_000_000_000_000_000_000_000_000int
            && dlon as int * dlon as int >= 0) by (nonlinear_arith)
            requires
                -300_000_000_000_000 <= dlon as int <= 300_000_000_000_000,
        ;
    }
    let sq: u128 = (dlat as i128 * dlat as i128) as u128 + (dlon as i128 * dlon as i128) as u128;
    assert(sq == spec_sq_dist(*tail, *head));
    let root = isqrt(sq);
    proof {
        lemma_sqrt_floor(sq as int);
        assert(root as int == sqrt_floor(spec_sq_dist(*tail, *head)));
    }
    let root64: u64 = root as u64;
    let meters: u64 = root64 / COORD_SCALE;
    let speed_ms: u64 = (speed * 5) / 18;
    assert(speed_ms >= 1);
    meters / speed_ms
}

} // verus!
