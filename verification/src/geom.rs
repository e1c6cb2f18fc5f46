//! Fixed-point geometry: 3-vectors in millimetres, integer square roots,
//! Euclidean distances, and scaled (approximately unit) direction vectors.
use vstd::prelude::*;

verus! {

/// Fixed-point scale of direction vectors: a well-formed direction is a
/// 3-vector whose Euclidean norm is within `DIR_TOL` of `DIR_SCALE`.
pub const DIR_SCALE: i64 = 65536;

/// Tolerance on the norm of a scaled direction vector.
pub const DIR_TOL: i64 = 8;

/// Largest coordinate magnitude (millimetres) the simulation arena admits.
pub const COORD_BOUND: i64 = 1_000_000_000;

/// Upper limit on arguments accepted by `isqrt` (2^126, so the root fits
/// below 2^63 and squaring never overflows a `u128`).
pub const MAX_SQRT_ARG: u128 = 0x4000_0000_0000_0000_0000_0000_0000_0000;

/// A point or free vector in 3-space, in millimetre fixed point.
#[derive(Clone, Copy, Debug, PartialEq, Eq, Structural)]
pub struct Vec3 {
    pub x: i64,
    pub y: i64,
    pub z: i64,
}

/// Squared Euclidean norm, as an unbounded integer.
pub open spec fn norm_sq(v: Vec3) -> int {
    v.x * v.x + v.y * v.y + v.z * v.z
}

/// The vector lies inside the simulation arena.
pub open spec fn in_bounds(v: Vec3) -> bool {
    &&& -COORD_BOUND <= v.x <= COORD_BOUND
    &&& -COORD_BOUND <= v.y <= COORD_BOUND
    &&& -COORD_BOUND <= v.z <= COORD_BOUND
}

/// The vector from `a` to `b`, componentwise `b - a`.
pub open spec fn delta_spec(a: Vec3, b: Vec3) -> Vec3 {
    Vec3 { x: (b.x - a.x) as i64, y: (b.y - a.y) as i64, z: (b.z - a.z) as i64 }
}

/// Largest integer whose square does not exceed `n` (0 for negative `n`).
pub open spec fn sqrt_floor(n: int) -> int
    decreases n,
{
    if n <= 0 {
        0
    } else {
        let r = sqrt_floor(n - 1);
        if (r + 1) * (r + 1) <= n {
            r + 1
        } else {
            r
        }
    }
}

/// Smallest integer whose square is at least `n`.
pub open spec fn sqrt_ceil(n: int) -> int {
    let r = sqrt_floor(n);
    if r * r == n {
        r
    } else {
        r + 1
    }
}

/// `sqrt_floor(n)` is the floor of the real square root of `n`.
pub proof fn lemma_sqrt_floor(n: int)
    requires
        n >= 0,
    ensures
        sqrt_floor(n) >= 0,
        sqrt_floor(n) * sqrt_floor(n) <= n,
        n < (sqrt_floor(n) + 1) * (sqrt_floor(n) + 1),
    decreases n,
{
    if n > 0 {
        lemma_sqrt_floor(n - 1);
        let r = sqrt_floor(n - 1);
        if (r + 1) * (r + 1) <= n {
            assert(n == (r + 1) * (r + 1));
            assert((r + 1) * (r + 1) < (r + 2) * (r + 2)) by (nonlinear_arith)
                requires
                    r >= 0,
            ;
        }
    }
}

/// Any integer satisfying the floor-root characterization is `sqrt_floor(n)`.
pub proof fn lemma_sqrt_floor_unique(n: int, m: int)
    requires
        n >= 0,
        m >= 0,
        m * m <= n,
        n < (m + 1) * (m + 1),
    ensures
        m == sqrt_floor(n),
{
    lemma_sqrt_floor(n);
    let s = sqrt_floor(n);
    if m < s {
        assert((m + 1) * (m + 1) <= s * s) by (nonlinear_arith)
            requires
                0 <= m + 1 <= s,
        ;
    }
    if s < m {
        assert((s + 1) * (s + 1) <= m * m) by (nonlinear_arith)
            requires
                0 <= s + 1 <= m,
        ;
    }
}

/// Whatever squares to at most `n` is at most `sqrt_floor(n)`.
pub proof fn lemma_sqrt_floor_ge(n: int, m: int)
    requires
        n >= 0,
        m >= 0,
        m * m <= n,
    ensures
        m <= sqrt_floor(n),
{
    lemma_sqrt_floor(n);
    let s = sqrt_floor(n);
    if m > s {
        assert((s + 1) * (s + 1) <= m * m) by (nonlinear_arith)
            requires
                0 <= s + 1 <= m,
        ;
    }
}

/// `sqrt_floor(n)` is below any `m` whose square exceeds `n`.
pub proof fn lemma_sqrt_floor_lt(n: int, m: int)
    requires
        n >= 0,
        m >= 0,
        n < m * m,
    ensures
        sqrt_floor(n) < m,
{
    lemma_sqrt_floor(n);
    let s = sqrt_floor(n);
    if s >= m {
        assert(m * m <= s * s) by (nonlinear_arith)
            requires
                0 <= m <= s,
        ;
    }
}

/// Integer square root by binary search.
pub fn isqrt(n: u128) -> (r: u128)
    requires
        n < MAX_SQRT_ARG,
    ensures
        r as int == sqrt_floor(n as int),
        r * r <= n,
{
    let mut lo: u128 = 0;
    let mut hi: u128 = 9223372036854775808;
    assert(9223372036854775808u128 * 9223372036854775808u128 == MAX_SQRT_ARG);
    while lo + 1 < hi
        invariant
            lo < hi <= 9223372036854775808u128,
            lo * lo <= n,
            (n as int) < (hi as int) * (hi as int),
        decreases hi - lo,
    {
        let mid: u128 = lo + (hi - lo) / 2;
        assert(lo < mid < hi);
        proof {
            assert((mid as int) * (mid as int) <= MAX_SQRT_ARG) by (nonlinear_arith)
                requires
                    0 <= (mid as int) <= 9223372036854775808int,
                    MAX_SQRT_ARG == 0x4000_0000_0000_0000_0000_0000_0000_0000,
            ;
        }
        if mid * mid <= n {
            lo = mid;
        } else {
            hi = mid;
        }
    }
    proof {
        lemma_sqrt_floor_unique(n as int, lo as int);
    }
    lo
}

/// Componentwise difference `b - a` of two in-bounds vectors.
pub fn delta(a: &Vec3, b: &Vec3) -> (r: Vec3)
    requires
        in_bounds(*a),
        in_bounds(*b),
    ensures
        r == delta_spec(*a, *b),
        r.x == b.x - a.x,
        r.y == b.y - a.y,
        r.z == b.z - a.z,
{
    Vec3 { x: b.x - a.x, y: b.y - a.y, z: b.z - a.z }
}

/// Floor of the Euclidean distance from `a` to `b`, in millimetres.
pub open spec fn dist_floor(a: Vec3, b: Vec3) -> int {
    sqrt_floor(norm_sq(delta_spec(a, b)))
}

/// Ceiling of the Euclidean distance from `a` to `b`, in millimetres.
pub open spec fn dist_ceil(a: Vec3, b: Vec3) -> int {
    sqrt_ceil(norm_sq(delta_spec(a, b)))
}

/// Squared norm of an in-bounds-difference vector, computed exactly in `u128`.
fn norm_sq_exec(v: &Vec3) -> (r: u128)
    requires
        -4 * COORD_BOUND <= v.x <= 4 * COORD_BOUND,
        -4 * COORD_BOUND <= v.y <= 4 * COORD_BOUND,
        -4 * COORD_BOUND <= v.z <= 4 * COORD_BOUND,
    ensures
        r as int == norm_sq(*v),
        r <= 48_000_000_000_000_000_000u128,
        r < MAX_SQRT_ARG,
{
    proof {
        assert(0 <= v.x * v.x <= 16_000_000_000_000_000_000 && 0 <= v.y * v.y
            <= 16_000_000_000_000_000_000 && 0 <= v.z * v.z <= 16_000_000_000_000_000_000)
            by (nonlinear_arith)
            requires
                -4_000_000_000 <= v.x <= 4_000_000_000,
                -4_000_000_000 <= v.y <= 4_000_000_000,
                -4_000_000_000 <= v.z <= 4_000_000_000,
        ;
    }
    let xx: i128 = (v.x as i128) * (v.x as i128);
    let yy: i128 = (v.y as i128) * (v.y as i128);
    let zz: i128 = (v.z as i128) * (v.z as i128);
    (xx + yy + zz) as u128
}

/// Floor distance from `a` to `b` in millimetres; it fits comfortably in `i64`.
pub fn distance_mm(a: &Vec3, b: &Vec3) -> (r: i64)
    requires
        in_bounds(*a),
        in_bounds(*b),
    ensures
        r as int == dist_floor(*a, *b),
        0 <= r <= 4 * COORD_BOUND,
{
    let d = delta(a, b);
    let n = norm_sq_exec(&d);
    let s = isqrt(n);
    proof {
        lemma_sqrt_floor(n as int);
        let bound: int = 4 * COORD_BOUND as int;
        assert((n as int) < bound * bound) by (nonlinear_arith)
            requires
                n as int == norm_sq(d),
                -2 * COORD_BOUND <= d.x <= 2 * COORD_BOUND,
                -2 * COORD_BOUND <= d.y <= 2 * COORD_BOUND,
                -2 * COORD_BOUND <= d.z <= 2 * COORD_BOUND,
                bound == 4 * COORD_BOUND as int,
        ;
        lemma_sqrt_floor_lt(n as int, bound);
    }
    s as i64
}

/// Ceiling distance from `a` to `b` in millimetres.
pub fn distance_ceil_mm(a: &Vec3, b: &Vec3) -> (r: i64)
    requires
        in_bounds(*a),
        in_bounds(*b),
    ensures
        r as int == dist_ceil(*a, *b),
        0 <= r <= 4 * COORD_BOUND + 1,
{
    let d = delta(a, b);
    let n = norm_sq_exec(&d);
    let fl = distance_mm(a, b);
    proof {
        let b4: int = 4 * COORD_BOUND as int;
        assert(0 <= fl * fl < MAX_SQRT_ARG) by (nonlinear_arith)
            requires
                0 <= fl as int <= b4,
                b4 == 4 * COORD_BOUND as int,
        ;
        lemma_sqrt_floor(n as int);
    }
    if (fl as u128) * (fl as u128) == n {
        fl
    } else {
        fl + 1
    }
}

/// Absolute value of an integer.
pub open spec fn abs_i(c: int) -> int {
    if c >= 0 {
        c
    } else {
        -c
    }
}

/// One component of a scaled direction: `|c| * DIR_SCALE^2 / d2`, re-signed.
pub open spec fn dir_comp(c: int, d2: int) -> int {
    let q = abs_i(c) * (DIR_SCALE * DIR_SCALE) / d2;
    if c >= 0 {
        q
    } else {
        -q
    }
}

/// The scaled denominator used to normalize `v`: the floor of
/// `DIR_SCALE` times the norm of `v`.
pub open spec fn dir_denom(v: Vec3) -> int {
    sqrt_floor(norm_sq(v) * (DIR_SCALE * DIR_SCALE))
}

/// The scaled direction of a nonzero vector `v`: `v` divided by its norm and
/// scaled by `DIR_SCALE`, each component rounded toward zero.
pub open spec fn dir_spec(v: Vec3) -> Vec3 {
    let d2 = dir_denom(v);
    Vec3 {
        x: dir_comp(v.x as int, d2) as i64,
        y: dir_comp(v.y as int, d2) as i64,
        z: dir_comp(v.z as int, d2) as i64,
    }
}

/// A well-formed direction: each component at most `DIR_SCALE` in magnitude,
/// and a norm within `DIR_TOL` of `DIR_SCALE`.
pub open spec fn wf_dir(r: Vec3) -> bool {
    &&& -DIR_SCALE <= r.x <= DIR_SCALE
    &&& -DIR_SCALE <= r.y <= DIR_SCALE
    &&& -DIR_SCALE <= r.z <= DIR_SCALE
    &&& (DIR_SCALE - DIR_TOL) * (DIR_SCALE - DIR_TOL) <= norm_sq(r)
    &&& norm_sq(r) <= (DIR_SCALE + DIR_TOL) * (DIR_SCALE + DIR_TOL)
}

/// Bounds of Euclidean division for a nonnegative dividend.
pub proof fn lemma_div_bounds(a: int, d: int)
    requires
        a >= 0,
        d > 0,
    ensures
        0 <= a / d,
        (a / d) * d <= a,
        a < (a / d + 1) * d,
{
    vstd::arithmetic::div_mod::lemma_fundamental_div_mod(a, d);
    vstd::arithmetic::div_mod::lemma_mod_division_less_than_divisor(a, d);
    vstd::arithmetic::div_mod::lemma_div_pos_is_pos(a, d);
    assert(d * (a / d) == (a / d) * d) by (nonlinear_arith);
    assert((a / d + 1) * d == (a / d) * d + d) by (nonlinear_arith);
}

/// One scaled-direction component before re-signing: `q = a * 65536^2 / d2`
/// is between 0 and `DIR_SCALE`, and `q^2 * d2^2` approximates `(a * ss)^2`.
proof fn lemma_dir_comp_bounds(a: int, s: int, d2: int)
    requires
        0 <= a <= s,
        1 <= s,
        s * 65536 <= d2,
    ensures
        0 <= a * 4294967296 / d2 <= 65536,
        (a * 4294967296 / d2) * (a * 4294967296 / d2) * (d2 * d2) <= (a * 4294967296) * (a
            * 4294967296),
        (a * 4294967296 / d2) * (a * 4294967296 / d2) * (d2 * d2) >= (a * 4294967296) * (a
            * 4294967296) - 2 * (a * 4294967296) * d2,
{
    assert(65536 <= s * 65536) by (nonlinear_arith)
        requires
            1 <= s,
    ;
    let w = a * 4294967296;
    assert(0 <= w && w <= s * 4294967296) by (nonlinear_arith)
        requires
            w == a * 4294967296,
            0 <= a <= s,
    ;
    lemma_div_bounds(w, d2);
    let q = w / d2;
    assert(s * 4294967296 <= d2 * 65536) by (nonlinear_arith)
        requires
            s * 65536 <= d2,
    ;
    assert(q <= 65536) by (nonlinear_arith)
        requires
            q * d2 <= w,
            w <= d2 * 65536,
            d2 > 0,
    ;
    assert(q * q * (d2 * d2) <= w * w) by (nonlinear_arith)
        requires
            0 <= q,
            0 <= q * d2 <= w,
    ;
    if w >= d2 {
        assert(q * q * (d2 * d2) >= w * w - 2 * w * d2) by (nonlinear_arith)
            requires
                w < (q + 1) * d2,
                w >= d2,
                d2 > 0,
                q >= 0,
        ;
    } else {
        assert(q * q * (d2 * d2) >= w * w - 2 * w * d2) by (nonlinear_arith)
            requires
                0 <= w < d2,
                q >= 0,
                d2 > 0,
        ;
    }
}

/// The scaled direction of a nonzero vector is well formed: its components
/// stay within `DIR_SCALE` and its norm within `DIR_TOL` of `DIR_SCALE`.
#[verifier::rlimit(50)]
pub proof fn lemma_dir_spec_wf(v: Vec3)
    requires
        norm_sq(v) >= 1,
        -4 * COORD_BOUND <= v.x <= 4 * COORD_BOUND,
        -4 * COORD_BOUND <= v.y <= 4 * COORD_BOUND,
        -4 * COORD_BOUND <= v.z <= 4 * COORD_BOUND,
    ensures
        wf_dir(dir_spec(v)),
        dir_denom(v) >= DIR_SCALE,
        0 <= abs_i(v.x as int) * 4294967296 / dir_denom(v) <= 65536,
        0 <= abs_i(v.y as int) * 4294967296 / dir_denom(v) <= 65536,
        0 <= abs_i(v.z as int) * 4294967296 / dir_denom(v) <= 65536,
{
    let n = norm_sq(v);
    let d2 = sqrt_floor(n * 4294967296);
    let s = sqrt_floor(n);
    lemma_sqrt_floor(n);
    assert(n * 4294967296 >= 4294967296) by (nonlinear_arith)
        requires
            n >= 1,
    ;
    lemma_sqrt_floor(n * 4294967296);
    lemma_sqrt_floor_ge(n, 1);
    // s * 65536 <= d2 < (s + 1) * 65536
    assert((s * 65536) * (s * 65536) <= n * 4294967296) by (nonlinear_arith)
        requires
            s * s <= n,
            s >= 1,
    ;
    assert(s * 65536 >= 65536) by (nonlinear_arith)
        requires
            s >= 1,
    ;
    lemma_sqrt_floor_ge(n * 4294967296, s * 65536);
    assert(n * 4294967296 < ((s + 1) * 65536) * ((s + 1) * 65536)) by (nonlinear_arith)
        requires
            n < (s + 1) * (s + 1),
            s >= 1,
    ;
    lemma_sqrt_floor_lt(n * 4294967296, (s + 1) * 65536);
    // each |v_i| <= s
    let ax = abs_i(v.x as int);
    let ay = abs_i(v.y as int);
    let az = abs_i(v.z as int);
    assert(ax * ax <= n && ay * ay <= n && az * az <= n && ax >= 0 && ay >= 0 && az >= 0)
        by (nonlinear_arith)
        requires
            n == v.x * v.x + v.y * v.y + v.z * v.z,
            ax == v.x || ax == -v.x,
            ay == v.y || ay == -v.y,
            az == v.z || az == -v.z,
            ax >= 0,
            ay >= 0,
            az >= 0,
    ;
    assert(ax <= s && ay <= s && az <= s) by (nonlinear_arith)
        requires
            ax * ax <= n,
            ay * ay <= n,
            az * az <= n,
            n < (s + 1) * (s + 1),
            s >= 1,
            ax >= 0,
            ay >= 0,
            az >= 0,
    ;
    lemma_dir_comp_bounds(ax, s, d2);
    lemma_dir_comp_bounds(ay, s, d2);
    lemma_dir_comp_bounds(az, s, d2);
    let qx = ax * 4294967296 / d2;
    let qy = ay * 4294967296 / d2;
    let qz = az * 4294967296 / d2;
    let u = qx * qx + qy * qy + qz * qz;
    let r = dir_spec(v);
    assert(r.x == qx || r.x == -qx);
    assert(r.y == qy || r.y == -qy);
    assert(r.z == qz || r.z == -qz);
    assert(norm_sq(r) == u) by (nonlinear_arith)
        requires
            r.x == qx || r.x == -qx,
            r.y == qy || r.y == -qy,
            r.z == qz || r.z == -qz,
            u == qx * qx + qy * qy + qz * qz,
    ;
    assert(ax * ax == v.x * v.x && ay * ay == v.y * v.y && az * az == v.z * v.z)
        by (nonlinear_arith)
        requires
            ax == v.x || ax == -v.x,
            ay == v.y || ay == -v.y,
            az == v.z || az == -v.z,
    ;
    // Sum of the squared component numerators.
    assert((ax * 4294967296) * (ax * 4294967296) + (ay * 4294967296) * (ay * 4294967296) + (az
        * 4294967296) * (az * 4294967296) == 4294967296 * (n * 4294967296)) by (nonlinear_arith)
        requires
            n == ax * ax + ay * ay + az * az,
    ;
    // Upper bound.
    assert(u * (d2 * d2) <= 4294967296 * (n * 4294967296)) by (nonlinear_arith)
        requires
            qx * qx * (d2 * d2) <= (ax * 4294967296) * (ax * 4294967296),
            qy * qy * (d2 * d2) <= (ay * 4294967296) * (ay * 4294967296),
            qz * qz * (d2 * d2) <= (az * 4294967296) * (az * 4294967296),
            (ax * 4294967296) * (ax * 4294967296) + (ay * 4294967296) * (ay * 4294967296) + (az
                * 4294967296) * (az * 4294967296) == 4294967296 * (n * 4294967296),
            u == qx * qx + qy * qy + qz * qz,
    ;
    assert(4294967296 * (n * 4294967296) < 4294967296 * ((d2 + 1) * (d2 + 1))) by (nonlinear_arith)
        requires
            n * 4294967296 < (d2 + 1) * (d2 + 1),
    ;
    assert(4294967296 * ((d2 + 1) * (d2 + 1)) <= 65538 * 65538 * (d2 * d2)) by (nonlinear_arith)
        requires
            d2 >= 65536,
    ;
    assert(u <= 65538 * 65538) by (nonlinear_arith)
        requires
            u * (d2 * d2) < 65538 * 65538 * (d2 * d2),
            d2 > 0,
    ;
    // Lower bound.
    assert(u * (d2 * d2) >= 4294967296 * (n * 4294967296) - 2 * ((ax + ay + az) * 4294967296) * d2)
        by (nonlinear_arith)
        requires
            qx * qx * (d2 * d2) >= (ax * 4294967296) * (ax * 4294967296) - 2 * (ax * 4294967296)
                * d2,
            qy * qy * (d2 * d2) >= (ay * 4294967296) * (ay * 4294967296) - 2 * (ay * 4294967296)
                * d2,
            qz * qz * (d2 * d2) >= (az * 4294967296) * (az * 4294967296) - 2 * (az * 4294967296)
                * d2,
            (ax * 4294967296) * (ax * 4294967296) + (ay * 4294967296) * (ay * 4294967296) + (az
                * 4294967296) * (az * 4294967296) == 4294967296 * (n * 4294967296),
            u == qx * qx + qy * qy + qz * qz,
    ;
    assert(4294967296 * (n * 4294967296) - 2 * ((ax + ay + az) * 4294967296) * d2 >= 65528 * 65528
        * (d2 * d2)) by (nonlinear_arith)
        requires
            d2 * d2 <= n * 4294967296,
            d2 < (s + 1) * 65536,
            d2 >= 65536,
            0 <= ax + ay + az,
            ax <= s,
            ay <= s,
            az <= s,
            1 <= s,
            s * s <= n,
    ;
    assert(u >= 65528 * 65528) by (nonlinear_arith)
        requires
            u * (d2 * d2) >= 65528 * 65528 * (d2 * d2),
            d2 > 0,
    ;
}

/// Magnitude of a bounded `i64`, as `u128`.
fn abs_u128(c: i64) -> (r: u128)
    requires
        c > i64::MIN,
    ensures
        r as int == abs_i(c as int),
{
    if c < 0 {
        (-c) as u128
    } else {
        c as u128
    }
}

/// The scaled direction of a nonzero vector: `v * DIR_SCALE / |v|` with each
/// component rounded toward zero. The result is a well-formed direction.
pub fn dir_scaled(v: &Vec3) -> (r: Vec3)
    requires
        -4 * COORD_BOUND <= v.x <= 4 * COORD_BOUND,
        -4 * COORD_BOUND <= v.y <= 4 * COORD_BOUND,
        -4 * COORD_BOUND <= v.z <= 4 * COORD_BOUND,
        norm_sq(*v) >= 1,
    ensures
        r == dir_spec(*v),
        wf_dir(r),
{
    proof {
        lemma_dir_spec_wf(*v);
    }
    let n = norm_sq_exec(v);
    proof {
        assert((n as int) * 4294967296 < MAX_SQRT_ARG) by (nonlinear_arith)
            requires
                0 <= (n as int) <= 48_000_000_000_000_000_000,
                MAX_SQRT_ARG == 0x4000_0000_0000_0000_0000_0000_0000_0000,
        ;
    }
    let d2 = isqrt(n * 4294967296u128);
    let ax = abs_u128(v.x);
    let ay = abs_u128(v.y);
    let az = abs_u128(v.z);
    proof {
        assert((ax as int) * 4294967296 <= 17_500_000_000_000_000_000 && (ay as int) * 4294967296
            <= 17_500_000_000_000_000_000 && (az as int) * 4294967296
            <= 17_500_000_000_000_000_000) by (nonlinear_arith)
            requires
                0 <= (ax as int) <= 4_000_000_000,
                0 <= (ay as int) <= 4_000_000_000,
                0 <= (az as int) <= 4_000_000_000,
        ;
    }
    let qx = ax * 4294967296u128 / d2;
    let qy = ay * 4294967296u128 / d2;
    let qz = az * 4294967296u128 / d2;
    let rx: i64 = if v.x >= 0 {
        qx as i64
    } else {
        -(qx as i64)
    };
    let ry: i64 = if v.y >= 0 {
        qy as i64
    } else {
        -(qy as i64)
    };
    let rz: i64 = if v.z >= 0 {
        qz as i64
    } else {
        -(qz as i64)
    };
    Vec3 { x: rx, y: ry, z: rz }
}

/// Squared norm of a planar vector.
pub open spec fn norm_sq_2(x: int, y: int) -> int {
    x * x + y * y
}

/// A planar vector clamped to magnitude at most `l`: unchanged when already
/// within `l`, otherwise scaled by `l / (floor(|(x, y)|) + 1)`.
pub open spec fn clamp2_spec(x: int, y: int, l: int) -> (int, int) {
    if norm_sq_2(x, y) <= l * l {
        (x, y)
    } else {
        let d1 = sqrt_floor(norm_sq_2(x, y)) + 1;
        let cx = abs_i(x) * l / d1;
        let cy = abs_i(y) * l / d1;
        (if x >= 0 { cx } else { -cx }, if y >= 0 { cy } else { -cy })
    }
}

/// The clamped vector never exceeds magnitude `l`, and its components never
/// grow.
pub proof fn lemma_clamp2_bounds(x: int, y: int, l: int)
    requires
        l >= 0,
    ensures
        norm_sq_2(clamp2_spec(x, y, l).0, clamp2_spec(x, y, l).1) <= l * l,
        abs_i(clamp2_spec(x, y, l).0) <= abs_i(x),
        abs_i(clamp2_spec(x, y, l).1) <= abs_i(y),
{
    let n = norm_sq_2(x, y);
    assert(n >= 0 && x * x == abs_i(x) * abs_i(x) && y * y == abs_i(y) * abs_i(y))
        by (nonlinear_arith)
        requires
            n == x * x + y * y,
    ;
    if n <= l * l {
    } else {
        lemma_sqrt_floor(n);
        let d = sqrt_floor(n);
        let d1 = d + 1;
        // l <= d, else n <= l * l
        lemma_sqrt_floor_ge(n, l);
        if d < l {
            assert(false);
        }
        let axv = abs_i(x);
        let ayv = abs_i(y);
        assert(axv * axv <= n && ayv * ayv <= n) by (nonlinear_arith)
            requires
                n == axv * axv + ayv * ayv,
                axv * axv >= 0,
                ayv * ayv >= 0,
        ;
        lemma_div_bounds(axv * l, d1);
        lemma_div_bounds(ayv * l, d1);
        let cx = axv * l / d1;
        let cy = ayv * l / d1;
        // component shrink: cx <= axv since l <= d < d1
        assert(cx <= axv && cy <= ayv) by (nonlinear_arith)
            requires
                cx * d1 <= axv * l,
                cy * d1 <= ayv * l,
                0 <= l < d1,
                cx >= 0,
                cy >= 0,
                axv >= 0,
                ayv >= 0,
        ;
        // norm bound: (cx^2 + cy^2) d1^2 <= l^2 n < l^2 d1^2
        assert(cx * cx * (d1 * d1) <= (axv * l) * (axv * l) && cy * cy * (d1 * d1) <= (ayv * l)
            * (ayv * l)) by (nonlinear_arith)
            requires
                0 <= cx * d1 <= axv * l,
                0 <= cy * d1 <= ayv * l,
                cx >= 0,
                cy >= 0,
        ;
        assert((axv * l) * (axv * l) + (ayv * l) * (ayv * l) == n * (l * l)) by (nonlinear_arith)
            requires
                n == axv * axv + ayv * ayv,
        ;
        if l == 0 {
            assert(cx == 0 && cy == 0) by (nonlinear_arith)
                requires
                    cx * d1 <= axv * 0,
                    cy * d1 <= ayv * 0,
                    cx >= 0,
                    cy >= 0,
                    d1 > 0,
            ;
        } else {
            assert(n * (l * l) < (d1 * d1) * (l * l)) by (nonlinear_arith)
                requires
                    n < d1 * d1,
                    l > 0,
                    n >= 0,
            ;
            assert(cx * cx + cy * cy <= l * l) by (nonlinear_arith)
                requires
                    cx * cx * (d1 * d1) <= (axv * l) * (axv * l),
                    cy * cy * (d1 * d1) <= (ayv * l) * (ayv * l),
                    (axv * l) * (axv * l) + (ayv * l) * (ayv * l) == n * (l * l),
                    n * (l * l) < (d1 * d1) * (l * l),
                    d1 > 0,
            ;
        }
        assert(norm_sq_2(clamp2_spec(x, y, l).0, clamp2_spec(x, y, l).1) == cx * cx + cy * cy)
            by (nonlinear_arith)
            requires
                clamp2_spec(x, y, l).0 == cx || clamp2_spec(x, y, l).0 == -cx,
                clamp2_spec(x, y, l).1 == cy || clamp2_spec(x, y, l).1 == -cy,
        ;
    }
}

/// Clamp a planar vector to magnitude at most `l`.
pub fn clamp2(x: i64, y: i64, l: i64) -> (r: (i64, i64))
    requires
        -1_000_000 <= x <= 1_000_000,
        -1_000_000 <= y <= 1_000_000,
        0 <= l <= 1_000_000_000,
    ensures
        (r.0 as int, r.1 as int) == clamp2_spec(x as int, y as int, l as int),
        norm_sq_2(r.0 as int, r.1 as int) <= (l as int) * (l as int),
        abs_i(r.0 as int) <= abs_i(x as int),
        abs_i(r.1 as int) <= abs_i(y as int),
{
    proof {
        lemma_clamp2_bounds(x as int, y as int, l as int);
        assert(0 <= x * x <= 1_000_000_000_000 && 0 <= y * y <= 1_000_000_000_000 && 0 <= l * l
            <= 1_000_000_000_000_000_000) by (nonlinear_arith)
            requires
                -1_000_000 <= x <= 1_000_000,
                -1_000_000 <= y <= 1_000_000,
                0 <= l <= 1_000_000_000,
        ;
    }
    let n: i64 = x * x + y * y;
    if n <= l * l {
        (x, y)
    } else {
        let d = isqrt(n as u128);
        proof {
            lemma_sqrt_floor(n as int);
            lemma_sqrt_floor_lt(n as int, 2_000_000);
            assert((n as int) < 2_000_000 * 2_000_000) by (nonlinear_arith)
                requires
                    0 <= (n as int) <= 2_000_000_000_000,
            ;
        }
        let d1: i64 = (d as i64) + 1;
        let axv: i64 = if x < 0 {
            -x
        } else {
            x
        };
        let ayv: i64 = if y < 0 {
            -y
        } else {
            y
        };
        proof {
            assert(0 <= axv * l <= 1_000_000_000_000_000 && 0 <= ayv * l <= 1_000_000_000_000_000)
                by (nonlinear_arith)
                requires
                    0 <= axv <= 1_000_000,
                    0 <= ayv <= 1_000_000,
                    0 <= l <= 1_000_000_000,
            ;
            lemma_div_bounds(axv * l, d1 as int);
            lemma_div_bounds(ayv * l, d1 as int);
            assert(axv * l / (d1 as int) <= axv * l) by (nonlinear_arith)
                requires
                    (axv * l / (d1 as int)) * (d1 as int) <= axv * l,
                    axv * l / (d1 as int) >= 0,
                    (d1 as int) >= 1,
                    axv * l >= 0,
            ;
            assert(ayv * l / (d1 as int) <= ayv * l) by (nonlinear_arith)
                requires
                    (ayv * l / (d1 as int)) * (d1 as int) <= ayv * l,
                    ayv * l / (d1 as int) >= 0,
                    (d1 as int) >= 1,
                    ayv * l >= 0,
            ;
        }
        let cx: i64 = axv * l / d1;
        let cy: i64 = ayv * l / d1;
        (
            if x >= 0 {
                cx
            } else {
                -cx
            },
            if y >= 0 {
                cy
            } else {
                -cy
            },
        )
    }
}

} // verus!
