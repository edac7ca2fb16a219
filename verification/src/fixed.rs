//! Fixed-point plane geometry.
//!
//! Every quantity of the simulation is an integer. Lengths and positions count
//! thousandths of a world unit, headings and steering directions are vectors of
//! length `UNIT`, and comparisons of distances are made on exact squares, so that
//! no rounding enters a decision.

use vstd::prelude::*;
use vstd::arithmetic::div_mod::lemma_div_is_ordered;
use vstd::arithmetic::div_mod::lemma_div_multiples_vanish;
use vstd::arithmetic::div_mod::lemma_fundamental_div_mod;

verus! {

/// Length of a heading or of a steering direction.
pub const UNIT: i32 = 1_000_000;

/// Denominator of a blend factor: a weight in thousandths times a time in
/// microseconds counts billionths.
pub const BLEND_ONE: i64 = 1_000_000_000;

/// Below this magnitude in both components a vector is stretched before its
/// length is taken, so that short vectors keep their direction.
pub const STRETCH_BELOW: i64 = 0x8000_0000;

/// Factor by which a short vector is stretched.
pub const STRETCH_BY: i64 = 0x1_0000_0000;

/// A point or a vector of the plane.
#[derive(Clone, Copy, Debug, PartialEq, Eq, Structural)]
pub struct Vec2 {
    pub x: i32,
    pub y: i32,
}

impl Vec2 {
    /// Neither component exceeds `UNIT` in magnitude.
    pub open spec fn is_direction(self) -> bool {
        &&& -UNIT <= self.x <= UNIT
        &&& -UNIT <= self.y <= UNIT
    }

    /// The squared length.
    pub open spec fn norm2(self) -> nat {
        (self.x * self.x + self.y * self.y) as nat
    }

    /// The length is `UNIT` up to the rounding of `normalized`.
    pub open spec fn is_unit(self) -> bool {
        &&& self.is_direction()
        &&& (UNIT - 3) * (UNIT - 3) <= self.norm2()
        &&& self.norm2() <= (UNIT + 1) * (UNIT + 1)
    }

    /// The vector with the components given.
    pub fn new(x: i32, y: i32) -> (v: Vec2)
        ensures
            v == (Vec2 { x, y }),
    {
        Vec2 { x, y }
    }

    /// Whether the length is `UNIT` up to the rounding of `normalized`.
    pub fn has_unit_length(&self) -> (b: bool)
        ensures
            b == self.is_unit(),
    {
        if self.x < -UNIT || self.x > UNIT || self.y < -UNIT || self.y > UNIT {
            return false;
        }
        let x: i64 = self.x as i64;
        let y: i64 = self.y as i64;
        assert(0 <= x * x <= 1_000_000 * 1_000_000 && 0 <= y * y <= 1_000_000 * 1_000_000)
            by (nonlinear_arith)
            requires
                -1_000_000 <= x <= 1_000_000,
                -1_000_000 <= y <= 1_000_000,
        ;
        let n: i64 = x * x + y * y;
        assert((UNIT - 3) * (UNIT - 3) == 999_994_000_009 && (UNIT + 1) * (UNIT + 1)
            == 1_000_002_000_001) by (nonlinear_arith);
        999_994_000_009 <= n && n <= 1_000_002_000_001
    }
}

/// The absolute value.
pub open spec fn magnitude(c: int) -> nat {
    if c >= 0 {
        c as nat
    } else {
        (-c) as nat
    }
}

/// The quotient rounded toward zero, for a positive divisor.
pub open spec fn trunc_div(a: int, b: int) -> int {
    if a >= 0 {
        a / b
    } else {
        -((-a) / b)
    }
}

/// The quotient rounded toward negative infinity, for a positive divisor.
pub open spec fn floor_div(a: int, b: int) -> int {
    a / b
}

/// The quotient rounded toward positive infinity, for a positive divisor.
pub open spec fn ceil_div(a: int, b: int) -> int {
    -((-a) / b)
}

/// `v`, held to the range of a coordinate.
pub open spec fn clamped(v: int) -> int {
    if v < i32::MIN {
        i32::MIN as int
    } else if v > i32::MAX {
        i32::MAX as int
    } else {
        v
    }
}

/// `r` is the integer square root of `x`.
pub open spec fn is_floor_sqrt(r: nat, x: nat) -> bool {
    r * r <= x < (r + 1) * (r + 1)
}

/// The integer square root: the largest `r` with `r * r <= x`.
pub open spec fn floor_sqrt(x: nat) -> nat {
    choose|r: nat| is_floor_sqrt(r, x)
}

/// The squared distance between two points.
pub open spec fn dist2(a: Vec2, b: Vec2) -> nat {
    ((a.x - b.x) * (a.x - b.x) + (a.y - b.y) * (a.y - b.y)) as nat
}

/// `b` lies at distance at most `r` from `a`.
pub open spec fn within(a: Vec2, b: Vec2, r: int) -> bool {
    r >= 0 && dist2(a, b) <= r * r
}

/// `b` lies at distance at most `r / 2` from `a`.
pub open spec fn within_half(a: Vec2, b: Vec2, r: int) -> bool {
    r >= 0 && 4 * dist2(a, b) <= r * r
}

/// A vector as its length is taken: short ones are stretched first.
pub open spec fn stretched(c: int, x: int, y: int) -> int {
    if magnitude(x) < STRETCH_BELOW && magnitude(y) < STRETCH_BELOW {
        c * STRETCH_BY
    } else {
        c
    }
}

/// One component of the vector of length `UNIT` along a vector of floored
/// length `len`, rounded toward zero.
pub open spec fn unit_component(c: int, len: int) -> int {
    trunc_div(c * UNIT, len)
}

/// The vector of length `UNIT` that points along `(x, y)`; none along the zero
/// vector.
pub open spec fn normalized(x: int, y: int) -> Option<Vec2> {
    if x == 0 && y == 0 {
        None
    } else {
        let sx = stretched(x, x, y);
        let sy = stretched(y, x, y);
        let len = floor_sqrt((sx * sx + sy * sy) as nat) as int;
        Some(
            Vec2 { x: unit_component(sx, len) as i32, y: unit_component(sy, len) as i32 },
        )
    }
}

/// One component of the blend of `from` toward `to` by `t` billionths, rounded
/// toward zero.
pub open spec fn blend_component(from: int, to: int, t: int) -> int {
    from + trunc_div((to - from) * t, BLEND_ONE as int)
}

/// The heading that results from steering `heading` toward `direction` by `t`
/// billionths: the blend of the two, brought back to length `UNIT`. Where the
/// blend is the zero vector the heading stays as it was.
pub open spec fn steered(heading: Vec2, direction: Vec2, t: int) -> Vec2 {
    match normalized(
        blend_component(heading.x as int, direction.x as int, t),
        blend_component(heading.y as int, direction.y as int, t),
    ) {
        Some(v) => v,
        None => heading,
    }
}

/// A number has one integer square root only.
proof fn lemma_floor_sqrt_unique(r1: nat, r2: nat, x: nat)
    requires
        is_floor_sqrt(r1, x),
        is_floor_sqrt(r2, x),
    ensures
        r1 == r2,
{
    if r1 < r2 {
        assert((r1 + 1) * (r1 + 1) <= r2 * r2) by (nonlinear_arith)
            requires
                r1 + 1 <= r2,
        ;
    } else if r2 < r1 {
        assert((r2 + 1) * (r2 + 1) <= r1 * r1) by (nonlinear_arith)
            requires
                r2 + 1 <= r1,
        ;
    }
}

/// Whatever meets the two bounds is the integer square root.
pub proof fn lemma_floor_sqrt_is(r: nat, x: nat)
    requires
        is_floor_sqrt(r, x),
    ensures
        floor_sqrt(x) == r,
{
    lemma_floor_sqrt_unique(floor_sqrt(x), r, x);
}

/// The integer square root.
pub fn isqrt(x: u128) -> (r: u64)
    ensures
        r == floor_sqrt(x as nat),
        is_floor_sqrt(r as nat, x as nat),
{
    let mut lo: u128 = 0;
    let mut hi: u128 = 0x1_0000_0000_0000_0000;
    assert(0x1_0000_0000_0000_0000 * 0x1_0000_0000_0000_0000 > x) by (nonlinear_arith)
        requires
            x <= u128::MAX,
    ;
    while hi - lo > 1
        invariant
            lo < hi <= 0x1_0000_0000_0000_0000,
            lo * lo <= x < hi * hi,
        decreases hi - lo,
    {
        let mid: u128 = lo + (hi - lo) / 2;
        assert(mid * mid <= 0xffff_ffff_ffff_ffff * 0xffff_ffff_ffff_ffff) by (nonlinear_arith)
            requires
                0 <= mid <= 0xffff_ffff_ffff_ffff,
        ;
        if mid * mid <= x {
            lo = mid;
        } else {
            hi = mid;
        }
    }
    proof {
        lemma_floor_sqrt_is(lo as nat, x as nat);
    }
    lo as u64
}

/// The quotient of `a` by `b`, rounded toward zero.
pub fn div_toward_zero(a: i128, b: i128) -> (q: i128)
    requires
        b > 0,
        a > i128::MIN,
    ensures
        q == trunc_div(a as int, b as int),
{
    if a >= 0 {
        a / b
    } else {
        let n: i128 = -a;
        let m: i128 = n / b;
        proof {
            lemma_fundamental_div_mod(n as int, b as int);
            assert(0 <= (n as int) / (b as int) <= n) by (nonlinear_arith)
                requires
                    n >= 0,
                    b > 0,
                    n == b * ((n as int) / (b as int)) + (n as int) % (b as int),
                    0 <= (n as int) % (b as int),
            ;
        }
        -m
    }
}

/// The squared distance between two points.
pub fn distance_squared(a: Vec2, b: Vec2) -> (d: u128)
    ensures
        d == dist2(a, b),
        d <= 0x2_0000_0000_0000_0000,
{
    let dx: i128 = a.x as i128 - b.x as i128;
    let dy: i128 = a.y as i128 - b.y as i128;
    assert(0 <= dx * dx <= 0x1_0000_0000_0000_0000) by (nonlinear_arith)
        requires
            -0x1_0000_0000 <= dx <= 0x1_0000_0000,
    ;
    assert(0 <= dy * dy <= 0x1_0000_0000_0000_0000) by (nonlinear_arith)
        requires
            -0x1_0000_0000 <= dy <= 0x1_0000_0000,
    ;
    (dx * dx + dy * dy) as u128
}

/// Whether `b` lies at distance at most `r` from `a`.
pub fn is_within(a: Vec2, b: Vec2, r: i64) -> (ok: bool)
    ensures
        ok == within(a, b, r as int),
{
    if r < 0 {
        return false;
    }
    let d: u128 = distance_squared(a, b);
    let rr: u128 = r as u128;
    assert(rr * rr <= 0x8000_0000_0000_0000 * 0x8000_0000_0000_0000) by (nonlinear_arith)
        requires
            0 <= rr <= 0x8000_0000_0000_0000,
    ;
    d <= rr * rr
}

/// Whether `b` lies at distance at most `r / 2` from `a`.
pub fn is_within_half(a: Vec2, b: Vec2, r: i64) -> (ok: bool)
    ensures
        ok == within_half(a, b, r as int),
{
    if r < 0 {
        return false;
    }
    let d: u128 = distance_squared(a, b);
    let rr: u128 = r as u128;
    assert(rr * rr <= 0x8000_0000_0000_0000 * 0x8000_0000_0000_0000) by (nonlinear_arith)
        requires
            0 <= rr <= 0x8000_0000_0000_0000,
    ;
    4 * d <= rr * rr
}

/// The absolute value of a 64-bit integer.
pub fn abs_wide(c: i64) -> (m: u128)
    ensures
        m == magnitude(c as int),
        m <= 0x8000_0000_0000_0000,
{
    if c >= 0 {
        c as u128
    } else {
        (-(c as i128)) as u128
    }
}

/// The vector of length `UNIT` that points along `(x, y)`, or `None` for the
/// zero vector.
pub fn normalize(x: i64, y: i64) -> (r: Option<Vec2>)
    ensures
        r == normalized(x as int, y as int),
        r is None <==> x == 0 && y == 0,
        r matches Some(v) ==> v.is_unit(),
{
    if x == 0 && y == 0 {
        return None;
    }
    proof {
        lemma_normalized_is_unit(x as int, y as int);
    }
    let ax: u128 = abs_wide(x);
    let ay: u128 = abs_wide(y);
    let below: u128 = STRETCH_BELOW as u128;
    let by: u128 = STRETCH_BY as u128;
    let short: bool = ax < below && ay < below;
    let mx: u128 = if short {
        ax * by
    } else {
        ax
    };
    let my: u128 = if short {
        ay * by
    } else {
        ay
    };
    let ghost sx = stretched(x as int, x as int, y as int);
    let ghost sy = stretched(y as int, x as int, y as int);
    assert(mx == magnitude(sx) && my == magnitude(sy));
    assert(mx * mx == sx * sx && 0 <= mx * mx <= 0x8000_0000_0000_0000 * 0x8000_0000_0000_0000)
        by (nonlinear_arith)
        requires
            mx == sx || mx == -sx,
            0 <= mx <= 0x8000_0000_0000_0000,
    ;
    assert(my * my == sy * sy && 0 <= my * my <= 0x8000_0000_0000_0000 * 0x8000_0000_0000_0000)
        by (nonlinear_arith)
        requires
            my == sy || my == -sy,
            0 <= my <= 0x8000_0000_0000_0000,
    ;
    assert(mx * mx + my * my >= 1) by (nonlinear_arith)
        requires
            mx >= 1 || my >= 1,
            mx >= 0,
            my >= 0,
    ;
    let n: u128 = mx * mx + my * my;
    let len: u128 = isqrt(n) as u128;
    proof {
        lemma_unit_component_bound(mx as int, n as int, len as int);
        lemma_unit_component_bound(my as int, n as int, len as int);
    }
    let qx: u128 = mx * (UNIT as u128) / len;
    let qy: u128 = my * (UNIT as u128) / len;
    let rx: i32 = if x >= 0 {
        qx as i32
    } else {
        -(qx as i32)
    };
    let ry: i32 = if y >= 0 {
        qy as i32
    } else {
        -(qy as i32)
    };
    assert(rx == unit_component(sx, len as int)) by {
        assert(mx * 1_000_000 == sx * UNIT || mx * 1_000_000 == -(sx * UNIT)) by (nonlinear_arith)
            requires
                mx == sx || mx == -sx,
        ;
        assert(x >= 0 ==> sx * UNIT >= 0) by (nonlinear_arith)
            requires
                x >= 0 ==> sx >= 0,
        ;
        assert(x < 0 ==> sx * UNIT < 0 && -(sx * UNIT) == mx * 1_000_000) by (nonlinear_arith)
            requires
                x < 0 ==> sx < 0 && mx == -sx,
        ;
    }
    assert(ry == unit_component(sy, len as int)) by {
        assert(my * 1_000_000 == sy * UNIT || my * 1_000_000 == -(sy * UNIT)) by (nonlinear_arith)
            requires
                my == sy || my == -sy,
        ;
        assert(y >= 0 ==> sy * UNIT >= 0) by (nonlinear_arith)
            requires
                y >= 0 ==> sy >= 0,
        ;
        assert(y < 0 ==> sy * UNIT < 0 && -(sy * UNIT) == my * 1_000_000) by (nonlinear_arith)
            requires
                y < 0 ==> sy < 0 && my == -sy,
        ;
    }
    Some(Vec2 { x: rx, y: ry })
}

/// A component of magnitude `m` of a vector of squared length `n` and floored
/// length `len` is at most `len`, and scales to at most `UNIT`.
proof fn lemma_unit_component_bound(m: int, n: int, len: int)
    requires
        0 <= m,
        0 <= len,
        m * m <= n,
        n >= 1,
        is_floor_sqrt(len as nat, n as nat),
    ensures
        len >= 1,
        m <= len,
        0 <= (m * 1_000_000) / len <= 1_000_000,
{
    if len == 0 {
        assert((len + 1) * (len + 1) == 1) by (nonlinear_arith)
            requires
                len == 0,
        ;
    }
    if m > len {
        assert(m * m >= (len + 1) * (len + 1)) by (nonlinear_arith)
            requires
                m >= len + 1,
                len >= 0,
        ;
    }
    assert(m * 1_000_000 <= len * 1_000_000) by (nonlinear_arith)
        requires
            m <= len,
    ;
    lemma_div_is_ordered(m * 1_000_000, len * 1_000_000, len);
    lemma_div_multiples_vanish(1_000_000, len);
    vstd::arithmetic::div_mod::lemma_div_pos_is_pos(m * 1_000_000, len);
}

/// One component of the blend of `from` toward `to` by `t` billionths.
pub fn blend(from: i32, to: i32, t: i64) -> (b: i64)
    requires
        -UNIT <= from <= UNIT,
        -UNIT <= to <= UNIT,
    ensures
        b == blend_component(from as int, to as int, t as int),
{
    let d: i128 = to as i128 - from as i128;
    let tt: i128 = t as i128;
    assert(-2_000_000 * 0x8000_0000_0000_0000 <= d * tt <= 2_000_000 * 0x8000_0000_0000_0000)
        by (nonlinear_arith)
        requires
            -2_000_000 <= d <= 2_000_000,
            -0x8000_0000_0000_0000 <= tt <= 0x8000_0000_0000_0000,
    ;
    let p: i128 = d * tt;
    let q: i128 = div_toward_zero(p, BLEND_ONE as i128);
    proof {
        if p >= 0 {
            lemma_div_is_ordered(p as int, 2_000_000int * 0x8000_0000_0000_0000int, 1_000_000_000);
            vstd::arithmetic::div_mod::lemma_div_pos_is_pos(p as int, 1_000_000_000);
        } else {
            lemma_div_is_ordered(-p as int, 2_000_000int * 0x8000_0000_0000_0000int, 1_000_000_000);
            vstd::arithmetic::div_mod::lemma_div_pos_is_pos(-p as int, 1_000_000_000);
        }
    }
    (from as i128 + q) as i64
}

/// Steers `heading` toward `direction` by `t` billionths.
pub fn steer(heading: Vec2, direction: Vec2, t: i64) -> (h: Vec2)
    requires
        heading.is_direction(),
        direction.is_direction(),
    ensures
        h == steered(heading, direction, t as int),
        h.is_direction(),
        heading.is_unit() ==> h.is_unit(),
{
    let bx: i64 = blend(heading.x, direction.x, t);
    let by: i64 = blend(heading.y, direction.y, t);
    match normalize(bx, by) {
        Some(v) => v,
        None => heading,
    }
}

/// The square of a product is the product of the squares, and squaring keeps
/// the order of what is not negative.
proof fn lemma_square_bounds(q: int, len: int, m: int)
    requires
        0 <= q,
        0 < len,
        0 <= m,
        q * len <= m * 1_000_000,
        m * 1_000_000 < (q + 1) * len,
    ensures
        (q * q) * (len * len) <= (1_000_000 * 1_000_000) * (m * m),
        (1_000_000 * 1_000_000) * (m * m) < ((q + 1) * (q + 1)) * (len * len),
{
    let a = q * len;
    let b = m * 1_000_000;
    let c = (q + 1) * len;
    assert(0 <= a) by (nonlinear_arith)
        requires
            0 <= q,
            0 < len,
            a == q * len,
    ;
    assert(a * a <= b * b) by (nonlinear_arith)
        requires
            0 <= a <= b,
    ;
    assert(b * b < c * c) by (nonlinear_arith)
        requires
            0 <= b < c,
    ;
    assert(a * a == (q * q) * (len * len)) by (nonlinear_arith)
        requires
            a == q * len,
    ;
    assert(b * b == (1_000_000 * 1_000_000) * (m * m)) by (nonlinear_arith)
        requires
            b == m * 1_000_000,
    ;
    assert(c * c == ((q + 1) * (q + 1)) * (len * len)) by (nonlinear_arith)
        requires
            c == (q + 1) * len,
    ;
}

/// The rounded components of a vector of floored length `len`, brought to
/// length `UNIT`, have a squared length between those of `UNIT - 3` and
/// `UNIT + 1`.
proof fn lemma_rounded_length(mx: int, my: int, len: int, qx: int, qy: int)
    requires
        0 <= mx,
        0 <= my,
        1_000_000 <= len,
        len * len <= mx * mx + my * my,
        mx * mx + my * my < (len + 1) * (len + 1),
        qx == (mx * 1_000_000) / len,
        qy == (my * 1_000_000) / len,
        0 <= qx <= 1_000_000,
        0 <= qy <= 1_000_000,
    ensures
        999_997 * 999_997 <= qx * qx + qy * qy <= 1_000_001 * 1_000_001,
{
    lemma_fundamental_div_mod(mx * 1_000_000, len);
    lemma_fundamental_div_mod(my * 1_000_000, len);
    assert(qx * len <= mx * 1_000_000 < (qx + 1) * len) by (nonlinear_arith)
        requires
            mx * 1_000_000 == len * qx + (mx * 1_000_000) % len,
            0 <= (mx * 1_000_000) % len < len,
    ;
    assert(qy * len <= my * 1_000_000 < (qy + 1) * len) by (nonlinear_arith)
        requires
            my * 1_000_000 == len * qy + (my * 1_000_000) % len,
            0 <= (my * 1_000_000) % len < len,
    ;
    lemma_square_bounds(qx, len, mx);
    lemma_square_bounds(qy, len, my);
    let s = qx * qx + qy * qy;
    let t = (qx + 1) * (qx + 1) + (qy + 1) * (qy + 1);
    let n = mx * mx + my * my;
    let ll = len * len;
    let uu = 1_000_000int * 1_000_000int;
    assert(s * ll <= uu * n) by (nonlinear_arith)
        requires
            (qx * qx) * ll <= uu * (mx * mx),
            (qy * qy) * ll <= uu * (my * my),
            s == qx * qx + qy * qy,
            n == mx * mx + my * my,
    ;
    assert(uu * n < t * ll) by (nonlinear_arith)
        requires
            uu * (mx * mx) < ((qx + 1) * (qx + 1)) * ll,
            uu * (my * my) < ((qy + 1) * (qy + 1)) * ll,
            t == (qx + 1) * (qx + 1) + (qy + 1) * (qy + 1),
            n == mx * mx + my * my,
    ;
    assert(ll >= 1) by (nonlinear_arith)
        requires
            len >= 1,
            ll == len * len,
    ;
    // Were s larger, s * ll would reach the square of UNIT * (len + 1).
    if s > 1_000_001 * 1_000_001 {
        assert(uu * n < uu * ((len + 1) * (len + 1))) by (nonlinear_arith)
            requires
                n < (len + 1) * (len + 1),
                uu == 1_000_000int * 1_000_000int,
        ;
        assert(uu * ((len + 1) * (len + 1)) <= (1_000_001 * 1_000_001) * ll) by (nonlinear_arith)
            requires
                1_000_000 <= len,
                ll == len * len,
                uu == 1_000_000int * 1_000_000int,
        ;
        assert((1_000_001 * 1_000_001) * ll <= s * ll) by (nonlinear_arith)
            requires
                s > 1_000_001 * 1_000_001,
                ll >= 1,
        ;
    }
    // t exceeds the square of UNIT, and t is s and a little more.
    if t <= uu {
        assert(t * ll <= uu * ll) by (nonlinear_arith)
            requires
                t <= uu,
                ll >= 1,
        ;
        assert(uu * ll <= uu * n) by (nonlinear_arith)
            requires
                ll <= n,
                uu == 1_000_000int * 1_000_000int,
        ;
    }
    assert(t == s + 2 * qx + 2 * qy + 2) by (nonlinear_arith)
        requires
            s == qx * qx + qy * qy,
            t == (qx + 1) * (qx + 1) + (qy + 1) * (qy + 1),
    ;
}

/// Every vector that `normalized` gives has length `UNIT` up to rounding.
pub proof fn lemma_normalized_is_unit(x: int, y: int)
    requires
        x != 0 || y != 0,
        i64::MIN <= x <= i64::MAX,
        i64::MIN <= y <= i64::MAX,
    ensures
        normalized(x, y) is Some,
        normalized(x, y).unwrap().is_unit(),
{
    let sx = stretched(x, x, y);
    let sy = stretched(y, x, y);
    let mx = magnitude(sx) as int;
    let my = magnitude(sy) as int;
    assert(mx * mx == sx * sx && my * my == sy * sy) by (nonlinear_arith)
        requires
            mx == sx || mx == -sx,
            my == sy || my == -sy,
    ;
    assert(mx * mx >= 0 && my * my >= 0) by (nonlinear_arith);
    let n = mx * mx + my * my;
    assert(mx >= 0x8000_0000 || my >= 0x8000_0000);
    assert(n >= 0x8000_0000 * 0x8000_0000) by (nonlinear_arith)
        requires
            mx >= 0x8000_0000 || my >= 0x8000_0000,
            mx >= 0,
            my >= 0,
            n == mx * mx + my * my,
    ;
    lemma_floor_sqrt_exists(n as nat);
    let len = floor_sqrt(n as nat) as int;
    assert(is_floor_sqrt(len as nat, n as nat));
    if len < 0x8000_0000 {
        assert((len + 1) * (len + 1) <= 0x8000_0000 * 0x8000_0000) by (nonlinear_arith)
            requires
                0 <= len < 0x8000_0000,
        ;
    }
    lemma_unit_component_bound(mx, n, len);
    lemma_unit_component_bound(my, n, len);
    let qx = (mx * 1_000_000) / len;
    let qy = (my * 1_000_000) / len;
    lemma_rounded_length(mx, my, len, qx, qy);
    let v = normalized(x, y).unwrap();
    assert(sx * UNIT == mx * 1_000_000 || -(sx * UNIT) == mx * 1_000_000) by (nonlinear_arith)
        requires
            mx == sx || mx == -sx,
    ;
    assert(sy * UNIT == my * 1_000_000 || -(sy * UNIT) == my * 1_000_000) by (nonlinear_arith)
        requires
            my == sy || my == -sy,
    ;
    assert(sx >= 0 ==> sx * UNIT >= 0) by (nonlinear_arith);
    assert(sx < 0 ==> sx * UNIT < 0) by (nonlinear_arith);
    assert(sy >= 0 ==> sy * UNIT >= 0) by (nonlinear_arith);
    assert(sy < 0 ==> sy * UNIT < 0) by (nonlinear_arith);
    assert(v.x == qx || v.x == -qx);
    assert(v.y == qy || v.y == -qy);
    assert(v.x * v.x == qx * qx && v.y * v.y == qy * qy) by (nonlinear_arith)
        requires
            v.x == qx || v.x == -qx,
            v.y == qy || v.y == -qy,
    ;
}

/// Every number has an integer square root.
pub proof fn lemma_floor_sqrt_exists(x: nat)
    ensures
        is_floor_sqrt(floor_sqrt(x), x),
    decreases x,
{
    if x == 0 {
        assert(is_floor_sqrt(0, 0)) by (nonlinear_arith);
    } else {
        lemma_floor_sqrt_exists((x - 1) as nat);
        let r = floor_sqrt((x - 1) as nat);
        if (r + 1) * (r + 1) <= x {
            assert((r + 1) * (r + 1) == x);
            assert(x < (r + 2) * (r + 2)) by (nonlinear_arith)
                requires
                    (r + 1) * (r + 1) == x,
            ;
            assert(is_floor_sqrt(r + 1, x));
        } else {
            assert(is_floor_sqrt(r, x));
        }
    }
}

/// Above this magnitude in either component a vector is too long for the
/// arithmetic of `normalized` and is shortened first.
pub const SHORTEN_FROM: i128 = 0x8000_0000_0000_0000;

/// Divisor by which a vector that is too long is shortened.
pub const SHORTEN_BY: i128 = 0x4_0000_0000;

/// A component of a vector as it is brought to length `UNIT`: a vector that is
/// too long for the arithmetic is shortened first, each component rounded
/// toward zero.
pub open spec fn shortened(c: int, x: int, y: int) -> int {
    if magnitude(x) < SHORTEN_FROM && magnitude(y) < SHORTEN_FROM {
        c
    } else {
        trunc_div(c, SHORTEN_BY as int)
    }
}

/// The vector of length `UNIT` that points along `(x, y)`, of whatever length
/// that is; none along the zero vector.
pub open spec fn normalized_wide(x: int, y: int) -> Option<Vec2> {
    normalized(shortened(x, x, y), shortened(y, x, y))
}

/// The vector of length `UNIT` that points along `(x, y)`, or `None` for the
/// zero vector.
pub fn normalize_wide(x: i128, y: i128) -> (r: Option<Vec2>)
    requires
        -0x1_0000_0000_0000_0000_0000_0000 <= x <= 0x1_0000_0000_0000_0000_0000_0000,
        -0x1_0000_0000_0000_0000_0000_0000 <= y <= 0x1_0000_0000_0000_0000_0000_0000,
    ensures
        r == normalized_wide(x as int, y as int),
        r is None <==> x == 0 && y == 0,
        r matches Some(v) ==> v.is_unit(),
{
    let fits: bool = -SHORTEN_FROM < x && x < SHORTEN_FROM && -SHORTEN_FROM < y && y < SHORTEN_FROM;
    if fits {
        normalize(x as i64, y as i64)
    } else {
        let sx: i128 = div_toward_zero(x, SHORTEN_BY);
        let sy: i128 = div_toward_zero(y, SHORTEN_BY);
        proof {
            lemma_shortened_bounds(x as int);
            lemma_shortened_bounds(y as int);
        }
        normalize(sx as i64, sy as i64)
    }
}

/// A shortened component fits the arithmetic, and what was too long stays away
/// from zero.
proof fn lemma_shortened_bounds(c: int)
    requires
        -0x1_0000_0000_0000_0000_0000_0000 <= c <= 0x1_0000_0000_0000_0000_0000_0000,
    ensures
        -0x4000_0000_0000_0000 <= trunc_div(c, SHORTEN_BY as int) <= 0x4000_0000_0000_0000,
        magnitude(c) >= SHORTEN_FROM ==> trunc_div(c, SHORTEN_BY as int) != 0,
{
}

} // verus!
