//! Exact 2D geometry primitives.
//!
//! Boundary points and motion deltas are integer vectors ([`Vec2`]); the
//! cursor position is an exact rational point kept in homogeneous form
//! ([`HPoint`], the point `(x/w, y/w)` with `w > 0`).  Side-of-line tests,
//! line intersection and distance comparisons are all computed on integers,
//! so no division ever happens and every result is exact.

use vstd::prelude::*;

verus! {

/// Magnitude bound for boundary coordinates and motion deltas, in world units.
pub const COORD_MAX: i64 = 1_000_000;

/// Magnitude bound for the numerators of a cursor position fed to the controller.
pub const POS_MAX: i128 = 2_000_000_000_000_000_000_000_000;

/// Bound for the denominator of a cursor position fed to the controller.
pub const DEN_MAX: i128 = 10_000_000_000_000;

/// A 2D vector with exact integer coordinates.
#[derive(Clone, Copy, PartialEq, Eq, Structural, Debug)]
pub struct Vec2 {
    pub x: i64,
    pub y: i64,
}

/// The mathematical value of a homogeneous point: the rational `(x/w, y/w)`.
pub ghost struct HModel {
    pub x: int,
    pub y: int,
    pub w: int,
}

/// An exact rational point stored in homogeneous form: `(x/w, y/w)` with `w > 0`.
#[derive(Clone, Copy, PartialEq, Eq, Structural, Debug)]
pub struct HPoint {
    pub x: i128,
    pub y: i128,
    pub w: i128,
}

impl HPoint {
    /// The mathematical value of this point.
    pub open spec fn m(self) -> HModel {
        HModel { x: self.x as int, y: self.y as int, w: self.w as int }
    }

    /// The homogeneous form of an integer point, with denominator one.
    pub fn from_vec2(v: Vec2) -> (r: HPoint)
        ensures
            r.x == v.x as i128,
            r.y == v.y as i128,
            r.w == 1,
    {
        HPoint { x: v.x as i128, y: v.y as i128, w: 1 }
    }
}

/// Both coordinates of `v` are within `bound`.
pub open spec fn v_in(v: Vec2, bound: int) -> bool {
    &&& -bound <= v.x as int <= bound
    &&& -bound <= v.y as int <= bound
}

/// The numerators of `p` are within `num_bound`, and its denominator is
/// positive and within `den_bound`.
pub open spec fn h_in(p: HModel, num_bound: int, den_bound: int) -> bool {
    &&& -num_bound <= p.x <= num_bound
    &&& -num_bound <= p.y <= num_bound
    &&& 0 < p.w <= den_bound
}

/// Cross product (perpendicular dot product) of two integer vectors:
/// positive when `b` is counter-clockwise from `a`.
pub open spec fn cross(a: Vec2, b: Vec2) -> int {
    (a.x as int) * (b.y as int) - (a.y as int) * (b.x as int)
}

/// Squared length of an integer vector.
pub open spec fn lensq(v: Vec2) -> int {
    (v.x as int) * (v.x as int) + (v.y as int) * (v.y as int)
}

/// Squared distance between two integer points.
pub open spec fn distsq(a: Vec2, b: Vec2) -> int {
    (a.x as int - b.x as int) * (a.x as int - b.x as int)
        + (a.y as int - b.y as int) * (a.y as int - b.y as int)
}

/// `p` translated by the integer delta `d`.
pub open spec fn translated(p: HModel, d: Vec2) -> HModel {
    HModel { x: p.x + (d.x as int) * p.w, y: p.y + (d.y as int) * p.w, w: p.w }
}

/// Numerator of the side test: with `p.w > 0` this has the sign of the
/// rational `cross((p/w) - start, between)`.  Positive means `p` lies past
/// the boundary line (on its outside).
pub open spec fn side_num(p: HModel, start: Vec2, between: Vec2) -> int {
    (p.x - (start.x as int) * p.w) * (between.y as int)
        - (p.y - (start.y as int) * p.w) * (between.x as int)
}

/// `p` lies exactly on the line through `start` directed along `between`.
pub open spec fn on_line(p: HModel, start: Vec2, between: Vec2) -> bool {
    side_num(p, start, between) == 0
}

/// The two homogeneous points denote the same rational point.
pub open spec fn same_point(a: HModel, b: HModel) -> bool {
    &&& a.x * b.w == b.x * a.w
    &&& a.y * b.w == b.y * a.w
}

/// Collinearity test: zero exactly when `q` lies on the line through the
/// rational point `p` directed along the integer vector `d` (for `d` nonzero).
pub open spec fn through_num(q: HModel, p: HModel, d: Vec2) -> int {
    (q.x * p.w - p.x * q.w) * (d.y as int) - (q.y * p.w - p.y * q.w) * (d.x as int)
}

/// `distsq(p/w, a) * w * w`: the squared distance of the rational point `p`
/// from the integer point `a`, scaled by the square of the denominator.
pub open spec fn distsq_num(p: HModel, a: Vec2) -> int {
    (p.x - (a.x as int) * p.w) * (p.x - (a.x as int) * p.w)
        + (p.y - (a.y as int) * p.w) * (p.y - (a.y as int) * p.w)
}

/// Product bound: factors within `aa` and `bb` give a product within `aa * bb`.
pub proof fn lemma_mul_bound(a: int, b: int, aa: int, bb: int)
    by (nonlinear_arith)
    requires
        -aa <= a <= aa,
        -bb <= b <= bb,
    ensures
        -(aa * bb) <= a * b <= aa * bb,
{
}

/// A product of two positives is positive.
pub proof fn lemma_mul_pos(a: int, b: int)
    by (nonlinear_arith)
    requires
        a > 0,
        b > 0,
    ensures
        a * b > 0,
{
}

impl Vec2 {
    /// Cross product of two integer vectors, exact in 128-bit arithmetic.
    pub fn cross(&self, other: &Vec2) -> (r: i128)
        requires
            v_in(*self, 4 * COORD_MAX as int),
            v_in(*other, 4 * COORD_MAX as int),
        ensures
            r as int == cross(*self, *other),
    {
        proof {
            lemma_mul_bound(self.x as int, other.y as int, 4_000_000, 4_000_000);
            lemma_mul_bound(self.y as int, other.x as int, 4_000_000, 4_000_000);
        }
        (self.x as i128) * (other.y as i128) - (self.y as i128) * (other.x as i128)
    }
}

/// Floor of the square root, defined by counting upward.
pub open spec fn sqrt_floor(n: nat) -> nat
    decreases n,
{
    if n == 0 {
        0
    } else {
        let r = sqrt_floor((n - 1) as nat);
        if (r + 1) * (r + 1) <= n {
            r + 1
        } else {
            r
        }
    }
}

/// `sqrt_floor` is the floor of the square root: its square is at most `n`,
/// and the next square is past `n`.
pub proof fn lemma_sqrt_floor(n: nat)
    ensures
        sqrt_floor(n) * sqrt_floor(n) <= n,
        n < (sqrt_floor(n) + 1) * (sqrt_floor(n) + 1),
    decreases n,
{
    let s = sqrt_floor(n);
    if n == 0 {
        assert(s == 0);
        assert(n < (s + 1) * (s + 1)) by (nonlinear_arith)
            requires
                n == 0,
                s == 0,
        ;
    } else {
        lemma_sqrt_floor((n - 1) as nat);
        let r = sqrt_floor((n - 1) as nat);
        if (r + 1) * (r + 1) <= n {
            assert(s == r + 1);
            assert(n == (r + 1) * (r + 1));
            assert(s * s <= n) by (nonlinear_arith)
                requires
                    s == r + 1,
                    n == (r + 1) * (r + 1),
            ;
            assert(n < (s + 1) * (s + 1)) by (nonlinear_arith)
                requires
                    s == r + 1,
                    n == (r + 1) * (r + 1),
            ;
        } else {
            assert(s == r);
            assert(r * r <= n);
            assert(s * s <= n) by (nonlinear_arith)
                requires
                    s == r,
                    r * r <= n,
            ;
            assert(n < (s + 1) * (s + 1)) by (nonlinear_arith)
                requires
                    s == r,
                    n < (r + 1) * (r + 1),
            ;
        }
    }
}

/// Any value whose square brackets `n` is `sqrt_floor(n)`.
pub proof fn lemma_sqrt_floor_unique(n: nat, r: nat)
    requires
        r * r <= n,
        n < (r + 1) * (r + 1),
    ensures
        r == sqrt_floor(n),
{
    lemma_sqrt_floor(n);
    let s = sqrt_floor(n);
    if r < s {
        assert((r + 1) * (r + 1) <= s * s) by (nonlinear_arith)
            requires
                r + 1 <= s,
        ;
        assert(false);
    }
    if s < r {
        assert((s + 1) * (s + 1) <= r * r) by (nonlinear_arith)
            requires
                s + 1 <= r,
        ;
        assert(false);
    }
}

/// Integer square root (floor), by counting upward; sized for squared
/// segment lengths.
pub fn isqrt(n: u64) -> (r: u64)
    requires
        n <= 8_000_000_000_000,
    ensures
        r as nat == sqrt_floor(n as nat),
        (r as nat) * (r as nat) <= n as nat,
        (n as nat) < (r as nat + 1) * (r as nat + 1),
{
    let mut r: u64 = 0;
    proof {
        assert((r as nat + 1) * (r as nat + 1) <= 0xffff_ffff_ffff_ffff) by (nonlinear_arith)
            requires
                r as nat == 0,
        ;
    }
    while (r + 1) * (r + 1) <= n
        invariant
            n <= 8_000_000_000_000,
            (r as nat) * (r as nat) <= n as nat,
            r <= 2_828_427,
            (r as nat + 1) * (r as nat + 1) <= 0xffff_ffff_ffff_ffff,
        decreases n - r,
    {
        assert(r as nat + 1 <= 2_828_427) by (nonlinear_arith)
            requires
                (r as nat + 1) * (r as nat + 1) <= 8_000_000_000_000,
        ;
        assert((r as nat + 2) * (r as nat + 2) <= 0xffff_ffff_ffff_ffff) by (nonlinear_arith)
            requires
                r as nat + 1 <= 2_828_427,
        ;
        assert(r as nat + 1 <= (r as nat + 1) * (r as nat + 1)) by (nonlinear_arith);
        r = r + 1;
    }
    proof {
        lemma_sqrt_floor_unique(n as nat, r as nat);
    }
    r
}

} // verus!

verus! {

/// Determinant of the line-intersection formula (Cramer's rule on the two
/// line equations): zero exactly when the motion line and the boundary line
/// are parallel or coincident.
pub open spec fn ix_denom(d: Vec2, between: Vec2) -> int {
    cross(d, between)
}

/// Numerator of the intersection parameter along the motion line.
pub open spec fn ix_num(p: HModel, start: Vec2, between: Vec2) -> int {
    ((start.x as int) * p.w - p.x) * (between.y as int)
        - ((start.y as int) * p.w - p.y) * (between.x as int)
}

/// The intersection of the line through `p` directed `d` with the line
/// through `start` directed `between`, before sign normalization.
pub open spec fn ix_raw(p: HModel, d: Vec2, start: Vec2, between: Vec2) -> HModel {
    let dd = ix_denom(d, between);
    let n = ix_num(p, start, between);
    HModel {
        x: p.x * dd + n * (d.x as int),
        y: p.y * dd + n * (d.y as int),
        w: p.w * dd,
    }
}

/// The intersection point, with the denominator made positive.
pub open spec fn ix_point(p: HModel, d: Vec2, start: Vec2, between: Vec2) -> HModel {
    let r = ix_raw(p, d, start, between);
    if ix_denom(d, between) > 0 {
        r
    } else {
        HModel { x: -r.x, y: -r.y, w: -r.w }
    }
}

/// Ring identity: the raw intersection point satisfies the boundary line
/// equation identically.
proof fn lemma_ix_side_ring(x: int, y: int, w: int, dx: int, dy: int, sx: int, sy: int, bx: int, by: int)
    ensures
        ({
            let dd = dx * by - dy * bx;
            let n = (sx * w - x) * by - (sy * w - y) * bx;
            ((x * dd + n * dx) - sx * (w * dd)) * by - ((y * dd + n * dy) - sy * (w * dd)) * bx == 0
        }),
{
    let dd = dx * by - dy * bx;
    let u = x - sx * w;
    let v = y - sy * w;
    let n = (sx * w - x) * by - (sy * w - y) * bx;
    assert(n == -(u * by - v * bx)) by (nonlinear_arith)
        requires
            u == x - sx * w,
            v == y - sy * w,
            n == (sx * w - x) * by - (sy * w - y) * bx,
    ;
    assert((x * dd + n * dx) - sx * (w * dd) == u * dd + n * dx) by (nonlinear_arith)
        requires
            u == x - sx * w,
    ;
    assert((y * dd + n * dy) - sy * (w * dd) == v * dd + n * dy) by (nonlinear_arith)
        requires
            v == y - sy * w,
    ;
    assert((u * dd + n * dx) * by == (u * by) * dd + n * (dx * by)) by (nonlinear_arith);
    assert((v * dd + n * dy) * bx == (v * bx) * dd + n * (dy * bx)) by (nonlinear_arith);
    assert(((u * by) * dd + n * (dx * by)) - ((v * bx) * dd + n * (dy * bx))
        == (u * by - v * bx) * dd + n * (dx * by - dy * bx)) by (nonlinear_arith);
    assert((u * by - v * bx) * dd + n * dd == 0) by (nonlinear_arith)
        requires
            n == -(u * by - v * bx),
    ;
}

/// Ring identity: the raw intersection point satisfies the motion line
/// equation identically.
proof fn lemma_ix_through_ring(x: int, y: int, w: int, dx: int, dy: int, sx: int, sy: int, bx: int, by: int)
    ensures
        ({
            let dd = dx * by - dy * bx;
            let n = (sx * w - x) * by - (sy * w - y) * bx;
            ((x * dd + n * dx) * w - x * (w * dd)) * dy - ((y * dd + n * dy) * w - y * (w * dd)) * dx == 0
        }),
{
    let dd = dx * by - dy * bx;
    let n = (sx * w - x) * by - (sy * w - y) * bx;
    assert((x * dd + n * dx) * w - x * (w * dd) == (n * dx) * w) by (nonlinear_arith);
    assert((y * dd + n * dy) * w - y * (w * dd) == (n * dy) * w) by (nonlinear_arith);
    assert(((n * dx) * w) * dy == ((n * dy) * w) * dx) by (nonlinear_arith);
}

/// Negating all three homogeneous components flips the sign of the side test.
proof fn lemma_side_neg_ring(x: int, y: int, w: int, sx: int, sy: int, bx: int, by: int)
    by (nonlinear_arith)
    ensures
        ((-x) - sx * (-w)) * by - ((-y) - sy * (-w)) * bx
            == -((x - sx * w) * by - (y - sy * w) * bx),
{
}

/// Negating all three homogeneous components flips the sign of the
/// collinearity test.
proof fn lemma_through_neg_ring(qx: int, qy: int, qw: int, x: int, y: int, w: int, dx: int, dy: int)
    by (nonlinear_arith)
    ensures
        ((-qx) * w - x * (-qw)) * dy - ((-qy) * w - y * (-qw)) * dx
            == -((qx * w - x * qw) * dy - (qy * w - y * qw) * dx),
{
}

/// The intersection point lies exactly on the boundary line.
pub proof fn lemma_ix_on_boundary_line(p: HModel, d: Vec2, start: Vec2, between: Vec2)
    ensures
        on_line(ix_point(p, d, start, between), start, between),
{
    lemma_ix_side_ring(
        p.x, p.y, p.w,
        d.x as int, d.y as int,
        start.x as int, start.y as int,
        between.x as int, between.y as int,
    );
    if !(ix_denom(d, between) > 0) {
        let r = ix_raw(p, d, start, between);
        lemma_side_neg_ring(r.x, r.y, r.w, start.x as int, start.y as int, between.x as int, between.y as int);
    }
}

/// The intersection point lies exactly on the motion line through `p`
/// directed `d`.
pub proof fn lemma_ix_on_motion_line(p: HModel, d: Vec2, start: Vec2, between: Vec2)
    ensures
        through_num(ix_point(p, d, start, between), p, d) == 0,
{
    lemma_ix_through_ring(
        p.x, p.y, p.w,
        d.x as int, d.y as int,
        start.x as int, start.y as int,
        between.x as int, between.y as int,
    );
    if !(ix_denom(d, between) > 0) {
        let r = ix_raw(p, d, start, between);
        lemma_through_neg_ring(r.x, r.y, r.w, p.x, p.y, p.w, d.x as int, d.y as int);
    }
}

/// The point translated by an integer delta, exactly.
pub fn translate_point(p: &HPoint, d: Vec2) -> (r: HPoint)
    requires
        h_in(p.m(), POS_MAX as int, DEN_MAX as int),
        v_in(d, COORD_MAX as int),
    ensures
        r.m() == translated(p.m(), d),
        h_in(r.m(), 4_000_000_000_000_000_000_000_000, DEN_MAX as int),
        r.w == p.w,
        -10_000_000_000_000_000_000 <= r.x as int - p.x as int <= 10_000_000_000_000_000_000,
        -10_000_000_000_000_000_000 <= r.y as int - p.y as int <= 10_000_000_000_000_000_000,
{
    proof {
        lemma_mul_bound(d.x as int, p.w as int, 1_000_000, DEN_MAX as int);
        lemma_mul_bound(d.y as int, p.w as int, 1_000_000, DEN_MAX as int);
    }
    HPoint { x: p.x + (d.x as i128) * p.w, y: p.y + (d.y as i128) * p.w, w: p.w }
}

/// The sign-bearing numerator of the side test, exactly.
pub fn side_val(p: &HPoint, start: Vec2, between: Vec2) -> (r: i128)
    requires
        h_in(
            p.m(),
            10_000_000_000_000_000_000_000_000_000_000,
            10_000_000_000_000_000_000_000_000,
        ),
        v_in(start, COORD_MAX as int),
        v_in(between, 2 * COORD_MAX as int),
    ensures
        r as int == side_num(p.m(), start, between),
{
    proof {
        lemma_mul_bound(start.x as int, p.w as int, 1_000_000, 10_000_000_000_000_000_000_000_000);
        lemma_mul_bound(start.y as int, p.w as int, 1_000_000, 10_000_000_000_000_000_000_000_000);
    }
    let ux: i128 = p.x - (start.x as i128) * p.w;
    let uy: i128 = p.y - (start.y as i128) * p.w;
    proof {
        lemma_mul_bound(ux as int, between.y as int, 20_000_000_000_000_000_000_000_000_000_000, 2_000_000);
        lemma_mul_bound(uy as int, between.x as int, 20_000_000_000_000_000_000_000_000_000_000, 2_000_000);
    }
    ux * (between.y as i128) - uy * (between.x as i128)
}

/// Line-line intersection by Cramer's rule, with the division avoided by
/// returning a homogeneous point.  `None` exactly when the determinant is
/// zero, that is, when the two lines are parallel or coincident.
pub fn intersect(p: &HPoint, d: Vec2, start: Vec2, between: Vec2) -> (r: Option<HPoint>)
    requires
        h_in(p.m(), POS_MAX as int, DEN_MAX as int),
        v_in(d, COORD_MAX as int),
        v_in(start, COORD_MAX as int),
        v_in(between, 2 * COORD_MAX as int),
    ensures
        (r is Some) <==> ix_denom(d, between) != 0,
        r is Some ==> r.unwrap().m() == ix_point(p.m(), d, start, between),
        r is Some ==> r.unwrap().w > 0,
{
    let dx = d.x as i128;
    let dy = d.y as i128;
    let bx = between.x as i128;
    let by = between.y as i128;
    proof {
        lemma_mul_bound(d.x as int, between.y as int, 1_000_000, 2_000_000);
        lemma_mul_bound(d.y as int, between.x as int, 1_000_000, 2_000_000);
    }
    let dd: i128 = dx * by - dy * bx;
    if dd == 0 {
        return Option::None;
    }
    proof {
        lemma_mul_bound(start.x as int, p.w as int, 1_000_000, DEN_MAX as int);
        lemma_mul_bound(start.y as int, p.w as int, 1_000_000, DEN_MAX as int);
    }
    let nx: i128 = (start.x as i128) * p.w - p.x;
    let ny: i128 = (start.y as i128) * p.w - p.y;
    proof {
        lemma_mul_bound(nx as int, between.y as int, 4_000_000_000_000_000_000_000_000, 2_000_000);
        lemma_mul_bound(ny as int, between.x as int, 4_000_000_000_000_000_000_000_000, 2_000_000);
    }
    let n: i128 = nx * by - ny * bx;
    proof {
        lemma_mul_bound(p.x as int, dd as int, POS_MAX as int, 4_000_000_000_000);
        lemma_mul_bound(p.y as int, dd as int, POS_MAX as int, 4_000_000_000_000);
        lemma_mul_bound(n as int, d.x as int, 16_000_000_000_000_000_000_000_000_000_000, 1_000_000);
        lemma_mul_bound(n as int, d.y as int, 16_000_000_000_000_000_000_000_000_000_000, 1_000_000);
        lemma_mul_bound(p.w as int, dd as int, DEN_MAX as int, 4_000_000_000_000);
    }
    let rx: i128 = p.x * dd + n * dx;
    let ry: i128 = p.y * dd + n * dy;
    let rw: i128 = p.w * dd;
    if dd > 0 {
        proof {
            lemma_mul_pos(p.w as int, dd as int);
        }
        Option::Some(HPoint { x: rx, y: ry, w: rw })
    } else {
        proof {
            assert((p.w as int) * (-(dd as int)) == -((p.w as int) * (dd as int))) by (nonlinear_arith);
            lemma_mul_pos(p.w as int, -(dd as int));
        }
        Option::Some(HPoint { x: -rx, y: -ry, w: -rw })
    }
}

} // verus!

verus! {

/// Division rounded to the nearest integer (ties rounded upward), for a
/// positive divisor.
pub open spec fn rdiv(a: int, b: int) -> int {
    (2 * a + b) / (2 * b)
}

/// `rdiv` rounds to the nearest integer: the result times the divisor is
/// within half a divisor of the dividend.
pub proof fn lemma_rdiv_rounds(a: int, b: int)
    requires
        b > 0,
    ensures
        -b < 2 * (rdiv(a, b) * b - a) <= b,
{
    let n = 2 * a + b;
    let d = 2 * b;
    vstd::arithmetic::div_mod::lemma_fundamental_div_mod(n, d);
    vstd::arithmetic::div_mod::lemma_mod_bound(n, d);
    let q = n / d;
    assert(d * q == 2 * (q * b)) by (nonlinear_arith)
        requires
            d == 2 * b,
    ;
}

/// Nearest-integer division (ties rounded upward), exactly [`rdiv`].
pub fn rdiv_i(a: i128, b: i128) -> (q: i128)
    requires
        -50_000_000_000_000_000_000_000_000_000_000_000_000 <= a
            <= 50_000_000_000_000_000_000_000_000_000_000_000_000,
        0 < b <= 100_000_000_000_000_000_000_000_000,
    ensures
        q as int == rdiv(a as int, b as int),
        -60_000_000_000_000_000_000_000_000_000_000_000_000 <= q
            <= 60_000_000_000_000_000_000_000_000_000_000_000_000,
{
    let num: i128 = 2 * a + b;
    let den: i128 = 2 * b;
    let r: i128 = if num >= 0 {
        let qu: u128 = (num as u128) / (den as u128);
        proof {
            vstd::arithmetic::div_mod::lemma_mod_bound(num as int, den as int);
            vstd::arithmetic::div_mod::lemma_fundamental_div_mod(num as int, den as int);
            assert((num as int) / (den as int) >= 0 && (num as int) / (den as int) <= num as int)
                by (nonlinear_arith)
                requires
                    num as int >= 0,
                    den as int >= 2,
                    num as int == (den as int) * ((num as int) / (den as int)) + (num as int) % (
                    den as int),
                    0 <= (num as int) % (den as int) < den as int,
            ;
        }
        qu as i128
    } else {
        let m: u128 = (-num) as u128;
        let den_u: u128 = den as u128;
        let c: u128 = (m + den_u - 1) / den_u;
        proof {
            let mi = m as int;
            let di = den as int;
            vstd::arithmetic::div_mod::lemma_fundamental_div_mod(mi + di - 1, di);
            vstd::arithmetic::div_mod::lemma_mod_bound(mi + di - 1, di);
            let cc = (mi + di - 1) / di;
            let rr = (mi + di - 1) % di;
            assert(cc >= 0 && cc <= mi) by (nonlinear_arith)
                requires
                    di >= 2,
                    mi >= 1,
                    0 <= rr < di,
                    mi + di - 1 == di * cc + rr,
            ;
            assert((-cc) * di == -(di * cc)) by (nonlinear_arith);
            vstd::arithmetic::div_mod::lemma_fundamental_div_mod_converse_div(
                -mi,
                di,
                -cc,
                di - 1 - rr,
            );
        }
        -(c as i128)
    };
    proof {
        lemma_rdiv_rounds(a as int, b as int);
        let qq = rdiv(a as int, b as int);
        if qq >= 0 {
            assert(qq <= a as int + b as int) by (nonlinear_arith)
                requires
                    qq >= 0,
                    b as int >= 1,
                    2 * (qq * (b as int) - a as int) <= b as int,
            ;
        } else {
            assert(-qq <= -(a as int) + b as int) by (nonlinear_arith)
                requires
                    qq < 0,
                    b as int >= 1,
                    -(b as int) < 2 * (qq * (b as int) - a as int),
            ;
        }
    }
    r
}

} // verus!
