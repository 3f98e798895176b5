//! The cursor controller: a two-state machine over the boundary model.
//!
//! In `Free` mode the cursor follows each delta until the moved position
//! would pass a boundary segment; it then snaps onto the crossing point of
//! the motion line with that segment's line, switches to `Sliding(id)` and
//! reports the crossing.  In `Sliding(id)` mode deltas are carried along the
//! segment's direction and clamped to its endpoints, until a delta whose
//! unconstrained target is back on the inside releases the cursor.
//!
//! While sliding, the position is held on the segment's grid: the points
//! `start + (k / l) * between` for integer `k`, where `l` is the integer
//! square root of the squared segment length (so one grid step is about one
//! world unit).  The snap rounds the exact crossing point to the nearest
//! grid point — within half a grid step, and exactly on the segment's line —
//! and every later sliding step moves and clamps `k` exactly.  The stored
//! denominator therefore never grows while the cursor slides, and every
//! position `update` commits stays inside `update`'s own input bounds.

use vstd::prelude::*;

use crate::boundary::Segment;
use crate::boundary::seg_wf;
use crate::boundary::segs_wf;
use crate::geometry::COORD_MAX;
use crate::geometry::DEN_MAX;
use crate::geometry::HModel;
use crate::geometry::HPoint;
use crate::geometry::POS_MAX;
use crate::geometry::Vec2;
use crate::geometry::cross;
use crate::geometry::distsq;
use crate::geometry::distsq_num;
use crate::geometry::h_in;
use crate::geometry::isqrt;
use crate::geometry::lemma_mul_bound;
use crate::geometry::lemma_mul_pos;
use crate::geometry::lemma_rdiv_rounds;
use crate::geometry::lemma_sqrt_floor;
use crate::geometry::lensq;
use crate::geometry::on_line;
use crate::geometry::rdiv;
use crate::geometry::rdiv_i;
use crate::geometry::same_point;
use crate::geometry::side_num;
use crate::geometry::side_val;
use crate::geometry::sqrt_floor;
use crate::geometry::translate_point;
use crate::geometry::translated;
use crate::geometry::v_in;

verus! {

/// The controller's mode: free motion, or sliding along one segment.
#[derive(Clone, Copy, PartialEq, Eq, Structural, Debug)]
pub enum CursorState {
    Free,
    Sliding(usize),
}

/// Crossing parameters beyond this many grid steps from the segment's start
/// are treated as a degenerate frame: a near-parallel motion line meets the
/// boundary line unusably far away (millions of segment lengths), and the
/// frame is dropped like the exactly-parallel case.
pub const SNAP_CAP: i128 = 1_000_000_000_000;

/// The signed component of `d` along the canonical axis most aligned with
/// `between`: the dominant axis is chosen by comparing the direction's
/// coordinate magnitudes, and carries the sign of the dominant coordinate.
pub open spec fn axis_component(d: Vec2, between: Vec2) -> int {
    let ax = if (between.x as int) < 0 { -(between.x as int) } else { between.x as int };
    let ay = if (between.y as int) < 0 { -(between.y as int) } else { between.y as int };
    if ax < ay {
        if (between.y as int) < 0 { -(d.y as int) } else { d.y as int }
    } else {
        if (between.x as int) < 0 { -(d.x as int) } else { d.x as int }
    }
}

/// The segment's length rounded down to an integer: the denominator of the
/// sliding grid, so that one grid step spans roughly one world unit.
pub open spec fn len_floor(between: Vec2) -> int {
    sqrt_floor(lensq(between) as nat) as int
}

/// The point `k` grid steps along the segment from its start:
/// `start + (k / len_floor) * between`, in homogeneous form with the fixed
/// denominator `len_floor(between)`.
pub open spec fn kform(sg: Segment, k: int) -> HModel {
    let l = len_floor(sg.between);
    HModel {
        x: (sg.start.x as int) * l + k * (sg.between.x as int),
        y: (sg.start.y as int) * l + k * (sg.between.y as int),
        w: l,
    }
}

/// The crossing parameter of the motion line through `pos` directed `d`
/// with the segment's line, in grid steps from the segment's start, rounded
/// to the nearest grid point.  The exact parameter is `a / (pos.w * dd)`
/// segment lengths; scaling by `len_floor` converts to grid steps before the
/// single rounding.
pub open spec fn snap_k(pos: HModel, d: Vec2, sg: Segment) -> int {
    let dd = cross(d, sg.between);
    let a = ((sg.start.x as int) * pos.w - pos.x) * (d.y as int) - ((sg.start.y as int) * pos.w
        - pos.y) * (d.x as int);
    let l = len_floor(sg.between);
    if dd > 0 {
        rdiv(a * l, pos.w * dd)
    } else {
        rdiv((-a) * l, pos.w * (-dd))
    }
}

/// The grid parameter of a sliding position, recovered by rounding the
/// projection onto the segment; on grid positions the rounding is exact.
pub open spec fn recover_k(p: HModel, sg: Segment) -> int {
    rdiv(proj_m(p, sg) * len_floor(sg.between), p.w * lensq(sg.between))
}

/// The moved position lies farther from the segment's start than the
/// segment's own length.
pub open spec fn past_far(t: HModel, sg: Segment) -> bool {
    distsq(sg.start, sg.end) * t.w * t.w < distsq_num(t, sg.start)
}

/// The moved position lies farther from the segment's end than the
/// segment's own length.
pub open spec fn past_near(t: HModel, sg: Segment) -> bool {
    distsq(sg.start, sg.end) * t.w * t.w < distsq_num(t, sg.end)
}

/// Endpoint clamping: overshoot past the far endpoint lands on `end`,
/// otherwise overshoot past the near endpoint lands on `start`, otherwise
/// the moved position stands.  The endpoints are committed as their grid
/// representatives (`k = len_floor` and `k = 0`).
pub open spec fn clamp_spec(t: HModel, sg: Segment) -> HModel {
    if past_far(t, sg) {
        kform(sg, len_floor(sg.between))
    } else if past_near(t, sg) {
        kform(sg, 0)
    } else {
        t
    }
}

/// Numerator of the projection of `t - start` onto `between`, scaled by the
/// denominator of `t`.
pub open spec fn proj_m(t: HModel, sg: Segment) -> int {
    (t.x - (sg.start.x as int) * t.w) * (sg.between.x as int)
        + (t.y - (sg.start.y as int) * t.w) * (sg.between.y as int)
}

/// The lowest index at or after `k` whose segment's side test is positive
/// for `fut`.
pub open spec fn first_hit_from(segs: Seq<Segment>, fut: HModel, k: int) -> Option<int>
    decreases segs.len() - k,
    when 0 <= k <= segs.len()
{
    if k >= segs.len() {
        Option::None
    } else if side_num(fut, segs[k].start, segs[k].between) > 0 {
        Option::Some(k)
    } else {
        first_hit_from(segs, fut, k + 1)
    }
}

/// The outcome of one controller step.
pub ghost struct StepResult {
    pub pos: HModel,
    pub state: CursorState,
    pub event: Option<usize>,
}

/// One delta of the state machine, as a mathematical function of the
/// boundary, the current position and mode, and the delta.
pub open spec fn step(segs: Seq<Segment>, pos: HModel, state: CursorState, delta: Vec2) -> StepResult {
    match state {
        CursorState::Free => {
            let fut = translated(pos, delta);
            match first_hit_from(segs, fut, 0) {
                Option::None => StepResult { pos: fut, state: CursorState::Free, event: Option::None },
                Option::Some(i) => {
                    let sg = segs[i];
                    if cross(delta, sg.between) == 0 {
                        StepResult { pos, state, event: Option::None }
                    } else {
                        let k = snap_k(pos, delta, sg);
                        if k > SNAP_CAP as int || k < -(SNAP_CAP as int) {
                            StepResult { pos, state, event: Option::None }
                        } else {
                            StepResult {
                                pos: kform(sg, k),
                                state: CursorState::Sliding(i as usize),
                                event: Option::Some(i as usize),
                            }
                        }
                    }
                }
            }
        }
        CursorState::Sliding(id) => {
            let sg = segs[id as int];
            let fut = translated(pos, delta);
            if side_num(fut, sg.start, sg.between) < 0 {
                StepResult { pos: fut, state: CursorState::Free, event: Option::None }
            } else {
                let kk = recover_k(pos, sg) + axis_component(delta, sg.between);
                StepResult { pos: clamp_spec(kform(sg, kk), sg), state, event: Option::None }
            }
        }
    }
}

/// What the scan decides: `None` means the moved position tests inside or
/// on the line for every segment at or after `k`; `Some(i)` names the first
/// segment at or after `k` whose side test reports it outside.
pub proof fn lemma_first_hit_characterization(segs: Seq<Segment>, fut: HModel, k: int)
    requires
        0 <= k <= segs.len(),
    ensures
        (match first_hit_from(segs, fut, k) {
            Option::None => forall|i: int|
                k <= i < segs.len() ==> side_num(fut, (#[trigger] segs[i]).start, segs[i].between)
                    <= 0,
            Option::Some(i) => {
                &&& k <= i < segs.len()
                &&& side_num(fut, segs[i].start, segs[i].between) > 0
                &&& forall|j: int|
                    k <= j < i ==> side_num(fut, (#[trigger] segs[j]).start, segs[j].between) <= 0
            },
        }),
    decreases segs.len() - k,
{
    if k < segs.len() {
        if !(side_num(fut, segs[k].start, segs[k].between) > 0) {
            lemma_first_hit_characterization(segs, fut, k + 1);
        }
    }
}

/// A non-zero vector has squared length at least one.
pub proof fn lemma_lensq_pos(v: Vec2)
    by (nonlinear_arith)
    requires
        !(v.x == 0 && v.y == 0),
    ensures
        lensq(v) >= 1,
{
}

/// The square root of a positive number is positive.
pub proof fn lemma_sqrt_floor_pos(n: nat)
    requires
        n >= 1,
    ensures
        sqrt_floor(n) >= 1,
{
    lemma_sqrt_floor(n);
    if sqrt_floor(n) == 0 {
        assert((sqrt_floor(n) + 1) * (sqrt_floor(n) + 1) == 1) by (nonlinear_arith)
            requires
                sqrt_floor(n) == 0nat,
        ;
    }
}

proof fn lemma_sq_sum(a: int, b: int)
    by (nonlinear_arith)
    ensures
        (a + b) * (a + b) == a * a + 2 * (a * b) + b * b,
{
}

proof fn lemma_sq_diff(a: int, b: int)
    by (nonlinear_arith)
    ensures
        (a - b) * (a - b) == a * a - 2 * (a * b) + b * b,
{
}

proof fn lemma_mul_rearrange(a: int, b: int)
    by (nonlinear_arith)
    ensures
        (a * b) * (a * b) == (a * a) * (b * b),
{
}

proof fn lemma_cross_terms(u: int, v: int, bx: int, by: int)
    by (nonlinear_arith)
    ensures
        (u * bx) * (v * by) == (u * by) * (v * bx),
{
}

proof fn lemma_comm(a: int, b: int)
    by (nonlinear_arith)
    ensures
        a * b == b * a,
{
}

proof fn lemma_dist4(p: int, q: int, r: int, s: int)
    by (nonlinear_arith)
    ensures
        (p + q) * (r + s) == p * r + p * s + q * r + q * s,
{
}

proof fn lemma_mul_lt_iff(a: int, b: int, c: int)
    by (nonlinear_arith)
    requires
        c > 0,
    ensures
        (a < b) <==> (c * a < c * b),
{
}

proof fn lemma_sq_lt(a: int, m: int)
    by (nonlinear_arith)
    requires
        a >= 0,
    ensures
        (a * a < m * m) <==> (m > a || m < -a),
{
}

/// The two-squares identity behind the distance-to-projection reduction.
proof fn lemma_fib_identity(u: int, v: int, bx: int, by: int)
    ensures
        (u * u + v * v) * (bx * bx + by * by)
            == (u * bx + v * by) * (u * bx + v * by) + (u * by - v * bx) * (u * by - v * bx),
{
    lemma_sq_sum(u * bx, v * by);
    lemma_sq_diff(u * by, v * bx);
    lemma_mul_rearrange(u, bx);
    lemma_mul_rearrange(v, by);
    lemma_mul_rearrange(u, by);
    lemma_mul_rearrange(v, bx);
    lemma_cross_terms(u, v, bx, by);
    lemma_dist4(u * u, v * v, bx * bx, by * by);
}

/// With `t` on the segment's line, the far-endpoint distance comparison is a
/// linear test on the projection numerator.
pub proof fn lemma_clamp_far(t: HModel, sg: Segment)
    requires
        seg_wf(sg),
        t.w > 0,
        on_line(t, sg.start, sg.between),
    ensures
        past_far(t, sg) <==> (proj_m(t, sg) > t.w * lensq(sg.between)
            || proj_m(t, sg) < -(t.w * lensq(sg.between))),
{
    let w = t.w;
    let sx = sg.start.x as int;
    let sy = sg.start.y as int;
    let bx = sg.between.x as int;
    let by = sg.between.y as int;
    let u = t.x - sx * w;
    let v = t.y - sy * w;
    let bb = lensq(sg.between);
    let m = proj_m(t, sg);
    lemma_fib_identity(u, v, bx, by);
    assert(u * by - v * bx == 0);
    assert((u * by - v * bx) * (u * by - v * bx) == 0) by (nonlinear_arith)
        requires
            u * by - v * bx == 0,
    ;
    assert((u * u + v * v) * bb == m * m);
    assert(distsq(sg.start, sg.end) == bb) by (nonlinear_arith)
        requires
            sg.end.x as int - sx == bx,
            sg.end.y as int - sy == by,
            bb == bx * bx + by * by,
            sx == sg.start.x as int,
            sy == sg.start.y as int,
            distsq(sg.start, sg.end) == (sg.start.x as int - sg.end.x as int) * (sg.start.x as int
                - sg.end.x as int) + (sg.start.y as int - sg.end.y as int) * (sg.start.y as int
                - sg.end.y as int),
    ;
    assert(distsq_num(t, sg.start) == u * u + v * v);
    lemma_lensq_pos(sg.between);
    assert((bb * w) * w == bb * (w * w)) by (nonlinear_arith);
    lemma_mul_lt_iff(bb * (w * w), u * u + v * v, bb);
    assert(bb * (bb * (w * w)) == (w * bb) * (w * bb)) by (nonlinear_arith);
    assert(bb * (u * u + v * v) == (u * u + v * v) * bb) by (nonlinear_arith);
    lemma_mul_pos(w, bb);
    lemma_sq_lt(w * bb, m);
}

/// With `t` on the segment's line, the near-endpoint distance comparison is
/// a linear test on the projection numerator.
pub proof fn lemma_clamp_near(t: HModel, sg: Segment)
    requires
        seg_wf(sg),
        t.w > 0,
        on_line(t, sg.start, sg.between),
    ensures
        past_near(t, sg) <==> (proj_m(t, sg) > 2 * (t.w * lensq(sg.between))
            || proj_m(t, sg) < 0),
{
    let w = t.w;
    let sx = sg.start.x as int;
    let sy = sg.start.y as int;
    let bx = sg.between.x as int;
    let by = sg.between.y as int;
    let u = t.x - sx * w;
    let v = t.y - sy * w;
    let bb = lensq(sg.between);
    let m = proj_m(t, sg);
    let ue = t.x - (sg.end.x as int) * w;
    let ve = t.y - (sg.end.y as int) * w;
    assert(ue == u - bx * w) by (nonlinear_arith)
        requires
            ue == t.x - (sx + bx) * w,
            u == t.x - sx * w,
    ;
    assert(ve == v - by * w) by (nonlinear_arith)
        requires
            ve == t.y - (sy + by) * w,
            v == t.y - sy * w,
    ;
    lemma_fib_identity(ue, ve, bx, by);
    assert(u * by - v * bx == 0);
    assert(ue * by - ve * bx == 0) by (nonlinear_arith)
        requires
            ue == u - bx * w,
            ve == v - by * w,
            u * by - v * bx == 0,
    ;
    assert((ue * by - ve * bx) * (ue * by - ve * bx) == 0) by (nonlinear_arith)
        requires
            ue * by - ve * bx == 0,
    ;
    let me = ue * bx + ve * by;
    assert(me == m - w * bb) by (nonlinear_arith)
        requires
            ue == u - bx * w,
            ve == v - by * w,
            m == u * bx + v * by,
            bb == bx * bx + by * by,
            me == ue * bx + ve * by,
    ;
    assert((ue * ue + ve * ve) * bb == me * me);
    assert(distsq(sg.start, sg.end) == bb) by (nonlinear_arith)
        requires
            sg.end.x as int - sx == bx,
            sg.end.y as int - sy == by,
            bb == bx * bx + by * by,
            sx == sg.start.x as int,
            sy == sg.start.y as int,
            distsq(sg.start, sg.end) == (sg.start.x as int - sg.end.x as int) * (sg.start.x as int
                - sg.end.x as int) + (sg.start.y as int - sg.end.y as int) * (sg.start.y as int
                - sg.end.y as int),
    ;
    assert(distsq_num(t, sg.end) == ue * ue + ve * ve);
    lemma_lensq_pos(sg.between);
    assert((bb * w) * w == bb * (w * w)) by (nonlinear_arith);
    lemma_mul_lt_iff(bb * (w * w), ue * ue + ve * ve, bb);
    assert(bb * (bb * (w * w)) == (w * bb) * (w * bb)) by (nonlinear_arith);
    assert(bb * (ue * ue + ve * ve) == (ue * ue + ve * ve) * bb) by (nonlinear_arith);
    lemma_mul_pos(w, bb);
    lemma_sq_lt(w * bb, me);
}

/// Every grid point lies exactly on the segment's line, with the grid
/// denominator, and its projection numerator is its parameter times the
/// squared length.
pub proof fn lemma_kform_on_line(sg: Segment, k: int)
    ensures
        on_line(kform(sg, k), sg.start, sg.between),
        kform(sg, k).w == len_floor(sg.between),
        proj_m(kform(sg, k), sg) == k * lensq(sg.between),
{
    let l = len_floor(sg.between);
    let sx = sg.start.x as int;
    let sy = sg.start.y as int;
    let bx = sg.between.x as int;
    let by = sg.between.y as int;
    assert(((sx * l + k * bx) - sx * l) * by - ((sy * l + k * by) - sy * l) * bx == 0)
        by (nonlinear_arith);
    assert(((sx * l + k * bx) - sx * l) * bx + ((sy * l + k * by) - sy * l) * by == k * (bx * bx
        + by * by)) by (nonlinear_arith);
}

/// On grid points the endpoint-overshoot tests are plain comparisons of the
/// grid parameter with the grid length.
pub proof fn lemma_kform_clamp(sg: Segment, kk: int)
    requires
        seg_wf(sg),
    ensures
        past_far(kform(sg, kk), sg) <==> (kk > len_floor(sg.between) || kk < -len_floor(
            sg.between,
        )),
        past_near(kform(sg, kk), sg) <==> (kk > 2 * len_floor(sg.between) || kk < 0),
{
    let l = len_floor(sg.between);
    let bb = lensq(sg.between);
    let t = kform(sg, kk);
    lemma_lensq_pos(sg.between);
    lemma_sqrt_floor_pos(bb as nat);
    lemma_kform_on_line(sg, kk);
    lemma_clamp_far(t, sg);
    lemma_clamp_near(t, sg);
    lemma_mul_lt_iff(l, kk, bb);
    lemma_mul_lt_iff(kk, -l, bb);
    lemma_mul_lt_iff(2 * l, kk, bb);
    lemma_mul_lt_iff(kk, 0, bb);
    lemma_comm(bb, kk);
    lemma_comm(bb, l);
    assert(bb * (-l) == -(bb * l)) by (nonlinear_arith);
    assert(bb * (2 * l) == 2 * (l * bb)) by (nonlinear_arith);
    assert(bb * 0 == 0) by (nonlinear_arith);
}

/// Recovering the grid parameter from a grid point is exact.
pub proof fn lemma_recover_exact(sg: Segment, k: int)
    requires
        seg_wf(sg),
    ensures
        recover_k(kform(sg, k), sg) == k,
{
    let l = len_floor(sg.between);
    let bb = lensq(sg.between);
    lemma_lensq_pos(sg.between);
    lemma_sqrt_floor_pos(bb as nat);
    lemma_kform_on_line(sg, k);
    lemma_mul_pos(l, bb);
    let num = (k * bb) * l;
    let den = l * bb;
    assert(2 * num + den == k * (2 * den) + den) by (nonlinear_arith)
        requires
            num == (k * bb) * l,
            den == l * bb,
    ;
    vstd::arithmetic::div_mod::lemma_fundamental_div_mod_converse_div(
        2 * num + den,
        2 * den,
        k,
        den,
    );
}

/// The snap lands within half a grid step of the exact crossing point: the
/// rounded parameter, scaled back by the (positive) cleared denominator
/// `m = pos.w * |cross(d, between)|`, differs from the exact crossing
/// parameter in grid units by at most `m / 2`.
pub proof fn lemma_snap_grid_accuracy(pos: HModel, d: Vec2, sg: Segment)
    requires
        pos.w > 0,
        cross(d, sg.between) != 0,
    ensures
        ({
            let dd = cross(d, sg.between);
            let a = ((sg.start.x as int) * pos.w - pos.x) * (d.y as int) - ((sg.start.y as int)
                * pos.w - pos.y) * (d.x as int);
            let m = if dd > 0 { pos.w * dd } else { pos.w * (-dd) };
            let an = if dd > 0 { a } else { -a };
            -m < 2 * (snap_k(pos, d, sg) * m - an * len_floor(sg.between)) <= m
        }),
{
    let dd = cross(d, sg.between);
    if dd > 0 {
        lemma_mul_pos(pos.w, dd);
        lemma_rdiv_rounds(
            (((sg.start.x as int) * pos.w - pos.x) * (d.y as int) - ((sg.start.y as int) * pos.w
                - pos.y) * (d.x as int)) * len_floor(sg.between),
            pos.w * dd,
        );
    } else {
        lemma_mul_pos(pos.w, -dd);
        lemma_rdiv_rounds(
            (-(((sg.start.x as int) * pos.w - pos.x) * (d.y as int) - ((sg.start.y as int) * pos.w
                - pos.y) * (d.x as int))) * len_floor(sg.between),
            pos.w * (-dd),
        );
    }
}

/// The side test changes along the stored normal in proportion to the
/// offset: displacement along the outward normal raises it, displacement
/// against the normal lowers it.
pub proof fn lemma_side_along_normal(p: HModel, sg: Segment, k: int)
    requires
        seg_wf(sg),
    ensures
        side_num(
            HModel {
                x: p.x + k * (sg.normal.x as int) * p.w,
                y: p.y + k * (sg.normal.y as int) * p.w,
                w: p.w,
            },
            sg.start,
            sg.between,
        ) == side_num(p, sg.start, sg.between) + k * p.w * lensq(sg.between),
{
    let sx = sg.start.x as int;
    let sy = sg.start.y as int;
    let bx = sg.between.x as int;
    let by = sg.between.y as int;
    let nx = sg.normal.x as int;
    let ny = sg.normal.y as int;
    let u = p.x - sx * p.w;
    let v = p.y - sy * p.w;
    assert(((p.x + k * nx * p.w) - sx * p.w) * by == u * by + (k * p.w) * (by * by)) by (nonlinear_arith)
        requires
            u == p.x - sx * p.w,
            nx == by,
    ;
    assert(((p.y + k * ny * p.w) - sy * p.w) * bx == v * bx - (k * p.w) * (bx * bx)) by (nonlinear_arith)
        requires
            v == p.y - sy * p.w,
            ny == -bx,
    ;
    assert((u * by + (k * p.w) * (by * by)) - (v * bx - (k * p.w) * (bx * bx))
        == (u * by - v * bx) + (k * p.w) * (bx * bx + by * by)) by (nonlinear_arith);
    assert(k * p.w * lensq(sg.between) == (k * p.w) * (bx * bx + by * by));
}

/// A point on the segment's line, displaced outward along the stored normal,
/// tests strictly outside.
pub proof fn lemma_outward_normal_is_outside(p: HModel, sg: Segment, k: int)
    requires
        seg_wf(sg),
        p.w > 0,
        on_line(p, sg.start, sg.between),
        k > 0,
    ensures
        side_num(
            HModel {
                x: p.x + k * (sg.normal.x as int) * p.w,
                y: p.y + k * (sg.normal.y as int) * p.w,
                w: p.w,
            },
            sg.start,
            sg.between,
        ) > 0,
{
    lemma_side_along_normal(p, sg, k);
    lemma_lensq_pos(sg.between);
    lemma_mul_pos(k, p.w);
    lemma_mul_pos(k * p.w, lensq(sg.between));
    assert(k * p.w * lensq(sg.between) == (k * p.w) * lensq(sg.between));
}

/// A zero-length delta changes nothing: in either mode the step keeps the
/// position (as a rational point), keeps the mode, and emits no event.  A
/// sliding cursor is asked to sit on its segment's grid between the
/// endpoints, where the clamp comparisons are quiet — which is where every
/// sliding step leaves it.
pub proof fn lemma_zero_delta_is_idle(segs: Seq<Segment>, pos: HModel, state: CursorState, d: Vec2)
    requires
        d.x == 0,
        d.y == 0,
        pos.w > 0,
        segs_wf(segs),
        (match state {
            CursorState::Free => true,
            CursorState::Sliding(id) => {
                &&& (id as int) < segs.len()
                &&& (exists|k: int| pos == kform(segs[id as int], k))
                &&& !past_far(pos, segs[id as int])
                &&& !past_near(pos, segs[id as int])
            }
        }),
    ensures
        ({
            let r = step(segs, pos, state, d);
            r.state == state && r.event is None && same_point(r.pos, pos)
        }),
{
    match state {
        CursorState::Free => {
            let fut = translated(pos, d);
            assert((d.x as int) * pos.w == 0) by (nonlinear_arith)
                requires
                    d.x as int == 0,
            ;
            assert((d.y as int) * pos.w == 0) by (nonlinear_arith)
                requires
                    d.y as int == 0,
            ;
            assert(fut == pos);
            match first_hit_from(segs, fut, 0) {
                Option::None => {
                    assert(same_point(pos, pos));
                }
                Option::Some(i) => {
                    assert(cross(d, segs[i].between) == 0) by (nonlinear_arith)
                        requires
                            d.x as int == 0,
                            d.y as int == 0,
                            cross(d, segs[i].between) == (d.x as int) * (segs[i].between.y as int)
                                - (d.y as int) * (segs[i].between.x as int),
                    ;
                    assert(same_point(pos, pos));
                }
            }
        }
        CursorState::Sliding(id) => {
            let sg = segs[id as int];
            let fut = translated(pos, d);
            assert((d.x as int) * pos.w == 0) by (nonlinear_arith)
                requires
                    d.x as int == 0,
            ;
            assert((d.y as int) * pos.w == 0) by (nonlinear_arith)
                requires
                    d.y as int == 0,
            ;
            assert(fut == pos);
            let k = choose|k: int| pos == kform(sg, k);
            lemma_kform_on_line(sg, k);
            assert(side_num(fut, sg.start, sg.between) == 0);
            lemma_recover_exact(sg, k);
            assert(axis_component(d, sg.between) == 0);
            assert(recover_k(pos, sg) + axis_component(d, sg.between) == k);
            assert(clamp_spec(kform(sg, k), sg) == pos);
            assert(same_point(pos, pos));
        }
    }
}

/// The grid length and squared length of a segment's direction vector.
fn grid_len(between: Vec2) -> (r: (i128, i128))
    requires
        v_in(between, 2 * COORD_MAX as int),
        !(between.x == 0 && between.y == 0),
    ensures
        r.0 as int == lensq(between),
        1 <= r.0 <= 8_000_000_000_000,
        r.1 as int == len_floor(between),
        1 <= r.1 <= 3_000_000,
{
    proof {
        lemma_mul_bound(between.x as int, between.x as int, 2_000_000, 2_000_000);
        lemma_mul_bound(between.y as int, between.y as int, 2_000_000, 2_000_000);
        assert((between.x as int) * (between.x as int) >= 0) by (nonlinear_arith);
        assert((between.y as int) * (between.y as int) >= 0) by (nonlinear_arith);
        lemma_lensq_pos(between);
    }
    let q: i128 = (between.x as i128) * (between.x as i128) + (between.y as i128) * (between.y
        as i128);
    let l64: u64 = isqrt(q as u64);
    proof {
        assert(l64 <= 2_828_427) by (nonlinear_arith)
            requires
                (l64 as nat) * (l64 as nat) <= 8_000_000_000_000,
        ;
        lemma_sqrt_floor_pos(q as nat);
    }
    (q, l64 as i128)
}

/// The grid point `k` steps along the segment, in homogeneous form.
fn kform_point(sg: &Segment, k: i128, l: i128) -> (r: HPoint)
    requires
        seg_wf(*sg),
        l as int == len_floor(sg.between),
        1 <= l <= 3_000_000,
        -(SNAP_CAP as int) <= k as int <= SNAP_CAP as int,
    ensures
        r.m() == kform(*sg, k as int),
        r.w > 0,
        -3_000_000_000_000_000_000 <= r.x <= 3_000_000_000_000_000_000,
        -3_000_000_000_000_000_000 <= r.y <= 3_000_000_000_000_000_000,
{
    proof {
        lemma_mul_bound(sg.start.x as int, l as int, 1_000_000, 3_000_000);
        lemma_mul_bound(sg.start.y as int, l as int, 1_000_000, 3_000_000);
        lemma_mul_bound(k as int, sg.between.x as int, SNAP_CAP as int, 2_000_000);
        lemma_mul_bound(k as int, sg.between.y as int, SNAP_CAP as int, 2_000_000);
    }
    HPoint {
        x: (sg.start.x as i128) * l + k * (sg.between.x as i128),
        y: (sg.start.y as i128) * l + k * (sg.between.y as i128),
        w: l,
    }
}

/// The lowest-numbered segment whose side test reports the moved position
/// outside, scanning in id order.
fn find_hit(segments: &Vec<Segment>, fut: &HPoint) -> (r: Option<usize>)
    requires
        segs_wf(segments@),
        h_in(fut.m(), 10_000_000_000_000_000_000_000_000_000_000, 10_000_000_000_000_000_000_000_000),
    ensures
        (match first_hit_from(segments@, fut.m(), 0) {
            Option::None => r is None,
            Option::Some(j) => r is Some && r.unwrap() as int == j && j < segments@.len(),
        }),
{
    let n = segments.len();
    let mut i: usize = 0;
    while i < n
        invariant
            segs_wf(segments@),
            h_in(fut.m(), 10_000_000_000_000_000_000_000_000_000_000, 10_000_000_000_000_000_000_000_000),
            n == segments@.len(),
            i <= n,
            first_hit_from(segments@, fut.m(), 0) == first_hit_from(segments@, fut.m(), i as int),
        decreases n - i,
    {
        let sg = segments[i];
        let sv = side_val(fut, sg.start, sg.between);
        if sv > 0 {
            return Option::Some(i);
        }
        i = i + 1;
    }
    Option::None
}

/// The vertical flip from the raw input convention (y growing downward) to
/// world coordinates (y growing upward).
pub fn world_delta(raw: Vec2) -> (r: Vec2)
    requires
        v_in(raw, COORD_MAX as int),
    ensures
        r.x == raw.x,
        r.y as int == -(raw.y as int),
        v_in(r, COORD_MAX as int),
{
    Vec2 { x: raw.x, y: -raw.y }
}

/// The cursor controller: the boundary model, the current position, and the
/// current mode.
pub struct Controller {
    pub segments: Vec<Segment>,
    pub pos: HPoint,
    pub state: CursorState,
}

impl Controller {
    /// The controller's defining invariant: a well-formed boundary, a
    /// positive position denominator, and, while sliding, a valid segment id
    /// with the position exactly on that segment's line, on its grid.
    pub open spec fn wf(self) -> bool {
        &&& segs_wf(self.segments@)
        &&& self.pos.w > 0
        &&& match self.state {
            CursorState::Free => true,
            CursorState::Sliding(id) => {
                &&& (id as int) < self.segments@.len()
                &&& on_line(self.pos.m(), self.segments@[id as int].start, self.segments@[id as int].between)
                &&& (exists|k: int| self.pos.m() == kform(self.segments@[id as int], k))
            }
        }
    }

    /// A controller in `Free` mode at an integer starting point.
    pub fn new(segments: Vec<Segment>, origin: Vec2) -> (r: Controller)
        requires
            segs_wf(segments@),
        ensures
            r.wf(),
            r.segments == segments,
            r.state == CursorState::Free,
            r.pos.x == origin.x as i128,
            r.pos.y == origin.y as i128,
            r.pos.w == 1,
    {
        Controller { segments, pos: HPoint::from_vec2(origin), state: CursorState::Free }
    }

    /// Apply one motion delta (already in world coordinates).  The returned
    /// value is the crossing event: the id of the segment the cursor just
    /// snapped onto, if this delta carried it from `Free` past a boundary.
    /// The new position, mode and event are exactly those of [`step`]; and a
    /// position that starts a margin inside the input bounds is returned
    /// inside them, so the controller can be driven frame after frame.
    pub fn update(&mut self, delta: Vec2) -> (ev: Option<usize>)
        requires
            old(self).wf(),
            h_in(old(self).pos.m(), POS_MAX as int, DEN_MAX as int),
            v_in(delta, COORD_MAX as int),
        ensures
            final(self).wf(),
            final(self).segments == old(self).segments,
            ({
                let r = step(old(self).segments@, old(self).pos.m(), old(self).state, delta);
                final(self).pos.m() == r.pos && final(self).state == r.state && ev == r.event
            }),
            h_in(
                old(self).pos.m(),
                POS_MAX as int - 20_000_000_000_000_000_000,
                DEN_MAX as int,
            ) ==> h_in(final(self).pos.m(), POS_MAX as int, DEN_MAX as int),
    {
        match self.state {
            CursorState::Free => {
                let fut = translate_point(&self.pos, delta);
                match find_hit(&self.segments, &fut) {
                    Option::None => {
                        self.pos = fut;
                        Option::None
                    }
                    Option::Some(i) => {
                        let sg = self.segments[i];
                        let dd = delta.cross(&sg.between);
                        proof {
                            lemma_mul_bound(delta.x as int, sg.between.y as int, 1_000_000, 2_000_000);
                            lemma_mul_bound(delta.y as int, sg.between.x as int, 1_000_000, 2_000_000);
                        }
                        if dd == 0 {
                            Option::None
                        } else {
                            let gl = grid_len(sg.between);
                            let l = gl.1;
                            proof {
                                lemma_mul_bound(sg.start.x as int, self.pos.w as int, 1_000_000, DEN_MAX as int);
                                lemma_mul_bound(sg.start.y as int, self.pos.w as int, 1_000_000, DEN_MAX as int);
                            }
                            let a1 = (sg.start.x as i128) * self.pos.w - self.pos.x;
                            let a2 = (sg.start.y as i128) * self.pos.w - self.pos.y;
                            proof {
                                lemma_mul_bound(a1 as int, delta.y as int, 4_000_000_000_000_000_000_000_000, 1_000_000);
                                lemma_mul_bound(a2 as int, delta.x as int, 4_000_000_000_000_000_000_000_000, 1_000_000);
                            }
                            let a = a1 * (delta.y as i128) - a2 * (delta.x as i128);
                            proof {
                                lemma_mul_bound(self.pos.w as int, dd as int, DEN_MAX as int, 4_000_000_000_000);
                                lemma_mul_bound(self.pos.w as int, -(dd as int), DEN_MAX as int, 4_000_000_000_000);
                                if dd > 0 {
                                    lemma_mul_pos(self.pos.w as int, dd as int);
                                } else {
                                    lemma_mul_pos(self.pos.w as int, -(dd as int));
                                }
                                lemma_mul_bound(a as int, l as int, 8_000_000_000_000_000_000_000_000_000_000, 3_000_000);
                                lemma_mul_bound(-(a as int), l as int, 8_000_000_000_000_000_000_000_000_000_000, 3_000_000);
                            }
                            let an: i128 = if dd > 0 { a } else { -a };
                            let m: i128 = if dd > 0 { self.pos.w * dd } else { self.pos.w * (-dd) };
                            let k = rdiv_i(an * l, m);
                            if k > SNAP_CAP || k < -SNAP_CAP {
                                Option::None
                            } else {
                                let ip = kform_point(&sg, k, l);
                                proof {
                                    lemma_kform_on_line(sg, k as int);
                                }
                                self.pos = ip;
                                self.state = CursorState::Sliding(i);
                                Option::Some(i)
                            }
                        }
                    }
                }
            }
            CursorState::Sliding(id) => {
                let sg = self.segments[id];
                let fut = translate_point(&self.pos, delta);
                let sv = side_val(&fut, sg.start, sg.between);
                if sv < 0 {
                    self.pos = fut;
                    self.state = CursorState::Free;
                    Option::None
                } else {
                    let gl = grid_len(sg.between);
                    let q = gl.0;
                    let l = gl.1;
                    proof {
                        lemma_mul_bound(sg.start.x as int, self.pos.w as int, 1_000_000, DEN_MAX as int);
                        lemma_mul_bound(sg.start.y as int, self.pos.w as int, 1_000_000, DEN_MAX as int);
                    }
                    let ux = self.pos.x - (sg.start.x as i128) * self.pos.w;
                    let uy = self.pos.y - (sg.start.y as i128) * self.pos.w;
                    proof {
                        lemma_mul_bound(ux as int, sg.between.x as int, 4_000_000_000_000_000_000_000_000, 2_000_000);
                        lemma_mul_bound(uy as int, sg.between.y as int, 4_000_000_000_000_000_000_000_000, 2_000_000);
                    }
                    let proj = ux * (sg.between.x as i128) + uy * (sg.between.y as i128);
                    proof {
                        lemma_mul_bound(proj as int, l as int, 16_000_000_000_000_000_000_000_000_000_000, 3_000_000);
                        lemma_mul_bound(self.pos.w as int, q as int, DEN_MAX as int, 8_000_000_000_000);
                        lemma_mul_pos(self.pos.w as int, q as int);
                    }
                    let k0 = rdiv_i(proj * l, self.pos.w * q);
                    let ax = if sg.between.x < 0 { -sg.between.x } else { sg.between.x };
                    let ay = if sg.between.y < 0 { -sg.between.y } else { sg.between.y };
                    let s0: i64 = if ax < ay {
                        if sg.between.y < 0 { -delta.y } else { delta.y }
                    } else {
                        if sg.between.x < 0 { -delta.x } else { delta.x }
                    };
                    let kk = k0 + (s0 as i128);
                    proof {
                        lemma_kform_clamp(sg, kk as int);
                    }
                    let kc: i128 = if kk > l || kk < -l {
                        l
                    } else if kk < 0 {
                        0
                    } else {
                        kk
                    };
                    let c = kform_point(&sg, kc, l);
                    proof {
                        lemma_kform_on_line(sg, kc as int);
                    }
                    self.pos = c;
                    Option::None
                }
            }
        }
    }
}

} // verus!
