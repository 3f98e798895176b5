//! The boundary model: a fixed, ordered set of line segments built once from
//! a closed six-point loop and never mutated afterwards.

use vstd::prelude::*;

use crate::geometry::COORD_MAX;
use crate::geometry::Vec2;
use crate::geometry::v_in;

verus! {

/// One boundary segment, with its precomputed direction vector and left-hand
/// normal.  `id` is the segment's index in the boundary model.
#[derive(Clone, Copy, PartialEq, Eq, Structural, Debug)]
pub struct Segment {
    pub id: usize,
    pub start: Vec2,
    pub end: Vec2,
    pub between: Vec2,
    pub normal: Vec2,
}

/// A well-formed segment: bounded endpoints, a non-zero direction vector that
/// really is `end - start`, and the left-hand perpendicular as normal.
pub open spec fn seg_wf(sg: Segment) -> bool {
    &&& v_in(sg.start, COORD_MAX as int)
    &&& v_in(sg.end, COORD_MAX as int)
    &&& sg.between.x as int == sg.end.x as int - sg.start.x as int
    &&& sg.between.y as int == sg.end.y as int - sg.start.y as int
    &&& !(sg.between.x == 0 && sg.between.y == 0)
    &&& sg.normal.x == sg.between.y
    &&& sg.normal.y as int == -(sg.between.x as int)
}

/// A well-formed boundary: every segment well-formed and numbered by its
/// position.
pub open spec fn segs_wf(s: Seq<Segment>) -> bool {
    forall|i: int| 0 <= i < s.len() ==> (#[trigger] s[i]).id == i && seg_wf(s[i])
}

/// A segment from two distinct bounded endpoints, with its direction and
/// normal precomputed.
pub fn make_segment(id: usize, start: Vec2, end: Vec2) -> (r: Segment)
    requires
        v_in(start, COORD_MAX as int),
        v_in(end, COORD_MAX as int),
        start != end,
    ensures
        seg_wf(r),
        r.id == id,
        r.start == start,
        r.end == end,
{
    let bx = end.x - start.x;
    let by = end.y - start.y;
    Segment {
        id,
        start,
        end,
        between: Vec2 { x: bx, y: by },
        normal: Vec2 { x: by, y: -bx },
    }
}

/// The boundary segments for a closed loop of six points alternating between
/// an inner and an outer ring.  Overlapping four-point windows of the cyclic
/// sequence, stepped by two, each contribute one segment running from the
/// window's first point to its third: the three inner points chained into a
/// closed triangle, numbered in construction order.
pub fn build_boundary(points: &Vec<Vec2>) -> (r: Vec<Segment>)
    requires
        points@.len() == 6,
        forall|i: int| 0 <= i < 6 ==> v_in(#[trigger] points@[i], COORD_MAX as int),
        points@[0] != points@[2],
        points@[2] != points@[4],
        points@[4] != points@[0],
    ensures
        r@.len() == 3,
        segs_wf(r@),
        r@[0].start == points@[0] && r@[0].end == points@[2],
        r@[1].start == points@[2] && r@[1].end == points@[4],
        r@[2].start == points@[4] && r@[2].end == points@[0],
{
    let mut segs: Vec<Segment> = Vec::new();
    segs.push(make_segment(0, points[0], points[2]));
    segs.push(make_segment(1, points[2], points[4]));
    segs.push(make_segment(2, points[4], points[0]));
    proof {
        assert(segs@.len() == 3);
        assert(forall|i: int| 0 <= i < 3 ==> (#[trigger] segs@[i]).id == i && seg_wf(segs@[i]))
            by {
            assert(segs@[0].id == 0 && seg_wf(segs@[0]));
            assert(segs@[1].id == 1 && seg_wf(segs@[1]));
            assert(segs@[2].id == 2 && seg_wf(segs@[2]));
        }
    }
    segs
}

} // verus!
