use slide_cursor::boundary::make_segment;
use slide_cursor::boundary::Segment;
use slide_cursor::cursor::world_delta;
use slide_cursor::cursor::Controller;
use slide_cursor::cursor::CursorState;
use slide_cursor::geometry::HPoint;
use slide_cursor::geometry::Vec2;

fn v(x: i64, y: i64) -> Vec2 {
    Vec2 { x, y }
}

/// One horizontal segment from (0,10) to (10,10); its outside is y < 10.
/// Its grid length is 10, so the sliding grid point `k` is (10k, 100, 10).
fn flat_segment() -> Vec<Segment> {
    vec![make_segment(0, v(0, 10), v(10, 10))]
}

fn flat_sliding(k: i128) -> Controller {
    Controller {
        segments: flat_segment(),
        pos: HPoint { x: 10 * k, y: 100, w: 10 },
        state: CursorState::Sliding(0),
    }
}

#[test]
fn free_motion_inside_commits_the_delta() {
    let mut c = Controller::new(flat_segment(), v(5, 20));
    let ev = c.update(v(1, -2));
    assert!(ev.is_none());
    assert!(matches!(c.state, CursorState::Free));
    assert_eq!(c.pos, HPoint { x: 6, y: 18, w: 1 });
}

#[test]
fn free_to_sliding_snaps_onto_the_segment() {
    // just inside, with a delta large enough to cross: the committed
    // position is exactly on the segment and the crossing is reported
    let mut c = Controller::new(flat_segment(), v(5, 12));
    let ev = c.update(v(0, -4));
    assert_eq!(ev, Some(0));
    assert!(matches!(c.state, CursorState::Sliding(0)));
    assert!(c.pos.w > 0);
    assert_eq!(c.pos.x, 5 * c.pos.w);
    assert_eq!(c.pos.y, 10 * c.pos.w);
    // the side test evaluates to exactly zero on the segment's line
    let sg = c.segments[0];
    assert_eq!(slide_cursor::geometry::side_val(&c.pos, sg.start, sg.between), 0);
}

#[test]
fn snap_rounds_to_the_segment_grid() {
    // the exact crossing is at (0.5, 10), half a grid step along the
    // segment; the snap rounds to the nearest grid point (1, 10), still
    // exactly on the line
    let mut c = Controller::new(flat_segment(), v(0, 12));
    let ev = c.update(v(1, -4));
    assert_eq!(ev, Some(0));
    assert!(matches!(c.state, CursorState::Sliding(0)));
    assert!(c.pos.w > 0);
    assert_eq!(c.pos.x, 1 * c.pos.w);
    assert_eq!(c.pos.y, 10 * c.pos.w);
    let sg = c.segments[0];
    assert_eq!(slide_cursor::geometry::side_val(&c.pos, sg.start, sg.between), 0);
}

#[test]
fn parallel_crossing_drops_the_frame() {
    // already outside, moving parallel to the boundary: no intersection,
    // so position and mode are both left alone
    let mut c = Controller::new(flat_segment(), v(5, 8));
    let ev = c.update(v(3, 0));
    assert!(ev.is_none());
    assert!(matches!(c.state, CursorState::Free));
    assert_eq!(c.pos, HPoint { x: 5, y: 8, w: 1 });
}

#[test]
fn far_crossing_is_dropped_as_degenerate() {
    // a nearly parallel motion line crosses the boundary line absurdly far
    // away; the frame is dropped whole, like the exactly-parallel case
    let segs = vec![make_segment(0, v(0, 10), v(1_000_000, 11))];
    let start = HPoint {
        x: -1_000_000_000_000_000_000_000_000,
        y: -1_000_000_000_000_000_000_000_000,
        w: 1,
    };
    let mut c = Controller { segments: segs, pos: start, state: CursorState::Free };
    let ev = c.update(v(-999_999, -1));
    assert!(ev.is_none());
    assert!(matches!(c.state, CursorState::Free));
    assert_eq!(c.pos, start);
}

#[test]
fn sliding_moves_along_the_segment() {
    let mut c = flat_sliding(5);
    let ev = c.update(v(3, 0));
    assert!(ev.is_none());
    assert!(matches!(c.state, CursorState::Sliding(0)));
    assert!(c.pos.w > 0);
    assert_eq!(c.pos.x, 8 * c.pos.w);
    assert_eq!(c.pos.y, 10 * c.pos.w);
}

#[test]
fn sliding_keeps_the_denominator_fixed() {
    // the committed denominator is the segment's grid length, however many
    // sliding steps run: the representation never grows
    let mut c = flat_sliding(2);
    for _ in 0..1000 {
        let ev = c.update(v(1, 0));
        assert!(ev.is_none());
        assert!(matches!(c.state, CursorState::Sliding(0)));
        assert_eq!(c.pos.w, 10);
    }
    // long motion has been clamped at the far endpoint
    assert_eq!(c.pos.x, 10 * c.pos.w);
    assert_eq!(c.pos.y, 10 * c.pos.w);
}

#[test]
fn sliding_clamps_to_the_far_endpoint() {
    let mut c = flat_sliding(5);
    let ev = c.update(v(100, 0));
    assert!(ev.is_none());
    assert!(matches!(c.state, CursorState::Sliding(0)));
    assert!(c.pos.w > 0);
    assert_eq!(c.pos.x, 10 * c.pos.w);
    assert_eq!(c.pos.y, 10 * c.pos.w);
}

#[test]
fn sliding_clamps_to_the_near_endpoint() {
    let mut c = flat_sliding(5);
    let ev = c.update(v(-7, 0));
    assert!(ev.is_none());
    assert!(matches!(c.state, CursorState::Sliding(0)));
    assert!(c.pos.w > 0);
    assert_eq!(c.pos.x, 0);
    assert_eq!(c.pos.y, 10 * c.pos.w);
}

#[test]
fn sliding_to_free_releases_unclamped() {
    let mut c = flat_sliding(5);
    let ev = c.update(v(2, 3));
    assert!(ev.is_none());
    assert!(matches!(c.state, CursorState::Free));
    assert!(c.pos.w > 0);
    assert_eq!(c.pos.x, 7 * c.pos.w);
    assert_eq!(c.pos.y, 13 * c.pos.w);
}

#[test]
fn snap_then_clamp_chain() {
    let mut c = Controller::new(flat_segment(), v(5, 12));
    assert_eq!(c.update(v(0, -4)), Some(0));
    assert!(c.update(v(100, 0)).is_none());
    assert!(matches!(c.state, CursorState::Sliding(0)));
    assert!(c.pos.w > 0);
    assert_eq!(c.pos.x, 10 * c.pos.w);
    assert_eq!(c.pos.y, 10 * c.pos.w);
}

#[test]
fn zero_delta_is_idle_when_free() {
    let mut c = Controller::new(flat_segment(), v(3, 12));
    let ev = c.update(v(0, 0));
    assert!(ev.is_none());
    assert!(matches!(c.state, CursorState::Free));
    assert_eq!(c.pos, HPoint { x: 3, y: 12, w: 1 });
}

#[test]
fn zero_delta_is_idle_when_free_and_outside() {
    // even past the boundary the zero delta degenerates to parallel lines
    // and the frame is dropped whole
    let mut c = Controller::new(flat_segment(), v(3, 4));
    let ev = c.update(v(0, 0));
    assert!(ev.is_none());
    assert!(matches!(c.state, CursorState::Free));
    assert_eq!(c.pos, HPoint { x: 3, y: 4, w: 1 });
}

#[test]
fn zero_delta_is_idle_when_sliding() {
    let mut c = flat_sliding(5);
    let before = c.pos;
    let ev = c.update(v(0, 0));
    assert!(ev.is_none());
    assert!(matches!(c.state, CursorState::Sliding(0)));
    assert_eq!(c.pos, before);
}

#[test]
fn sliding_on_a_slanted_segment_stays_on_its_line() {
    // segment from (0,0) to (30,40): grid length 50, dominant axis y;
    // the grid point k is (30k, 40k, 50), here the midpoint k = 25
    let segs = vec![make_segment(0, v(0, 0), v(30, 40))];
    let mut c = Controller {
        segments: segs,
        pos: HPoint { x: 750, y: 1000, w: 50 },
        state: CursorState::Sliding(0),
    };
    // exit test: (15,30) has cross((15,30), (30,40)) = 600 - 900 < 0: released
    let ev = c.update(v(0, 10));
    assert!(ev.is_none());
    assert!(matches!(c.state, CursorState::Free));
    assert!(c.pos.w > 0);
    assert_eq!(c.pos.x, 15 * c.pos.w);
    assert_eq!(c.pos.y, 30 * c.pos.w);

    // moving outward keeps sliding: delta (10,-10) has future side > 0
    let segs2 = vec![make_segment(0, v(0, 0), v(30, 40))];
    let mut c2 = Controller {
        segments: segs2,
        pos: HPoint { x: 750, y: 1000, w: 50 },
        state: CursorState::Sliding(0),
    };
    let ev2 = c2.update(v(10, -10));
    assert!(ev2.is_none());
    assert!(matches!(c2.state, CursorState::Sliding(0)));
    // still exactly on the line through (0,0) and (30,40): 4x == 3y
    assert!(c2.pos.w > 0);
    assert_eq!(4 * c2.pos.x, 3 * c2.pos.y);
    assert_eq!(c2.pos.x, 9 * c2.pos.w);
}

#[test]
fn world_delta_flips_the_vertical_axis() {
    let r = world_delta(v(3, 4));
    assert_eq!(r, v(3, -4));
    let r2 = world_delta(v(-1, -2));
    assert_eq!(r2, v(-1, 2));
}
