//! Ring assembly: the unordered segments of one plane are chained into
//! polylines.

use vstd::prelude::*;
use crate::aabb::{
    aabb_from_points, lemma_aabb_encloses_points, lemma_aabb_of_reverse, spec_aabb_from_points,
};
use crate::axis::Axis;
use crate::kernel::{asks_points, asks_turn, tells_points, tells_turn};
use crate::line::Line3;
use crate::point::Point3;
use crate::slice_path::{slice_path_views, SlicePath, SlicePathView};
use crate::util::reversed;

verus! {

/// One planar cut before its segments are chained.
#[derive(Debug)]
pub struct BaseSlice {
    /// Index of the plane among the planes of its cut.
    pub i: usize,
    /// Coordinate of the plane along `axis`.
    pub d: i64,
    pub axis: Axis,
    /// The segments, in no particular order.
    pub lines: Vec<Line3>,
}

/// A chain while it grows at both ends. Its points are `left` read
/// backwards followed by `right`.
pub struct Growth {
    /// The segments not yet used.
    pub kept: Seq<Line3>,
    pub left: Seq<Point3>,
    pub right: Seq<Point3>,
    pub closed: bool,
}

/// One end of a chain after `line` was held against it. The segment fits
/// where one of its ends is close to the last point of the side; where
/// exactly one is, the other becomes the new last point.
pub open spec fn spec_attach(side: Seq<Point3>, line: Line3, close: spec_fn(Point3, Point3) -> bool) -> (
    Seq<Point3>,
    bool,
) {
    let s = close(line.start, side.last());
    let e = close(line.end, side.last());
    let grown = if s && !e {
        side.push(line.end)
    } else if !s && e {
        side.push(line.start)
    } else {
        side
    };
    (grown, s || e)
}

/// A chain after `line` was offered to it: to the left end first, to the
/// right end where it did not fit the left. A segment that fits is used
/// up, and the chain is closed where its two ends are then close. A closed
/// chain takes nothing.
pub open spec fn spec_offer(g: Growth, line: Line3, close: spec_fn(Point3, Point3) -> bool) -> Growth {
    if g.closed {
        Growth { kept: g.kept.push(line), ..g }
    } else {
        let (left, fits_left) = spec_attach(g.left, line, close);
        if fits_left {
            Growth { left, closed: close(left.last(), g.right.last()), ..g }
        } else {
            let (right, fits_right) = spec_attach(g.right, line, close);
            if fits_right {
                Growth { right, closed: close(g.left.last(), right.last()), ..g }
            } else {
                Growth { kept: g.kept.push(line), ..g }
            }
        }
    }
}

/// One pass: every segment of `lines` is offered to the chain, in order.
pub open spec fn spec_scan(
    lines: Seq<Line3>,
    left: Seq<Point3>,
    right: Seq<Point3>,
    close: spec_fn(Point3, Point3) -> bool,
) -> Growth
    decreases lines.len(),
{
    if lines.len() == 0 {
        Growth { kept: Seq::empty(), left, right, closed: false }
    } else {
        spec_offer(spec_scan(lines.drop_last(), left, right, close), lines.last(), close)
    }
}

/// A pass uses up segments; it adds none.
pub proof fn lemma_scan_shrinks(
    lines: Seq<Line3>,
    left: Seq<Point3>,
    right: Seq<Point3>,
    close: spec_fn(Point3, Point3) -> bool,
)
    requires
        left.len() > 0,
        right.len() > 0,
    ensures
        spec_scan(lines, left, right, close).kept.len() <= lines.len(),
        spec_scan(lines, left, right, close).left.len() > 0,
        spec_scan(lines, left, right, close).right.len() > 0,
    decreases lines.len(),
{
    if lines.len() > 0 {
        lemma_scan_shrinks(lines.drop_last(), left, right, close);
    }
}

/// Passes are repeated until the chain is closed or a pass uses up nothing.
pub open spec fn spec_grow(
    lines: Seq<Line3>,
    left: Seq<Point3>,
    right: Seq<Point3>,
    close: spec_fn(Point3, Point3) -> bool,
) -> Growth
    decreases lines.len(),
{
    let g = spec_scan(lines, left, right, close);
    if g.closed || g.kept.len() >= lines.len() {
        g
    } else {
        spec_grow(g.kept, g.left, g.right, close)
    }
}

/// Growing a chain uses up segments; it adds none.
pub proof fn lemma_grow_shrinks(
    lines: Seq<Line3>,
    left: Seq<Point3>,
    right: Seq<Point3>,
    close: spec_fn(Point3, Point3) -> bool,
)
    requires
        left.len() > 0,
        right.len() > 0,
    ensures
        spec_grow(lines, left, right, close).kept.len() <= lines.len(),
        spec_grow(lines, left, right, close).left.len() > 0,
        spec_grow(lines, left, right, close).right.len() > 0,
    decreases lines.len(),
{
    lemma_scan_shrinks(lines, left, right, close);
    let g = spec_scan(lines, left, right, close);
    if !(g.closed || g.kept.len() >= lines.len()) {
        lemma_grow_shrinks(g.kept, g.left, g.right, close);
    }
}

/// The points of a finished chain before it is oriented: the left side
/// read backwards, then the right side.
pub open spec fn spec_chain(g: Growth) -> Seq<Point3> {
    g.left.reverse() + g.right
}

/// The path made of a finished chain. Its box is the least one around its
/// points; the points are reversed where `turn` finds them running the
/// wrong way round in the plane of `axis`.
pub open spec fn spec_ring(
    g: Growth,
    i: usize,
    d: i64,
    axis: Axis,
    turn: spec_fn(Seq<Point3>, Axis, Axis) -> bool,
) -> SlicePathView {
    let chain = spec_chain(g);
    SlicePathView {
        i,
        d,
        axis,
        points: if turn(chain, axis.spec_other().0, axis.spec_other().1) {
            chain.reverse()
        } else {
            chain
        },
        closed: g.closed,
        aabb: spec_aabb_from_points(chain),
    }
}

/// The paths of a plane. The last segment is taken as a seed unless its
/// two ends are close to each other; the chain grown from it becomes a
/// path; the segments that it left over are treated in the same way.
pub open spec fn spec_find_paths(
    lines: Seq<Line3>,
    i: usize,
    d: i64,
    axis: Axis,
    close: spec_fn(Point3, Point3) -> bool,
    turn: spec_fn(Seq<Point3>, Axis, Axis) -> bool,
) -> Seq<SlicePathView>
    decreases lines.len(),
{
    if lines.len() == 0 {
        Seq::empty()
    } else {
        let seed = lines.last();
        let rest = lines.drop_last();
        if close(seed.start, seed.end) {
            spec_find_paths(rest, i, d, axis, close, turn)
        } else {
            let g = spec_grow(rest, seq![seed.start], seq![seed.end], close);
            proof {
                lemma_grow_shrinks(rest, seq![seed.start], seq![seed.end], close);
            }
            seq![spec_ring(g, i, d, axis, turn)] + spec_find_paths(g.kept, i, d, axis, close, turn)
        }
    }
}

fn attach<N: Fn(Point3, Point3) -> bool>(side: &mut Vec<Point3>, line: &Line3, near: &N) -> (fits: bool)
    requires
        old(side).len() > 0,
        asks_points(near),
    ensures
        final(side).len() > 0,
        forall|close: spec_fn(Point3, Point3) -> bool| #[trigger]
            tells_points(near, close) ==> (final(side)@, fits) == spec_attach(
                old(side)@,
                *line,
                close,
            ),
{
    let last = side[side.len() - 1];
    let s = near(line.start, last);
    let e = near(line.end, last);
    if s && !e {
        side.push(line.end);
    } else if !s && e {
        side.push(line.start);
    }
    s || e
}

/// One pass over `lines`. Returns the segments that were not used and
/// whether the chain is closed.
fn scan<N: Fn(Point3, Point3) -> bool>(
    lines: &Vec<Line3>,
    left: &mut Vec<Point3>,
    right: &mut Vec<Point3>,
    near: &N,
) -> (res: (Vec<Line3>, bool))
    requires
        old(left).len() > 0,
        old(right).len() > 0,
        asks_points(near),
    ensures
        final(left).len() > 0,
        final(right).len() > 0,
        res.0.len() <= lines.len(),
        forall|close: spec_fn(Point3, Point3) -> bool| #[trigger]
            tells_points(near, close) ==> {
                let g = spec_scan(lines@, old(left)@, old(right)@, close);
                &&& res.0@ == g.kept
                &&& final(left)@ == g.left
                &&& final(right)@ == g.right
                &&& res.1 == g.closed
            },
{
    let mut kept: Vec<Line3> = Vec::new();
    let mut closed = false;
    let mut k: usize = 0;
    while k < lines.len()
        invariant
            k <= lines.len(),
            kept.len() <= k,
            left.len() > 0,
            right.len() > 0,
            asks_points(near),
            forall|close: spec_fn(Point3, Point3) -> bool| #[trigger]
                tells_points(near, close) ==> {
                    let g = spec_scan(lines@.take(k as int), old(left)@, old(right)@, close);
                    &&& kept@ == g.kept
                    &&& left@ == g.left
                    &&& right@ == g.right
                    &&& closed == g.closed
                },
        decreases lines.len() - k,
    {
        let line = lines[k];
        proof {
            assert(lines@.take(k + 1).drop_last() =~= lines@.take(k as int));
            assert(lines@.take(k + 1).last() == line);
        }
        if closed {
            kept.push(line);
        } else if attach(left, &line, near) {
            closed = near(left[left.len() - 1], right[right.len() - 1]);
        } else if attach(right, &line, near) {
            closed = near(left[left.len() - 1], right[right.len() - 1]);
        } else {
            kept.push(line);
        }
        k = k + 1;
    }
    proof {
        assert(lines@.take(k as int) =~= lines@);
    }
    (kept, closed)
}

/// Grows a chain from `seed` out of `lines`. Returns the segments left
/// over, the two sides of the chain and whether it is closed.
fn grow<N: Fn(Point3, Point3) -> bool>(lines: Vec<Line3>, seed: Line3, near: &N) -> (res: (
    Vec<Line3>,
    Vec<Point3>,
    Vec<Point3>,
    bool,
))
    requires
        asks_points(near),
    ensures
        res.0.len() <= lines.len(),
        res.1.len() > 0,
        res.2.len() > 0,
        forall|close: spec_fn(Point3, Point3) -> bool| #[trigger]
            tells_points(near, close) ==> {
                let g = spec_grow(lines@, seq![seed.start], seq![seed.end], close);
                &&& res.0@ == g.kept
                &&& res.1@ == g.left
                &&& res.2@ == g.right
                &&& res.3 == g.closed
            },
{
    let ghost all = lines@;
    let mut lines = lines;
    let mut left: Vec<Point3> = Vec::new();
    left.push(seed.start);
    let mut right: Vec<Point3> = Vec::new();
    right.push(seed.end);
    let mut closed = false;
    proof {
        assert(left@ =~= seq![seed.start]);
        assert(right@ =~= seq![seed.end]);
    }
    loop
        invariant_except_break
            !closed,
            forall|close: spec_fn(Point3, Point3) -> bool| #[trigger]
                tells_points(near, close) ==> spec_grow(lines@, left@, right@, close) == spec_grow(
                    all,
                    seq![seed.start],
                    seq![seed.end],
                    close,
                ),
        invariant
            asks_points(near),
            left.len() > 0,
            right.len() > 0,
            lines.len() <= all.len(),
        ensures
            forall|close: spec_fn(Point3, Point3) -> bool| #[trigger]
                tells_points(near, close) ==> {
                    let g = spec_grow(all, seq![seed.start], seq![seed.end], close);
                    &&& lines@ == g.kept
                    &&& left@ == g.left
                    &&& right@ == g.right
                    &&& closed == g.closed
                },
        decreases lines.len(),
    {
        let before = lines.len();
        let (kept, now_closed) = scan(&lines, &mut left, &mut right, near);
        lines = kept;
        closed = now_closed;
        if closed || lines.len() >= before {
            break ;
        }
    }
    (lines, left, right, closed)
}

impl BaseSlice {
    /// Chains the segments into paths. `near` says whether two points are
    /// close enough to be one; `negative` says whether a polyline runs
    /// against the clock in the plane of the two given axes.
    pub fn find_paths<N: Fn(Point3, Point3) -> bool, W: Fn(&Vec<Point3>, Axis, Axis) -> bool>(
        self,
        near: &N,
        negative: &W,
    ) -> (rings: Vec<SlicePath>)
        requires
            asks_points(near),
            asks_turn(negative),
        ensures
            forall|k: int| 0 <= k < rings.len() ==> (#[trigger] rings[k])@.wf(),
            forall|k: int| 0 <= k < rings.len() ==> (#[trigger] rings[k]).points.len() >= 2,
            forall|close: spec_fn(Point3, Point3) -> bool, turn: spec_fn(Seq<Point3>, Axis, Axis) -> bool|
                #![trigger tells_points(near, close), tells_turn(negative, turn)]
                tells_points(near, close) && tells_turn(negative, turn) ==> slice_path_views(rings@)
                    == spec_find_paths(self.lines@, self.i, self.d, self.axis, close, turn),
    {
        let ghost all = self.lines@;
        let BaseSlice { i, d, axis, lines } = self;
        let (axis_a, axis_b) = axis.other();
        let mut lines = lines;
        let mut rings: Vec<SlicePath> = Vec::new();
        proof {
            assert(slice_path_views(rings@) =~= Seq::<SlicePathView>::empty());
        }
        while lines.len() > 0
            invariant
                asks_points(near),
                asks_turn(negative),
                (axis_a, axis_b) == axis.spec_other(),
                forall|k: int| 0 <= k < rings.len() ==> (#[trigger] rings[k])@.wf(),
                forall|k: int| 0 <= k < rings.len() ==> (#[trigger] rings[k]).points.len() >= 2,
                forall|close: spec_fn(Point3, Point3) -> bool, turn: spec_fn(Seq<Point3>, Axis, Axis) -> bool|
                    #![trigger tells_points(near, close), tells_turn(negative, turn)]
                    tells_points(near, close) && tells_turn(negative, turn) ==> slice_path_views(
                        rings@,
                    ) + spec_find_paths(lines@, i, d, axis, close, turn) == spec_find_paths(
                        all,
                        i,
                        d,
                        axis,
                        close,
                        turn,
                    ),
            decreases lines.len(),
        {
            let ghost before = lines@;
            let ghost rings_before = rings@;
            let seed = lines.pop().unwrap();
            proof {
                assert(lines@ =~= before.drop_last());
            }
            if !near(seed.start, seed.end) {
                let (kept, left, right, closed) = grow(lines, seed, near);
                lines = kept;
                let mut right = right;
                let ghost right_side = right@;
                let mut points = reversed(left);
                points.append(&mut right);
                let ghost chain = points@;
                let aabb = aabb_from_points(&points);
                if negative(&points, axis_a, axis_b) {
                    points = reversed(points);
                    proof {
                        lemma_aabb_of_reverse(chain);
                        assert(chain.reverse().reverse() =~= chain);
                    }
                }
                rings.push(SlicePath { i, d, axis, points, closed, aabb });
                proof {
                    let ring = rings[rings.len() - 1]@;
                    assert forall|
                        close: spec_fn(Point3, Point3) -> bool,
                        turn: spec_fn(Seq<Point3>, Axis, Axis) -> bool,
                    |
                        #![trigger tells_points(near, close), tells_turn(negative, turn)]
                        tells_points(near, close) && tells_turn(
                            negative,
                            turn,
                        ) implies slice_path_views(rings@) + spec_find_paths(
                        lines@,
                        i,
                        d,
                        axis,
                        close,
                        turn,
                    ) == spec_find_paths(all, i, d, axis, close, turn) by {
                        let g = spec_grow(before.drop_last(), seq![seed.start], seq![seed.end], close);
                        assert(chain =~= spec_chain(g));
                        assert(ring == spec_ring(g, i, d, axis, turn));
                        assert(slice_path_views(rings@) =~= slice_path_views(rings_before).push(ring));
                        assert(slice_path_views(rings@) + spec_find_paths(
                            lines@,
                            i,
                            d,
                            axis,
                            close,
                            turn,
                        ) =~= slice_path_views(rings_before) + (seq![ring] + spec_find_paths(
                            lines@,
                            i,
                            d,
                            axis,
                            close,
                            turn,
                        )));
                    }
                }
            }
        }
        proof {
            assert forall|
                close: spec_fn(Point3, Point3) -> bool,
                turn: spec_fn(Seq<Point3>, Axis, Axis) -> bool,
            |
                #![trigger tells_points(near, close), tells_turn(negative, turn)]
                tells_points(near, close) && tells_turn(negative, turn) implies slice_path_views(
                rings@,
            ) == spec_find_paths(all, i, d, axis, close, turn) by {
                assert(slice_path_views(rings@) + spec_find_paths(lines@, i, d, axis, close, turn)
                    =~= slice_path_views(rings@));
            }
        }
        rings
    }
}

/// A pass closes a chain only where its two ends are close.
proof fn lemma_scan_closed(
    lines: Seq<Line3>,
    left: Seq<Point3>,
    right: Seq<Point3>,
    close: spec_fn(Point3, Point3) -> bool,
)
    requires
        left.len() > 0,
        right.len() > 0,
    ensures
        spec_scan(lines, left, right, close).closed ==> close(
            spec_scan(lines, left, right, close).left.last(),
            spec_scan(lines, left, right, close).right.last(),
        ),
    decreases lines.len(),
{
    if lines.len() > 0 {
        lemma_scan_closed(lines.drop_last(), left, right, close);
        lemma_scan_shrinks(lines.drop_last(), left, right, close);
    }
}

/// A chain is closed only where its two ends are close.
proof fn lemma_grow_closed(
    lines: Seq<Line3>,
    left: Seq<Point3>,
    right: Seq<Point3>,
    close: spec_fn(Point3, Point3) -> bool,
)
    requires
        left.len() > 0,
        right.len() > 0,
    ensures
        spec_grow(lines, left, right, close).closed ==> close(
            spec_grow(lines, left, right, close).left.last(),
            spec_grow(lines, left, right, close).right.last(),
        ),
    decreases lines.len(),
{
    lemma_scan_closed(lines, left, right, close);
    lemma_scan_shrinks(lines, left, right, close);
    let g = spec_scan(lines, left, right, close);
    if !(g.closed || g.kept.len() >= lines.len()) {
        lemma_grow_closed(g.kept, g.left, g.right, close);
    }
}

/// Of every path that ring assembly makes: it has at least two points; its
/// box is the least one around its points and so holds each of them; and
/// where it is closed, its first and its last point are close, in one
/// order of the two or the other.
pub proof fn lemma_paths_are_sound(
    lines: Seq<Line3>,
    i: usize,
    d: i64,
    axis: Axis,
    close: spec_fn(Point3, Point3) -> bool,
    turn: spec_fn(Seq<Point3>, Axis, Axis) -> bool,
    k: int,
)
    requires
        0 <= k < spec_find_paths(lines, i, d, axis, close, turn).len(),
    ensures
        ({
            let ring = spec_find_paths(lines, i, d, axis, close, turn)[k];
            &&& ring.points.len() >= 2
            &&& ring.wf()
            &&& forall|j: int| 0 <= j < ring.points.len() ==> ring.aabb.spec_contains(ring.points[j])
            &&& ring.closed ==> close(ring.points.first(), ring.points.last()) || close(
                ring.points.last(),
                ring.points.first(),
            )
            &&& ring.i == i && ring.d == d && ring.axis == axis
        }),
    decreases lines.len(),
{
    let seed = lines.last();
    let rest = lines.drop_last();
    if close(seed.start, seed.end) {
        lemma_paths_are_sound(rest, i, d, axis, close, turn, k);
    } else {
        let g = spec_grow(rest, seq![seed.start], seq![seed.end], close);
        lemma_grow_shrinks(rest, seq![seed.start], seq![seed.end], close);
        if k > 0 {
            lemma_paths_are_sound(g.kept, i, d, axis, close, turn, k - 1);
        } else {
            lemma_grow_closed(rest, seq![seed.start], seq![seed.end], close);
            let chain = spec_chain(g);
            let ring = spec_ring(g, i, d, axis, turn);
            assert(chain.first() == g.left.last());
            assert(chain.last() == g.right.last());
            lemma_aabb_of_reverse(chain);
            assert forall|j: int| 0 <= j < ring.points.len() implies ring.aabb.spec_contains(
                ring.points[j],
            ) by {
                lemma_aabb_encloses_points(ring.points, j);
            }
        }
    }
}

/// Where the question about the sense of travel never finds a polyline and
/// its reverse both running the wrong way, it finds no path of ring
/// assembly running the wrong way.
pub proof fn lemma_paths_are_oriented(
    lines: Seq<Line3>,
    i: usize,
    d: i64,
    axis: Axis,
    close: spec_fn(Point3, Point3) -> bool,
    turn: spec_fn(Seq<Point3>, Axis, Axis) -> bool,
    k: int,
)
    requires
        0 <= k < spec_find_paths(lines, i, d, axis, close, turn).len(),
        forall|points: Seq<Point3>, a: Axis, b: Axis| #[trigger]
            turn(points, a, b) ==> !turn(points.reverse(), a, b),
    ensures
        !turn(
            spec_find_paths(lines, i, d, axis, close, turn)[k].points,
            axis.spec_other().0,
            axis.spec_other().1,
        ),
    decreases lines.len(),
{
    let seed = lines.last();
    let rest = lines.drop_last();
    if close(seed.start, seed.end) {
        lemma_paths_are_oriented(rest, i, d, axis, close, turn, k);
    } else {
        let g = spec_grow(rest, seq![seed.start], seq![seed.end], close);
        lemma_grow_shrinks(rest, seq![seed.start], seq![seed.end], close);
        if k > 0 {
            lemma_paths_are_oriented(g.kept, i, d, axis, close, turn, k - 1);
        }
    }
}

/// A segment with both ends moved by `f`.
pub open spec fn moved_line(f: spec_fn(Point3) -> Point3) -> spec_fn(Line3) -> Line3 {
    |line: Line3| Line3 { start: f(line.start), end: f(line.end) }
}

/// `f` moves points so that the question about closeness cannot tell.
pub open spec fn keeps_close(f: spec_fn(Point3) -> Point3, close: spec_fn(Point3, Point3) -> bool) -> bool {
    forall|p: Point3, q: Point3| #[trigger] close(f(p), f(q)) == close(p, q)
}

/// `f` moves polylines so that the question about the sense of travel
/// cannot tell.
pub open spec fn keeps_turn(
    f: spec_fn(Point3) -> Point3,
    turn: spec_fn(Seq<Point3>, Axis, Axis) -> bool,
) -> bool {
    forall|points: Seq<Point3>, a: Axis, b: Axis| #[trigger]
        turn(points.map_values(f), a, b) == turn(points, a, b)
}

proof fn lemma_attach_moves(
    side: Seq<Point3>,
    line: Line3,
    close: spec_fn(Point3, Point3) -> bool,
    f: spec_fn(Point3) -> Point3,
)
    requires
        side.len() > 0,
        keeps_close(f, close),
    ensures
        spec_attach(side.map_values(f), moved_line(f)(line), close).0 == spec_attach(
            side,
            line,
            close,
        ).0.map_values(f),
        spec_attach(side.map_values(f), moved_line(f)(line), close).1 == spec_attach(
            side,
            line,
            close,
        ).1,
{
    let there = side.map_values(f);
    assert(there.last() == f(side.last()));
    assert(close(f(line.start), f(side.last())) == close(line.start, side.last()));
    assert(close(f(line.end), f(side.last())) == close(line.end, side.last()));
    assert(side.push(line.end).map_values(f) =~= there.push(f(line.end)));
    assert(side.push(line.start).map_values(f) =~= there.push(f(line.start)));
}

proof fn lemma_scan_moves(
    lines: Seq<Line3>,
    left: Seq<Point3>,
    right: Seq<Point3>,
    close: spec_fn(Point3, Point3) -> bool,
    f: spec_fn(Point3) -> Point3,
)
    requires
        left.len() > 0,
        right.len() > 0,
        keeps_close(f, close),
    ensures
        ({
            let here = spec_scan(lines, left, right, close);
            let there = spec_scan(
                lines.map_values(moved_line(f)),
                left.map_values(f),
                right.map_values(f),
                close,
            );
            &&& there.kept == here.kept.map_values(moved_line(f))
            &&& there.left == here.left.map_values(f)
            &&& there.right == here.right.map_values(f)
            &&& there.closed == here.closed
        }),
    decreases lines.len(),
{
    let ml = moved_line(f);
    if lines.len() == 0 {
        assert(Seq::<Line3>::empty().map_values(ml) =~= Seq::<Line3>::empty());
    } else {
        lemma_scan_moves(lines.drop_last(), left, right, close, f);
        lemma_scan_shrinks(lines.drop_last(), left, right, close);
        let g = spec_scan(lines.drop_last(), left, right, close);
        let line = lines.last();
        assert(lines.map_values(ml).drop_last() =~= lines.drop_last().map_values(ml));
        assert(lines.map_values(ml).last() == ml(line));
        lemma_attach_moves(g.left, line, close, f);
        lemma_attach_moves(g.right, line, close, f);
        assert(g.kept.push(line).map_values(ml) =~= g.kept.map_values(ml).push(ml(line)));
        let grown_left = spec_attach(g.left, line, close).0;
        let grown_right = spec_attach(g.right, line, close).0;
        assert(grown_left.map_values(f).last() == f(grown_left.last()));
        assert(grown_right.map_values(f).last() == f(grown_right.last()));
        assert(g.left.map_values(f).last() == f(g.left.last()));
        assert(g.right.map_values(f).last() == f(g.right.last()));
    }
}

proof fn lemma_grow_moves(
    lines: Seq<Line3>,
    left: Seq<Point3>,
    right: Seq<Point3>,
    close: spec_fn(Point3, Point3) -> bool,
    f: spec_fn(Point3) -> Point3,
)
    requires
        left.len() > 0,
        right.len() > 0,
        keeps_close(f, close),
    ensures
        ({
            let here = spec_grow(lines, left, right, close);
            let there = spec_grow(
                lines.map_values(moved_line(f)),
                left.map_values(f),
                right.map_values(f),
                close,
            );
            &&& there.kept == here.kept.map_values(moved_line(f))
            &&& there.left == here.left.map_values(f)
            &&& there.right == here.right.map_values(f)
            &&& there.closed == here.closed
        }),
    decreases lines.len(),
{
    lemma_scan_moves(lines, left, right, close, f);
    lemma_scan_shrinks(lines, left, right, close);
    let g = spec_scan(lines, left, right, close);
    if !(g.closed || g.kept.len() >= lines.len()) {
        lemma_grow_moves(g.kept, g.left, g.right, close, f);
    }
}

/// Ring assembly goes along with every way of moving points that the two
/// questions cannot tell from leaving them where they are: the segments
/// moved give the same paths moved, closed where they were closed.
pub proof fn lemma_paths_move_with_segments(
    lines: Seq<Line3>,
    i: usize,
    d: i64,
    d_moved: i64,
    axis: Axis,
    close: spec_fn(Point3, Point3) -> bool,
    turn: spec_fn(Seq<Point3>, Axis, Axis) -> bool,
    f: spec_fn(Point3) -> Point3,
)
    requires
        keeps_close(f, close),
        keeps_turn(f, turn),
    ensures
        ({
            let here = spec_find_paths(lines, i, d, axis, close, turn);
            let there = spec_find_paths(
                lines.map_values(moved_line(f)),
                i,
                d_moved,
                axis,
                close,
                turn,
            );
            &&& there.len() == here.len()
            &&& forall|k: int|
                0 <= k < here.len() ==> {
                    &&& (#[trigger] there[k]).points == here[k].points.map_values(f)
                    &&& there[k].closed == here[k].closed
                    &&& there[k].d == d_moved
                }
        }),
    decreases lines.len(),
{
    let ml = moved_line(f);
    let moved = lines.map_values(ml);
    if lines.len() > 0 {
        let seed = lines.last();
        let rest = lines.drop_last();
        assert(moved.drop_last() =~= rest.map_values(ml));
        assert(moved.last() == ml(seed));
        assert(close(f(seed.start), f(seed.end)) == close(seed.start, seed.end));
        if close(seed.start, seed.end) {
            lemma_paths_move_with_segments(rest, i, d, d_moved, axis, close, turn, f);
        } else {
            let g = spec_grow(rest, seq![seed.start], seq![seed.end], close);
            let h = spec_grow(rest.map_values(ml), seq![f(seed.start)], seq![f(seed.end)], close);
            assert(seq![seed.start].map_values(f) =~= seq![f(seed.start)]);
            assert(seq![seed.end].map_values(f) =~= seq![f(seed.end)]);
            lemma_grow_moves(rest, seq![seed.start], seq![seed.end], close, f);
            lemma_grow_shrinks(rest, seq![seed.start], seq![seed.end], close);
            lemma_paths_move_with_segments(g.kept, i, d, d_moved, axis, close, turn, f);
            let chain = spec_chain(g);
            assert(spec_chain(h) =~= chain.map_values(f));
            assert(chain.map_values(f).reverse() =~= chain.reverse().map_values(f));
            let a = axis.spec_other().0;
            let b = axis.spec_other().1;
            assert(turn(chain.map_values(f), a, b) == turn(chain, a, b));
        }
    }
}

} // verus!
