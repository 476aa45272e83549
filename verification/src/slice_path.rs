use vstd::prelude::*;
use crate::aabb::{spec_aabb_from_points, spec_min, Aabb};
use crate::axis::Axis;
use crate::kernel::{asks_coords, asks_measure, asks_points, tells_coords, tells_measure, tells_points};
use crate::point::Point3;
use std::collections::VecDeque;
use crate::util::{lemma_filter_push, lemma_sort_map, lemma_sort_member, reversed, sort_by_keys, spec_sort};

verus! {

/// A polyline cut from one plane.
#[derive(Debug)]
pub struct SlicePath {
    /// Index of the plane among the planes of its cut.
    pub i: usize,
    /// Coordinate of the plane along `axis`.
    pub d: i64,
    pub axis: Axis,
    /// The points in the order of travel; clockwise seen along `axis`
    /// where the path is closed.
    pub points: Vec<Point3>,
    pub closed: bool,
    pub aabb: Aabb,
}

/// A polyline chained across neighbouring planes of a surface.
#[derive(Debug)]
pub struct SurfacePath {
    /// Index of the first plane the path touches.
    pub i_start: usize,
    /// Index of the last plane the path touches.
    pub i_end: usize,
    /// Coordinate of the first plane along `axis`.
    pub d_start: i64,
    /// Coordinate of the last plane along `axis`.
    pub d_end: i64,
    pub axis: Axis,
    pub path: Vec<Point3>,
    pub aabb: Aabb,
}

/// What a `SlicePath` holds, as mathematical values.
pub struct SlicePathView {
    pub i: usize,
    pub d: i64,
    pub axis: Axis,
    pub points: Seq<Point3>,
    pub closed: bool,
    pub aabb: Aabb,
}

/// What a `SurfacePath` holds, as mathematical values.
pub struct SurfacePathView {
    pub i_start: usize,
    pub i_end: usize,
    pub d_start: i64,
    pub d_end: i64,
    pub axis: Axis,
    pub path: Seq<Point3>,
    pub aabb: Aabb,
}

impl View for SlicePath {
    type V = SlicePathView;

    open spec fn view(&self) -> SlicePathView {
        SlicePathView {
            i: self.i,
            d: self.d,
            axis: self.axis,
            points: self.points@,
            closed: self.closed,
            aabb: self.aabb,
        }
    }
}

impl View for SurfacePath {
    type V = SurfacePathView;

    open spec fn view(&self) -> SurfacePathView {
        SurfacePathView {
            i_start: self.i_start,
            i_end: self.i_end,
            d_start: self.d_start,
            d_end: self.d_end,
            axis: self.axis,
            path: self.path@,
            aabb: self.aabb,
        }
    }
}

impl SlicePathView {
    /// The box is the least one around the points.
    pub open spec fn wf(self) -> bool {
        self.aabb == spec_aabb_from_points(self.points)
    }
}

/// The views of a sequence of paths.
pub open spec fn slice_path_views(paths: Seq<SlicePath>) -> Seq<SlicePathView> {
    paths.map_values(|p: SlicePath| p@)
}

/// The views of the paths of each stride.
pub open spec fn strides_view(strides: Seq<Vec<SlicePath>>) -> Seq<Seq<SlicePathView>> {
    strides.map_values(|s: Vec<SlicePath>| slice_path_views(s@))
}

/// The strides that still hold a path.
pub open spec fn has_paths() -> spec_fn(Seq<SlicePathView>) -> bool {
    |s: Seq<SlicePathView>| s.len() > 0
}

/// The coordinates of `points` at position `h`.
pub open spec fn spec_coords(points: Seq<Point3>, h: int) -> Seq<i64> {
    points.map_values(|p: Point3| p.at(h))
}

/// A path with its points in ascending order of the coordinate at `h`.
pub open spec fn spec_tidy(p: SlicePathView, h: int) -> SlicePathView {
    SlicePathView { points: spec_sort(p.points, spec_coords(p.points, h)).0, ..p }
}

/// The open paths of a stride that have a point, each with its points in
/// ascending order of the coordinate at `h`.
pub open spec fn spec_tidy_all(paths: Seq<SlicePathView>, h: int) -> Seq<SlicePathView>
    decreases paths.len(),
{
    if paths.len() == 0 {
        Seq::empty()
    } else if paths.last().closed || paths.last().points.len() == 0 {
        spec_tidy_all(paths.drop_last(), h)
    } else {
        spec_tidy_all(paths.drop_last(), h).push(spec_tidy(paths.last(), h))
    }
}

/// The coordinate at `h` of the first point of each path.
pub open spec fn spec_heads(paths: Seq<SlicePathView>, h: int) -> Seq<i64> {
    paths.map_values(|p: SlicePathView| p.points.first().at(h))
}

/// `next` appended to `prev`: the points of both, the box around both, the
/// rest as `prev` has it.
pub open spec fn spec_fuse(prev: SlicePathView, next: SlicePathView) -> SlicePathView {
    SlicePathView { points: prev.points + next.points, aabb: prev.aabb.spec_join(next.aabb), ..prev }
}

/// Neighbouring paths are fused where the last point of the earlier one and
/// the first point of the later one are close, as `join` judges it.
pub open spec fn spec_merge(paths: Seq<SlicePathView>, join: spec_fn(Point3, Point3) -> bool) -> Seq<
    SlicePathView,
>
    decreases paths.len(),
{
    if paths.len() == 0 {
        Seq::empty()
    } else {
        let merged = spec_merge(paths.drop_last(), join);
        let ring = paths.last();
        if merged.len() > 0 && join(merged.last().points.last(), ring.points.first()) {
            merged.drop_last().push(spec_fuse(merged.last(), ring))
        } else {
            merged.push(ring)
        }
    }
}

/// A stride made ready for chaining: its open paths that have a point, the
/// points of each in ascending order of the coordinate at `h`, the paths in
/// ascending order of their first point, neighbours fused where they join.
pub open spec fn spec_prepare_stride(
    paths: Seq<SlicePathView>,
    h: int,
    join: spec_fn(Point3, Point3) -> bool,
) -> Seq<SlicePathView> {
    let tidy = spec_tidy_all(paths, h);
    spec_merge(spec_sort(tidy, spec_heads(tidy, h)).0, join)
}

/// Every stride made ready for chaining.
pub open spec fn spec_prepare(
    strides: Seq<Seq<SlicePathView>>,
    h: int,
    join: spec_fn(Point3, Point3) -> bool,
) -> Seq<Seq<SlicePathView>>
    decreases strides.len(),
{
    if strides.len() == 0 {
        Seq::empty()
    } else {
        spec_prepare(strides.drop_last(), h, join).push(
            spec_prepare_stride(strides.last(), h, join),
        )
    }
}

/// The surface path that starts as `seed`.
pub open spec fn spec_seed(seed: SlicePathView) -> SurfacePathView {
    SurfacePathView {
        i_start: seed.i,
        i_end: seed.i,
        d_start: seed.d,
        d_end: seed.d,
        axis: seed.axis,
        path: seed.points,
        aabb: seed.aabb,
    }
}

/// The extents of `ring` and of `item` along `h` meet or overlap, where
/// `overlap` allows a small gap.
pub open spec fn spec_reachable(
    ring: SlicePathView,
    item: SurfacePathView,
    h: int,
    overlap: spec_fn(i64, i64) -> bool,
) -> bool {
    &&& ring.aabb.max.at(h) > item.aabb.min.at(h) || overlap(
        ring.aabb.max.at(h),
        item.aabb.min.at(h),
    )
    &&& ring.aabb.min.at(h) < item.aabb.max.at(h) || overlap(
        ring.aabb.min.at(h),
        item.aabb.max.at(h),
    )
}

/// The best of the first `n` paths of `stride` to continue `item` with: a
/// reachable one with an end nearest to the last point of `item`, the
/// earliest such path where several are as near. With it come whether its
/// last point is the nearer end and the measure of the nearer end.
pub open spec fn spec_pick(
    stride: Seq<SlicePathView>,
    n: int,
    item: SurfacePathView,
    h: int,
    overlap: spec_fn(i64, i64) -> bool,
    measure: spec_fn(Point3, Point3) -> i64,
) -> Option<(int, bool, i64)>
    decreases n,
{
    if n <= 0 {
        None
    } else {
        let best = spec_pick(stride, n - 1, item, h, overlap, measure);
        let ring = stride[n - 1];
        if spec_reachable(ring, item, h, overlap) {
            let to_first = measure(item.path.last(), ring.points.first());
            let to_last = measure(item.path.last(), ring.points.last());
            let nearer = spec_min(to_first, to_last);
            if best is None || nearer < best.unwrap().2 {
                Some((n - 1, to_first > to_last, nearer))
            } else {
                best
            }
        } else {
            best
        }
    }
}

/// `item` continued with `ring`, which is travelled backwards where
/// `backwards` says so.
pub open spec fn spec_extend(item: SurfacePathView, ring: SlicePathView, backwards: bool) -> SurfacePathView {
    SurfacePathView {
        i_end: ring.i,
        d_end: ring.d,
        path: item.path + if backwards {
            ring.points.reverse()
        } else {
            ring.points
        },
        aabb: item.aabb.spec_join(ring.aabb),
        ..item
    }
}

/// A stride and `item` after the best path of the stride, if there is one,
/// has moved from the stride to the end of `item`.
pub open spec fn spec_join_stride(
    stride: Seq<SlicePathView>,
    item: SurfacePathView,
    h: int,
    overlap: spec_fn(i64, i64) -> bool,
    measure: spec_fn(Point3, Point3) -> i64,
) -> (Seq<SlicePathView>, SurfacePathView) {
    match spec_pick(stride, stride.len() as int, item, h, overlap, measure) {
        Some((at, backwards, _)) => (stride.remove(at), spec_extend(item, stride[at], backwards)),
        None => (stride, item),
    }
}

/// `item` is chained across `strides`, one after the other, as long as each
/// is the neighbour of the stride that `item` ends in.
pub open spec fn spec_chain_across(
    strides: Seq<Seq<SlicePathView>>,
    item: SurfacePathView,
    h: int,
    overlap: spec_fn(i64, i64) -> bool,
    measure: spec_fn(Point3, Point3) -> i64,
) -> (Seq<Seq<SlicePathView>>, SurfacePathView)
    decreases strides.len(),
{
    if strides.len() == 0 {
        (strides, item)
    } else if strides.first().len() == 0 || strides.first().first().i != item.i_end + 1 {
        (strides, item)
    } else {
        let (stride, longer) = spec_join_stride(strides.first(), item, h, overlap, measure);
        let (rest, whole) = spec_chain_across(strides.drop_first(), longer, h, overlap, measure);
        (seq![stride] + rest, whole)
    }
}

/// The next surface path and the strides that are left. Empty strides are
/// dropped; the last path of the first stride seeds the surface path, which
/// is then chained across the strides that follow.
pub open spec fn spec_next(
    strides: Seq<Seq<SlicePathView>>,
    h: int,
    overlap: spec_fn(i64, i64) -> bool,
    measure: spec_fn(Point3, Point3) -> i64,
) -> (Seq<Seq<SlicePathView>>, Option<SurfacePathView>) {
    let live = strides.filter(has_paths());
    if live.len() == 0 {
        (live, None)
    } else {
        let (rest, whole) = spec_chain_across(
            live.drop_first(),
            spec_seed(live.first().last()),
            h,
            overlap,
            measure,
        );
        (seq![live.first().drop_last()] + rest, Some(whole))
    }
}

/// Number of paths in all strides together.
pub open spec fn spec_total(strides: Seq<Seq<SlicePathView>>) -> nat
    decreases strides.len(),
{
    if strides.len() == 0 {
        0
    } else {
        spec_total(strides.drop_last()) + strides.last().len()
    }
}

/// The paths of two runs of strides are the paths of the one and of the
/// other.
pub proof fn lemma_total_add(a: Seq<Seq<SlicePathView>>, b: Seq<Seq<SlicePathView>>)
    ensures
        spec_total(a + b) == spec_total(a) + spec_total(b),
    decreases b.len(),
{
    if b.len() == 0 {
        assert(a + b =~= a);
    } else {
        lemma_total_add(a, b.drop_last());
        assert((a + b).drop_last() =~= a + b.drop_last());
    }
}

/// Dropping the strides without paths drops no path.
pub proof fn lemma_total_live(strides: Seq<Seq<SlicePathView>>)
    ensures
        spec_total(strides.filter(has_paths())) == spec_total(strides),
    decreases strides.len(),
{
    reveal(Seq::filter);
    if strides.len() > 0 {
        lemma_total_live(strides.drop_last());
        lemma_filter_push(strides.drop_last(), strides.last(), has_paths());
        assert(strides =~= strides.drop_last().push(strides.last()));
        assert(strides.drop_last().filter(has_paths()).push(strides.last()).drop_last()
            =~= strides.drop_last().filter(has_paths()));
    }
}

/// Chaining adds no path to the strides.
pub proof fn lemma_total_chain(
    strides: Seq<Seq<SlicePathView>>,
    item: SurfacePathView,
    h: int,
    overlap: spec_fn(i64, i64) -> bool,
    measure: spec_fn(Point3, Point3) -> i64,
)
    ensures
        spec_total(spec_chain_across(strides, item, h, overlap, measure).0) <= spec_total(strides),
    decreases strides.len(),
{
    if strides.len() > 0 && !(strides.first().len() == 0 || strides.first().first().i != item.i_end
        + 1) {
        let (stride, longer) = spec_join_stride(strides.first(), item, h, overlap, measure);
        let (rest, whole) = spec_chain_across(strides.drop_first(), longer, h, overlap, measure);
        lemma_total_chain(strides.drop_first(), longer, h, overlap, measure);
        lemma_total_add(seq![stride], rest);
        lemma_total_add(seq![strides.first()], strides.drop_first());
        assert(seq![strides.first()] + strides.drop_first() =~= strides);
        lemma_total_one(stride);
        lemma_total_one(strides.first());
        lemma_pick_in_range(strides.first(), strides.first().len() as int, item, h, overlap, measure);
    }
}

proof fn lemma_total_one(stride: Seq<SlicePathView>)
    ensures
        spec_total(seq![stride]) == stride.len(),
{
    reveal_with_fuel(spec_total, 2);
    assert(seq![stride].drop_last() =~= Seq::<Seq<SlicePathView>>::empty());
}

proof fn lemma_pick_in_range(
    stride: Seq<SlicePathView>,
    n: int,
    item: SurfacePathView,
    h: int,
    overlap: spec_fn(i64, i64) -> bool,
    measure: spec_fn(Point3, Point3) -> i64,
)
    requires
        n <= stride.len(),
    ensures
        spec_pick(stride, n, item, h, overlap, measure) matches Some(best) ==> 0 <= best.0 < n,
    decreases n,
{
    if n > 0 {
        lemma_pick_in_range(stride, n - 1, item, h, overlap, measure);
    }
}

/// Every surface path that is chained takes at least one path out of the
/// strides; where none is chained, no path was left.
pub proof fn lemma_next_shrinks(
    strides: Seq<Seq<SlicePathView>>,
    h: int,
    overlap: spec_fn(i64, i64) -> bool,
    measure: spec_fn(Point3, Point3) -> i64,
)
    ensures
        spec_next(strides, h, overlap, measure).1 is Some ==> spec_total(
            spec_next(strides, h, overlap, measure).0,
        ) < spec_total(strides),
        spec_next(strides, h, overlap, measure).1 is None ==> spec_total(strides) == 0
            && spec_next(strides, h, overlap, measure).0.len() == 0,
{
    let live = strides.filter(has_paths());
    lemma_total_live(strides);
    if live.len() > 0 {
        strides.lemma_filter_pred(has_paths(), 0);
        let seed = spec_seed(live.first().last());
        let (rest, whole) = spec_chain_across(live.drop_first(), seed, h, overlap, measure);
        lemma_total_chain(live.drop_first(), seed, h, overlap, measure);
        lemma_total_add(seq![live.first().drop_last()], rest);
        lemma_total_add(seq![live.first()], live.drop_first());
        assert(seq![live.first()] + live.drop_first() =~= live);
        lemma_total_one(live.first().drop_last());
        lemma_total_one(live.first());
    }
}

/// All surface paths, in the order in which `next` chains them.
pub open spec fn spec_collect(
    strides: Seq<Seq<SlicePathView>>,
    h: int,
    overlap: spec_fn(i64, i64) -> bool,
    measure: spec_fn(Point3, Point3) -> i64,
) -> Seq<SurfacePathView>
    decreases spec_total(strides),
{
    let (rest, item) = spec_next(strides, h, overlap, measure);
    match item {
        Some(path) => {
            proof {
                lemma_next_shrinks(strides, h, overlap, measure);
            }
            seq![path] + spec_collect(rest, h, overlap, measure)
        },
        None => Seq::empty(),
    }
}

/// The views of a sequence of surface paths.
pub open spec fn surface_path_views(paths: Seq<SurfacePath>) -> Seq<SurfacePathView> {
    paths.map_values(|p: SurfacePath| p@)
}

/// The closed paths.
pub open spec fn is_closed() -> spec_fn(SlicePathView) -> bool {
    |p: SlicePathView| p.closed
}

/// The paths of all strides, stride after stride.
pub open spec fn spec_flatten(strides: Seq<Seq<SlicePathView>>) -> Seq<SlicePathView>
    decreases strides.len(),
{
    if strides.len() == 0 {
        Seq::empty()
    } else {
        spec_flatten(strides.drop_last()) + strides.last()
    }
}

/// Every path of every stride has a point.
pub open spec fn all_pointed(strides: Seq<Seq<SlicePathView>>) -> bool {
    forall|s: int, k: int|
        0 <= s < strides.len() && 0 <= k < strides[s].len() ==> (#[trigger] strides[s][k]).points.len()
            > 0
}

/// Chains the paths of the strides of a surface into long surface paths,
/// one for each call of `next`.
pub struct SurfacePathIterator {
    slices: Vec<Vec<SlicePath>>,
    axis: Axis,
}

fn coords_of(points: &Vec<Point3>, h: usize) -> (keys: Vec<i64>)
    requires
        h < 3,
    ensures
        keys@ == spec_coords(points@, h as int),
{
    let mut keys: Vec<i64> = Vec::new();
    let mut i: usize = 0;
    while i < points.len()
        invariant
            i <= points.len(),
            h < 3,
            keys@ == spec_coords(points@.take(i as int), h as int),
        decreases points.len() - i,
    {
        keys.push(points[i].coord(h));
        proof {
            assert(points@.take(i + 1) =~= points@.take(i as int).push(points[i as int]));
            assert(keys@ =~= spec_coords(points@.take(i + 1), h as int));
        }
        i = i + 1;
    }
    proof {
        assert(points@.take(i as int) =~= points@);
    }
    keys
}

/// The open paths of `paths` that have a point, each with its points
/// sorted along `h`.
fn tidy_all(paths: Vec<SlicePath>, h: usize) -> (tidy: Vec<SlicePath>)
    requires
        h < 3,
    ensures
        slice_path_views(tidy@) == spec_tidy_all(slice_path_views(paths@), h as int),
        forall|k: int| 0 <= k < tidy.len() ==> (#[trigger] tidy[k]).points.len() > 0,
{
    let ghost all = slice_path_views(paths@);
    let n = paths.len();
    let mut src = reversed(paths);
    let mut tidy: Vec<SlicePath> = Vec::new();
    proof {
        assert(all.take(0) =~= Seq::<SlicePathView>::empty());
        assert(slice_path_views(tidy@) =~= Seq::<SlicePathView>::empty());
    }
    while src.len() > 0
        invariant
            h < 3,
            src.len() <= n,
            n == all.len(),
            forall|j: int| 0 <= j < src.len() ==> (#[trigger] src[j])@ == all[n - 1 - j],
            forall|k: int| 0 <= k < tidy.len() ==> (#[trigger] tidy[k]).points.len() > 0,
            slice_path_views(tidy@) == spec_tidy_all(all.take(n - src.len()), h as int),
        decreases src.len(),
    {
        let ghost i = n - src.len();
        let ghost before = tidy@;
        let path = src.pop().unwrap();
        proof {
            assert(all.take(i + 1).drop_last() =~= all.take(i));
            assert(all.take(i + 1).last() == path@);
        }
        if !path.closed && path.points.len() > 0 {
            let SlicePath { i, d, axis, points, closed, aabb } = path;
            let keys = coords_of(&points, h);
            let (sorted, _) = sort_by_keys(points, &keys);
            tidy.push(SlicePath { i, d, axis, points: sorted, closed, aabb });
            proof {
                assert(slice_path_views(tidy@) =~= slice_path_views(before).push(
                    spec_tidy(path@, h as int),
                ));
            }
        }
    }
    proof {
        assert(all.take(n as int) =~= all);
    }
    tidy
}

fn heads_of(paths: &Vec<SlicePath>, h: usize) -> (keys: Vec<i64>)
    requires
        h < 3,
        forall|k: int| 0 <= k < paths.len() ==> (#[trigger] paths[k]).points.len() > 0,
    ensures
        keys@ == spec_heads(slice_path_views(paths@), h as int),
{
    let mut keys: Vec<i64> = Vec::new();
    let mut i: usize = 0;
    while i < paths.len()
        invariant
            i <= paths.len(),
            h < 3,
            forall|k: int| 0 <= k < paths.len() ==> (#[trigger] paths[k]).points.len() > 0,
            keys@ == spec_heads(slice_path_views(paths@.take(i as int)), h as int),
        decreases paths.len() - i,
    {
        keys.push(paths[i].points[0].coord(h));
        proof {
            assert(paths@.take(i + 1) =~= paths@.take(i as int).push(paths[i as int]));
            assert(keys@ =~= spec_heads(slice_path_views(paths@.take(i + 1)), h as int));
        }
        i = i + 1;
    }
    proof {
        assert(paths@.take(i as int) =~= paths@);
    }
    keys
}

/// Fuses neighbouring paths that join.
fn merge<J: Fn(Point3, Point3) -> bool>(paths: Vec<SlicePath>, joins: &J) -> (merged: Vec<SlicePath>)
    requires
        asks_points(joins),
        forall|k: int| 0 <= k < paths.len() ==> (#[trigger] paths[k]).points.len() > 0,
    ensures
        forall|k: int| 0 <= k < merged.len() ==> (#[trigger] merged[k]).points.len() > 0,
        forall|join: spec_fn(Point3, Point3) -> bool| #[trigger]
            tells_points(joins, join) ==> slice_path_views(merged@) == spec_merge(
                slice_path_views(paths@),
                join,
            ),
{
    let ghost all = slice_path_views(paths@);
    let n = paths.len();
    let mut src = reversed(paths);
    let mut merged: Vec<SlicePath> = Vec::new();
    proof {
        assert(all.take(0) =~= Seq::<SlicePathView>::empty());
        assert(slice_path_views(merged@) =~= Seq::<SlicePathView>::empty());
    }
    while src.len() > 0
        invariant
            asks_points(joins),
            src.len() <= n,
            n == all.len(),
            forall|j: int| 0 <= j < src.len() ==> (#[trigger] src[j])@ == all[n - 1 - j],
            forall|j: int| 0 <= j < src.len() ==> (#[trigger] src[j]).points.len() > 0,
            forall|k: int| 0 <= k < merged.len() ==> (#[trigger] merged[k]).points.len() > 0,
            forall|join: spec_fn(Point3, Point3) -> bool| #[trigger]
                tells_points(joins, join) ==> slice_path_views(merged@) == spec_merge(
                    all.take(n - src.len()),
                    join,
                ),
        decreases src.len(),
    {
        let ghost i = n - src.len();
        let ghost before = merged@;
        let ring = src.pop().unwrap();
        proof {
            assert(all.take(i + 1).drop_last() =~= all.take(i));
            assert(all.take(i + 1).last() == ring@);
        }
        let fits = if merged.len() > 0 {
            let prev = &merged[merged.len() - 1];
            joins(prev.points[prev.points.len() - 1], ring.points[0])
        } else {
            false
        };
        if fits {
            let mut prev = merged.pop().unwrap();
            let ghost prev_view = prev@;
            let mut ring = ring;
            prev.points.append(&mut ring.points);
            prev.aabb = prev.aabb.join(&ring.aabb);
            merged.push(prev);
            proof {
                assert(slice_path_views(merged@) =~= slice_path_views(before).drop_last().push(
                    spec_fuse(prev_view, all[i]),
                ));
            }
        } else {
            merged.push(ring);
            proof {
                assert(slice_path_views(merged@) =~= slice_path_views(before).push(all[i]));
            }
        }
    }
    proof {
        assert(all.take(n as int) =~= all);
    }
    merged
}

/// Makes one stride ready for chaining.
fn prepare_stride<J: Fn(Point3, Point3) -> bool>(paths: Vec<SlicePath>, h: usize, joins: &J) -> (ready:
    Vec<SlicePath>)
    requires
        h < 3,
        asks_points(joins),
    ensures
        forall|k: int| 0 <= k < ready.len() ==> (#[trigger] ready[k]).points.len() > 0,
        forall|join: spec_fn(Point3, Point3) -> bool| #[trigger]
            tells_points(joins, join) ==> slice_path_views(ready@) == spec_prepare_stride(
                slice_path_views(paths@),
                h as int,
                join,
            ),
{
    let tidy = tidy_all(paths, h);
    let keys = heads_of(&tidy, h);
    let ghost tidy_seq = tidy@;
    let (ordered, _) = sort_by_keys(tidy, &keys);
    proof {
        lemma_sort_map(tidy_seq, keys@, |p: SlicePath| p@);
        assert forall|k: int| 0 <= k < ordered.len() implies (#[trigger] ordered[k]).points.len()
            > 0 by {
            lemma_sort_member(tidy_seq, keys@, k);
        }
    }
    merge(ordered, joins)
}

/// What `best` holds is what `model` holds.
pub open spec fn same_pick(best: Option<(usize, bool, i64)>, model: Option<(int, bool, i64)>) -> bool {
    match (best, model) {
        (Some(b), Some(m)) => b.0 == m.0 && b.1 == m.1 && b.2 == m.2,
        (None, None) => true,
        _ => false,
    }
}

/// The view of a surface path that may be missing.
pub open spec fn spec_found(item: Option<SurfacePath>) -> Option<SurfacePathView> {
    match item {
        Some(p) => Some(p@),
        None => None,
    }
}

/// Whether the extents of `ring` and of `item` along `h` meet or overlap.
fn reachable<O: Fn(i64, i64) -> bool>(ring: &SlicePath, item: &SurfacePath, h: usize, overlaps: &O) -> (r:
    bool)
    requires
        h < 3,
        asks_coords(overlaps),
    ensures
        forall|overlap: spec_fn(i64, i64) -> bool| #[trigger]
            tells_coords(overlaps, overlap) ==> r == spec_reachable(ring@, item@, h as int, overlap),
{
    let a = ring.aabb.max.coord(h);
    let b = item.aabb.min.coord(h);
    if !(a > b || overlaps(a, b)) {
        return false;
    }
    let a = ring.aabb.min.coord(h);
    let b = item.aabb.max.coord(h);
    a < b || overlaps(a, b)
}

/// The best path of `stride` to continue `item` with.
fn pick<O: Fn(i64, i64) -> bool, D: Fn(Point3, Point3) -> i64>(
    stride: &Vec<SlicePath>,
    item: &SurfacePath,
    h: usize,
    overlaps: &O,
    dist: &D,
) -> (best: Option<(usize, bool, i64)>)
    requires
        h < 3,
        asks_coords(overlaps),
        asks_measure(dist),
        item.path.len() > 0,
        forall|k: int| 0 <= k < stride.len() ==> (#[trigger] stride[k]).points.len() > 0,
    ensures
        best matches Some(b) ==> b.0 < stride.len(),
        forall|overlap: spec_fn(i64, i64) -> bool, measure: spec_fn(Point3, Point3) -> i64|
            #![trigger tells_coords(overlaps, overlap), tells_measure(dist, measure)]
            tells_coords(overlaps, overlap) && tells_measure(dist, measure) ==> same_pick(
                best,
                spec_pick(
                    slice_path_views(stride@),
                    stride.len() as int,
                    item@,
                    h as int,
                    overlap,
                    measure,
                ),
            ),
{
    let last = item.path[item.path.len() - 1];
    let mut best: Option<(usize, bool, i64)> = None;
    let mut n: usize = 0;
    while n < stride.len()
        invariant
            n <= stride.len(),
            h < 3,
            asks_coords(overlaps),
            asks_measure(dist),
            item.path.len() > 0,
            last == item.path@.last(),
            forall|k: int| 0 <= k < stride.len() ==> (#[trigger] stride[k]).points.len() > 0,
            best matches Some(b) ==> b.0 < stride.len(),
            forall|overlap: spec_fn(i64, i64) -> bool, measure: spec_fn(Point3, Point3) -> i64|
                #![trigger tells_coords(overlaps, overlap), tells_measure(dist, measure)]
                tells_coords(overlaps, overlap) && tells_measure(dist, measure) ==> same_pick(
                    best,
                    spec_pick(slice_path_views(stride@), n as int, item@, h as int, overlap, measure),
                ),
        decreases stride.len() - n,
    {
        let ring = &stride[n];
        if reachable(ring, item, h, overlaps) {
            let to_first = dist(last, ring.points[0]);
            let to_last = dist(last, ring.points[ring.points.len() - 1]);
            let nearer = if to_last < to_first {
                to_last
            } else {
                to_first
            };
            let better = match best {
                None => true,
                Some(b) => nearer < b.2,
            };
            if better {
                best = Some((n, to_first > to_last, nearer));
            }
        }
        n = n + 1;
    }
    best
}

impl SurfacePathIterator {
    /// The strides with the paths that are still to be chained.
    pub closed spec fn spec_strides(&self) -> Seq<Seq<SlicePathView>> {
        strides_view(self.slices@)
    }

    /// The axis along which the strides were cut.
    pub closed spec fn spec_axis(&self) -> Axis {
        self.axis
    }

    /// Every path that waits has a point.
    #[verifier::type_invariant]
    pub closed spec fn wf(&self) -> bool {
        all_pointed(strides_view(self.slices@))
    }

    /// Position of the axis along which the paths of a stride are ordered:
    /// the first of the two axes other than the axis of the cut.
    pub open spec fn spec_h(&self) -> int {
        self.spec_axis().spec_other().0.spec_index()
    }

    /// Makes the strides of a surface ready for chaining. `strides` holds
    /// the paths of the planes along `axis`, plane by plane; `joins` says
    /// whether two points are close enough for their paths to be fused.
    pub fn new<J: Fn(Point3, Point3) -> bool>(strides: Vec<Vec<SlicePath>>, axis: Axis, joins: &J) -> (it:
        SurfacePathIterator)
        requires
            asks_points(joins),
        ensures
            it.spec_axis() == axis,
            forall|join: spec_fn(Point3, Point3) -> bool| #[trigger]
                tells_points(joins, join) ==> it.spec_strides() == spec_prepare(
                    strides_view(strides@),
                    axis.spec_other().0.spec_index(),
                    join,
                ),
    {
        let h = axis.other().0.index();
        let ghost all = strides_view(strides@);
        let n = strides.len();
        let mut src = reversed(strides);
        let mut slices: Vec<Vec<SlicePath>> = Vec::new();
        proof {
            assert(all.take(0) =~= Seq::<Seq<SlicePathView>>::empty());
            assert(strides_view(slices@) =~= Seq::<Seq<SlicePathView>>::empty());
        }
        while src.len() > 0
            invariant
                h < 3,
                asks_points(joins),
                src.len() <= n,
                n == all.len(),
                forall|j: int| 0 <= j < src.len() ==> slice_path_views((#[trigger] src[j])@) == all[n - 1 - j],
                all_pointed(strides_view(slices@)),
                forall|join: spec_fn(Point3, Point3) -> bool| #[trigger]
                    tells_points(joins, join) ==> strides_view(slices@) == spec_prepare(
                        all.take(n - src.len()),
                        h as int,
                        join,
                    ),
            decreases src.len(),
        {
            let ghost i = n - src.len();
            let ghost before = slices@;
            let stride = src.pop().unwrap();
            proof {
                assert(all.take(i + 1).drop_last() =~= all.take(i));
                assert(all.take(i + 1).last() == slice_path_views(stride@));
            }
            let ready = prepare_stride(stride, h, joins);
            let ghost ready_view = slice_path_views(ready@);
            slices.push(ready);
            proof {
                assert(strides_view(slices@) =~= strides_view(before).push(ready_view));
                assert forall|s: int, k: int|
                    0 <= s < strides_view(slices@).len() && 0 <= k < strides_view(
                        slices@,
                    )[s].len() implies (#[trigger] strides_view(slices@)[s][k]).points.len() > 0 by {
                    if s < before.len() {
                        assert(strides_view(before)[s][k].points.len() > 0);
                    } else {
                        assert(ready_view[k] == ready@[k]@);
                    }
                }
            }
        }
        proof {
            assert(all.take(n as int) =~= all);
        }
        SurfacePathIterator { slices, axis }
    }

    /// Chains the next surface path, or returns `None` where no path is
    /// left. `overlaps` says whether two coordinates are close enough for
    /// extents that end there to count as meeting; `dist` measures how far
    /// its second argument lies from its first.
    pub fn next<O: Fn(i64, i64) -> bool, D: Fn(Point3, Point3) -> i64>(
        &mut self,
        overlaps: &O,
        dist: &D,
    ) -> (item: Option<SurfacePath>)
        requires
            asks_coords(overlaps),
            asks_measure(dist),
        ensures
            final(self).spec_axis() == old(self).spec_axis(),
            item is Some ==> spec_total(final(self).spec_strides()) < spec_total(
                old(self).spec_strides(),
            ),
            item is None ==> spec_total(old(self).spec_strides()) == 0,
            item is None ==> final(self).spec_strides().len() == 0,
            forall|overlap: spec_fn(i64, i64) -> bool, measure: spec_fn(Point3, Point3) -> i64|
                #![trigger tells_coords(overlaps, overlap), tells_measure(dist, measure)]
                tells_coords(overlaps, overlap) && tells_measure(dist, measure) ==> (
                    final(self).spec_strides(),
                    spec_found(item),
                ) == spec_next(old(self).spec_strides(), old(self).spec_h(), overlap, measure),
    {
        proof {
            use_type_invariant(&*self);
        }
        let ghost all = strides_view(self.slices@);
        let mut taken = SurfacePathIterator { slices: Vec::new(), axis: self.axis };
        std::mem::swap(self, &mut taken);
        let SurfacePathIterator { slices: waiting, axis } = taken;
        let h = axis.other().0.index();
        let live = keep_live(waiting);
        let ghost live_view = strides_view(live@);
        proof {
            lemma_total_live(all);
        }
        if live.len() == 0 {
            proof {
                assert(live_view =~= Seq::<Seq<SlicePathView>>::empty());
            }
            *self = SurfacePathIterator { slices: live, axis };
            return None;
        }
        let mut src = reversed(live);
        let mut first = src.pop().unwrap();
        let ghost first_view = slice_path_views(first@);
        let seed = first.pop().unwrap();
        let ghost first_left = slice_path_views(first@);
        let item = SurfacePath {
            i_start: seed.i,
            i_end: seed.i,
            d_start: seed.d,
            d_end: seed.d,
            axis: seed.axis,
            path: seed.points,
            aabb: seed.aabb,
        };
        let ghost item0 = item@;
        let rest = reversed(src);
        let ghost tail = strides_view(rest@);
        proof {
            assert(first_view == live_view.first());
            assert(first_left =~= first_view.drop_last());
            assert(item0 == spec_seed(live_view.first().last()));
            assert(tail =~= live_view.drop_first());
            assert forall|s: int, k: int|
                0 <= s < tail.len() && 0 <= k < tail[s].len() implies (#[trigger] tail[s][k]).points.len()
                > 0 by {
                assert(live_view[s + 1][k].points.len() > 0);
            }
            assert(seq![first_view] + tail =~= live_view);
            lemma_total_add(seq![first_view], tail);
            lemma_total_one(first_view);
            lemma_total_one(first_left);
        }
        let (chained, item) = chain_across(rest, item, h, overlaps, dist);
        let ghost chained_view = strides_view(chained@);
        let mut done: Vec<Vec<SlicePath>> = Vec::new();
        done.push(first);
        let mut chained = chained;
        done.append(&mut chained);
        let ghost done_view = strides_view(done@);
        proof {
            assert(done_view =~= seq![first_left] + chained_view);
            lemma_total_add(seq![first_left], chained_view);
            assert forall|s: int, k: int|
                0 <= s < done_view.len() && 0 <= k < done_view[s].len() implies (#[trigger] done_view[s][k]).points.len()
                > 0 by {
                if s == 0 {
                    assert(first_left[k] == first_view[k]);
                    assert(live_view[0][k].points.len() > 0);
                } else {
                    assert(chained_view[s - 1][k].points.len() > 0);
                }
            }
        }
        *self = SurfacePathIterator { slices: done, axis };
        Some(item)
    }

    /// Chains every surface path that is left and returns them in the order
    /// in which `next` would have. No path is left afterwards.
    pub fn collect<O: Fn(i64, i64) -> bool, D: Fn(Point3, Point3) -> i64>(
        &mut self,
        overlaps: &O,
        dist: &D,
    ) -> (paths: Vec<SurfacePath>)
        requires
            asks_coords(overlaps),
            asks_measure(dist),
        ensures
            final(self).spec_axis() == old(self).spec_axis(),
            final(self).spec_strides().len() == 0,
            forall|overlap: spec_fn(i64, i64) -> bool, measure: spec_fn(Point3, Point3) -> i64|
                #![trigger tells_coords(overlaps, overlap), tells_measure(dist, measure)]
                tells_coords(overlaps, overlap) && tells_measure(dist, measure) ==> surface_path_views(
                    paths@,
                ) == spec_collect(old(self).spec_strides(), old(self).spec_h(), overlap, measure),
    {
        let ghost start = self.spec_strides();
        let ghost h = self.spec_h();
        let mut paths: Vec<SurfacePath> = Vec::new();
        proof {
            assert forall|overlap: spec_fn(i64, i64) -> bool, measure: spec_fn(Point3, Point3) -> i64|
                #![trigger tells_coords(overlaps, overlap), tells_measure(dist, measure)]
                tells_coords(overlaps, overlap) && tells_measure(dist, measure) implies surface_path_views(
                paths@,
            ) + spec_collect(self.spec_strides(), h, overlap, measure) == spec_collect(
                start,
                h,
                overlap,
                measure,
            ) by {
                assert(surface_path_views(paths@) + spec_collect(start, h, overlap, measure)
                    =~= spec_collect(start, h, overlap, measure));
            }
        }
        loop
            invariant_except_break
                forall|overlap: spec_fn(i64, i64) -> bool, measure: spec_fn(Point3, Point3) -> i64|
                    #![trigger tells_coords(overlaps, overlap), tells_measure(dist, measure)]
                    tells_coords(overlaps, overlap) && tells_measure(dist, measure) ==> surface_path_views(
                        paths@,
                    ) + spec_collect(self.spec_strides(), h, overlap, measure) == spec_collect(
                        start,
                        h,
                        overlap,
                        measure,
                    ),
            invariant
                asks_coords(overlaps),
                asks_measure(dist),
                self.spec_axis() == old(self).spec_axis(),
                h == self.spec_h(),
            ensures
                self.spec_strides().len() == 0,
                forall|overlap: spec_fn(i64, i64) -> bool, measure: spec_fn(Point3, Point3) -> i64|
                    #![trigger tells_coords(overlaps, overlap), tells_measure(dist, measure)]
                    tells_coords(overlaps, overlap) && tells_measure(dist, measure) ==> surface_path_views(
                        paths@,
                    ) == spec_collect(start, h, overlap, measure),
            decreases spec_total(self.spec_strides()),
        {
            let ghost before = self.spec_strides();
            let ghost got = paths@;
            match self.next(overlaps, dist) {
                Some(path) => {
                    let ghost view = path@;
                    paths.push(path);
                    proof {
                        assert(surface_path_views(paths@) =~= surface_path_views(got).push(view));
                        assert forall|
                            overlap: spec_fn(i64, i64) -> bool,
                            measure: spec_fn(Point3, Point3) -> i64,
                        |
                            #![trigger tells_coords(overlaps, overlap), tells_measure(dist, measure)]
                            tells_coords(overlaps, overlap) && tells_measure(
                                dist,
                                measure,
                            ) implies surface_path_views(paths@) + spec_collect(
                            self.spec_strides(),
                            h,
                            overlap,
                            measure,
                        ) == spec_collect(start, h, overlap, measure) by {
                            assert(surface_path_views(paths@) + spec_collect(
                                self.spec_strides(),
                                h,
                                overlap,
                                measure,
                            ) =~= surface_path_views(got) + (seq![view] + spec_collect(
                                self.spec_strides(),
                                h,
                                overlap,
                                measure,
                            )));
                        }
                    }
                },
                None => {
                    proof {
                        assert forall|
                            overlap: spec_fn(i64, i64) -> bool,
                            measure: spec_fn(Point3, Point3) -> i64,
                        |
                            #![trigger tells_coords(overlaps, overlap), tells_measure(dist, measure)]
                            tells_coords(overlaps, overlap) && tells_measure(
                                dist,
                                measure,
                            ) implies surface_path_views(paths@) == spec_collect(
                            start,
                            h,
                            overlap,
                            measure,
                        ) by {
                            assert(surface_path_views(paths@) + spec_collect(
                                before,
                                h,
                                overlap,
                                measure,
                            ) =~= surface_path_views(paths@));
                        }
                    }
                    break ;
                },
            }
        }
        paths
    }
}

/// The strides that still hold a path, in their order.
fn keep_live(strides: Vec<Vec<SlicePath>>) -> (live: Vec<Vec<SlicePath>>)
    requires
        all_pointed(strides_view(strides@)),
    ensures
        strides_view(live@) == strides_view(strides@).filter(has_paths()),
        all_pointed(strides_view(live@)),
        forall|s: int| 0 <= s < live.len() ==> (#[trigger] live[s]).len() > 0,
{
    let ghost all = strides_view(strides@);
    let n = strides.len();
    let mut src = reversed(strides);
    let mut live: Vec<Vec<SlicePath>> = Vec::new();
    proof {
        reveal(Seq::filter);
        assert(all.take(0) =~= Seq::<Seq<SlicePathView>>::empty());
        assert(strides_view(live@) =~= all.take(0).filter(has_paths()));
    }
    while src.len() > 0
        invariant
            src.len() <= n,
            n == all.len(),
            all_pointed(all),
            forall|j: int| 0 <= j < src.len() ==> slice_path_views((#[trigger] src[j])@) == all[n - 1 - j],
            forall|s: int| 0 <= s < live.len() ==> (#[trigger] live[s]).len() > 0,
            all_pointed(strides_view(live@)),
            strides_view(live@) == all.take(n - src.len()).filter(has_paths()),
        decreases src.len(),
    {
        let ghost i = n - src.len();
        let ghost before = live@;
        let stride = src.pop().unwrap();
        proof {
            assert(all.take(i + 1) =~= all.take(i).push(all[i]));
            lemma_filter_push(all.take(i), all[i], has_paths());
        }
        if stride.len() > 0 {
            live.push(stride);
            proof {
                assert(strides_view(live@) =~= strides_view(before).push(all[i]));
                assert forall|s: int, k: int|
                    0 <= s < strides_view(live@).len() && 0 <= k < strides_view(
                        live@,
                    )[s].len() implies (#[trigger] strides_view(live@)[s][k]).points.len() > 0 by {
                    if s < before.len() {
                        assert(strides_view(before)[s][k].points.len() > 0);
                    } else {
                        assert(all[i][k].points.len() > 0);
                    }
                }
            }
        }
    }
    proof {
        assert(all.take(n as int) =~= all);
    }
    live
}

/// Moves the best path of `stride`, if there is one, to the end of `item`.
fn join_stride<O: Fn(i64, i64) -> bool, D: Fn(Point3, Point3) -> i64>(
    stride: Vec<SlicePath>,
    item: SurfacePath,
    h: usize,
    overlaps: &O,
    dist: &D,
) -> (res: (Vec<SlicePath>, SurfacePath))
    requires
        h < 3,
        asks_coords(overlaps),
        asks_measure(dist),
        item.path.len() > 0,
        forall|k: int| 0 <= k < stride.len() ==> (#[trigger] stride[k]).points.len() > 0,
    ensures
        res.1.path.len() > 0,
        res.1.i_start == item.i_start,
        res.0.len() <= stride.len(),
        forall|k: int| 0 <= k < res.0.len() ==> (#[trigger] res.0[k]).points.len() > 0,
        forall|overlap: spec_fn(i64, i64) -> bool, measure: spec_fn(Point3, Point3) -> i64|
            #![trigger tells_coords(overlaps, overlap), tells_measure(dist, measure)]
            tells_coords(overlaps, overlap) && tells_measure(dist, measure) ==> (
                slice_path_views(res.0@),
                res.1@,
            ) == spec_join_stride(slice_path_views(stride@), item@, h as int, overlap, measure),
{
    let ghost stride_view = slice_path_views(stride@);
    let ghost item_before = item@;
    let mut stride = stride;
    let mut item = item;
    match pick(&stride, &item, h, overlaps, dist) {
        Some((at, backwards, _)) => {
            let ring = stride.remove(at);
            let SlicePath { i, d, axis: _, points, closed: _, aabb } = ring;
            let mut points = if backwards {
                reversed(points)
            } else {
                points
            };
            item.i_end = i;
            item.d_end = d;
            item.path.append(&mut points);
            item.aabb = item.aabb.join(&aabb);
            proof {
                assert(slice_path_views(stride@) =~= stride_view.remove(at as int));
                assert(item@ == spec_extend(item_before, stride_view[at as int], backwards));
            }
        },
        None => {},
    }
    (stride, item)
}

/// Chains `item` across `strides`, one after the other, as long as each is
/// the neighbour of the stride that `item` ends in.
fn chain_across<O: Fn(i64, i64) -> bool, D: Fn(Point3, Point3) -> i64>(
    strides: Vec<Vec<SlicePath>>,
    item: SurfacePath,
    h: usize,
    overlaps: &O,
    dist: &D,
) -> (res: (Vec<Vec<SlicePath>>, SurfacePath))
    requires
        h < 3,
        asks_coords(overlaps),
        asks_measure(dist),
        item.path.len() > 0,
        all_pointed(strides_view(strides@)),
    ensures
        all_pointed(strides_view(res.0@)),
        spec_total(strides_view(res.0@)) <= spec_total(strides_view(strides@)),
        forall|overlap: spec_fn(i64, i64) -> bool, measure: spec_fn(Point3, Point3) -> i64|
            #![trigger tells_coords(overlaps, overlap), tells_measure(dist, measure)]
            tells_coords(overlaps, overlap) && tells_measure(dist, measure) ==> (
                strides_view(res.0@),
                res.1@,
            ) == spec_chain_across(strides_view(strides@), item@, h as int, overlap, measure),
{
    let ghost all = strides_view(strides@);
    let ghost item0 = item@;
    let m = strides.len();
    let mut src = reversed(strides);
    let mut done: Vec<Vec<SlicePath>> = Vec::new();
    let mut item = item;
    let mut going = true;
    proof {
        assert(all.skip(0) =~= all);
        assert(strides_view(done@) =~= Seq::<Seq<SlicePathView>>::empty());
        assert forall|j: int, k: int|
            0 <= j < src.len() && 0 <= k < src[j].len() implies (#[trigger] src[j][k]).points.len()
            > 0 by {
            assert(all[m - 1 - j][k].points.len() > 0);
        }
        assert forall|overlap: spec_fn(i64, i64) -> bool, measure: spec_fn(Point3, Point3) -> i64|
            #![trigger tells_coords(overlaps, overlap), tells_measure(dist, measure)]
            tells_coords(overlaps, overlap) && tells_measure(dist, measure) implies {
            let rest = spec_chain_across(all.skip(0), item@, h as int, overlap, measure);
            let whole = spec_chain_across(all, item0, h as int, overlap, measure);
            &&& strides_view(done@) + rest.0 == whole.0
            &&& rest.1 == whole.1
        } by {
            let whole = spec_chain_across(all, item0, h as int, overlap, measure);
            assert(Seq::<Seq<SlicePathView>>::empty() + whole.0 =~= whole.0);
        }
    }
    while src.len() > 0
        invariant
            h < 3,
            asks_coords(overlaps),
            asks_measure(dist),
            src.len() <= m,
            all.len() == m,
            done.len() == m - src.len(),
            item.path.len() > 0,
            forall|j: int| 0 <= j < src.len() ==> slice_path_views((#[trigger] src[j])@) == all[m - 1 - j],
            forall|j: int, k: int|
                0 <= j < src.len() && 0 <= k < src[j].len() ==> (#[trigger] src[j][k]).points.len() > 0,
            all_pointed(strides_view(done@)),
            spec_total(strides_view(done@)) <= spec_total(all.take(m - src.len())),
            forall|overlap: spec_fn(i64, i64) -> bool, measure: spec_fn(Point3, Point3) -> i64|
                #![trigger tells_coords(overlaps, overlap), tells_measure(dist, measure)]
                tells_coords(overlaps, overlap) && tells_measure(dist, measure) ==> {
                    let from = all.skip(m - src.len());
                    let rest = if going {
                        spec_chain_across(from, item@, h as int, overlap, measure)
                    } else {
                        (from, item@)
                    };
                    let whole = spec_chain_across(all, item0, h as int, overlap, measure);
                    &&& strides_view(done@) + rest.0 == whole.0
                    &&& rest.1 == whole.1
                },
        decreases src.len(),
    {
        let ghost k = m - src.len();
        let ghost done_before = done@;
        let ghost item_before = item@;
        let ghost was_going = going;
        let stride = src.pop().unwrap();
        let ghost stride_view = slice_path_views(stride@);
        proof {
            assert(stride_view == all[k]);
            assert(all.skip(k).first() == all[k]);
            assert(all.skip(k).drop_first() =~= all.skip(k + 1));
            assert(all.take(k + 1).drop_last() =~= all.take(k));
        }
        let stride = if going {
            if stride.len() == 0 || item.i_end == usize::MAX || stride[0].i != item.i_end + 1 {
                going = false;
                stride
            } else {
                let (left, longer) = join_stride(stride, item, h, overlaps, dist);
                item = longer;
                left
            }
        } else {
            stride
        };
        let ghost stride_after = slice_path_views(stride@);
        done.push(stride);
        proof {
            assert(strides_view(done@) =~= strides_view(done_before).push(stride_after));
            assert(strides_view(done@).drop_last() =~= strides_view(done_before));
            assert forall|s: int, j: int|
                0 <= s < strides_view(done@).len() && 0 <= j < strides_view(
                    done@,
                )[s].len() implies (#[trigger] strides_view(done@)[s][j]).points.len() > 0 by {
                if s < done_before.len() {
                    assert(strides_view(done_before)[s][j].points.len() > 0);
                } else {
                    assert(done[s][j].points.len() > 0);
                }
            }
            assert forall|overlap: spec_fn(i64, i64) -> bool, measure: spec_fn(Point3, Point3) -> i64|
                #![trigger tells_coords(overlaps, overlap), tells_measure(dist, measure)]
                tells_coords(overlaps, overlap) && tells_measure(dist, measure) implies {
                let from = all.skip(m - src.len());
                let rest = if going {
                    spec_chain_across(from, item@, h as int, overlap, measure)
                } else {
                    (from, item@)
                };
                let whole = spec_chain_across(all, item0, h as int, overlap, measure);
                &&& strides_view(done@) + rest.0 == whole.0
                &&& rest.1 == whole.1
            } by {
                let whole = spec_chain_across(all, item0, h as int, overlap, measure);
                let from = all.skip(k + 1);
                let rest = if going {
                    spec_chain_across(from, item@, h as int, overlap, measure)
                } else {
                    (from, item@)
                };
                let was = if was_going {
                    spec_chain_across(all.skip(k), item_before, h as int, overlap, measure)
                } else {
                    (all.skip(k), item_before)
                };
                assert(strides_view(done_before) + was.0 == whole.0);
                if was_going && going {
                    assert(was.0 =~= seq![stride_after] + rest.0);
                } else {
                    assert(was.0 =~= all.skip(k));
                    assert(all.skip(k) =~= seq![stride_after] + from);
                }
                assert(strides_view(done@) + rest.0 =~= strides_view(done_before) + (seq![
                    stride_after,
                ] + rest.0));
            }
        }
    }
    proof {
        assert(all.take(m as int) =~= all);
        assert(all.skip(m as int) =~= Seq::<Seq<SlicePathView>>::empty());
        assert forall|overlap: spec_fn(i64, i64) -> bool, measure: spec_fn(Point3, Point3) -> i64|
            #![trigger tells_coords(overlaps, overlap), tells_measure(dist, measure)]
            tells_coords(overlaps, overlap) && tells_measure(dist, measure) implies (
            strides_view(done@),
            item@,
        ) == spec_chain_across(all, item0, h as int, overlap, measure) by {
            assert(strides_view(done@) + Seq::<Seq<SlicePathView>>::empty() =~= strides_view(done@));
        }
    }
    (done, item)
}

/// The closed paths among `paths`, in their order.
pub fn closed_paths(paths: Vec<SlicePath>) -> (closed: Vec<SlicePath>)
    ensures
        slice_path_views(closed@) == slice_path_views(paths@).filter(is_closed()),
        forall|k: int| 0 <= k < closed.len() ==> (#[trigger] closed[k]).closed,
{
    let ghost all = slice_path_views(paths@);
    let n = paths.len();
    let mut src = reversed(paths);
    let mut closed: Vec<SlicePath> = Vec::new();
    proof {
        reveal(Seq::filter);
        assert(all.take(0) =~= Seq::<SlicePathView>::empty());
        assert(slice_path_views(closed@) =~= all.take(0).filter(is_closed()));
    }
    while src.len() > 0
        invariant
            src.len() <= n,
            n == all.len(),
            forall|j: int| 0 <= j < src.len() ==> (#[trigger] src[j])@ == all[n - 1 - j],
            forall|k: int| 0 <= k < closed.len() ==> (#[trigger] closed[k]).closed,
            slice_path_views(closed@) == all.take(n - src.len()).filter(is_closed()),
        decreases src.len(),
    {
        let ghost i = n - src.len();
        let ghost before = closed@;
        let path = src.pop().unwrap();
        proof {
            assert(all.take(i + 1) =~= all.take(i).push(all[i]));
            lemma_filter_push(all.take(i), all[i], is_closed());
        }
        if path.closed {
            closed.push(path);
            proof {
                assert(slice_path_views(closed@) =~= slice_path_views(before).push(all[i]));
            }
        }
    }
    proof {
        assert(all.take(n as int) =~= all);
    }
    closed
}

/// The closed paths of all strides as a queue, stride after stride.
pub fn wall_queue(strides: Vec<Vec<SlicePath>>) -> (walls: VecDeque<SlicePath>)
    ensures
        slice_path_views(walls@) == spec_flatten(strides_view(strides@)).filter(is_closed()),
{
    let ghost all = strides_view(strides@);
    let n = strides.len();
    let mut src = reversed(strides);
    let mut walls: VecDeque<SlicePath> = VecDeque::new();
    proof {
        reveal(Seq::filter);
        assert(all.take(0) =~= Seq::<Seq<SlicePathView>>::empty());
        assert(slice_path_views(walls@) =~= spec_flatten(all.take(0)).filter(is_closed()));
    }
    while src.len() > 0
        invariant
            src.len() <= n,
            n == all.len(),
            forall|j: int| 0 <= j < src.len() ==> slice_path_views((#[trigger] src[j])@) == all[n - 1 - j],
            slice_path_views(walls@) == spec_flatten(all.take(n - src.len())).filter(is_closed()),
        decreases src.len(),
    {
        let ghost i = n - src.len();
        let stride = src.pop().unwrap();
        let ghost stride_view = slice_path_views(stride@);
        let ghost flat = spec_flatten(all.take(i));
        proof {
            assert(all.take(i + 1).drop_last() =~= all.take(i));
            assert(all.take(i + 1).last() == stride_view);
            assert(stride_view.take(0) =~= Seq::<SlicePathView>::empty());
            assert(flat + stride_view.take(0) =~= flat);
        }
        let m = stride.len();
        let mut inner = reversed(stride);
        while inner.len() > 0
            invariant
                inner.len() <= m,
                m == stride_view.len(),
                forall|j: int| 0 <= j < inner.len() ==> (#[trigger] inner[j])@ == stride_view[m - 1 - j],
                slice_path_views(walls@) == (flat + stride_view.take(m - inner.len())).filter(
                    is_closed(),
                ),
            decreases inner.len(),
        {
            let ghost k = m - inner.len();
            let ghost before = walls@;
            let path = inner.pop().unwrap();
            proof {
                assert(flat + stride_view.take(k + 1) =~= (flat + stride_view.take(k)).push(
                    stride_view[k],
                ));
                lemma_filter_push(flat + stride_view.take(k), stride_view[k], is_closed());
            }
            if path.closed {
                walls.push_back(path);
                proof {
                    assert(slice_path_views(walls@) =~= slice_path_views(before).push(stride_view[k]));
                }
            }
        }
        proof {
            assert(stride_view.take(m as int) =~= stride_view);
        }
    }
    proof {
        assert(all.take(n as int) =~= all);
    }
    walls
}

} // verus!
