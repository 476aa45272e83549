use vstd::prelude::*;
use crate::aabb::Aabb;
use crate::axis::Axis;
use crate::base_slices::{spec_find_paths, BaseSlice};
use crate::bvh::{
    boxes_hold, check_boxes, check_nodes, check_reach, descend, grows_with_box,
    lemma_descent_misses_nothing, nodes_wf, reaches_all, spec_below, spec_descend, tells_entry,
    BvhNode,
};
use crate::kernel::{
    asks_box, asks_coords, asks_crossing, asks_points, asks_turn, tells_box, tells_coords,
    tells_crossing, tells_points, tells_turn,
};
use crate::line::Line3;
use crate::point::Point3;
use crate::slice_path::{
    slice_path_views, spec_prepare, strides_view, SlicePath, SlicePathView, SurfacePathIterator,
};
use crate::triangle::Triangle;

verus! {

/// Triangles with a hierarchy over them and the box around all of them.
#[derive(Debug)]
pub struct Mesh {
    pub(crate) aabb: Aabb,
    pub(crate) bvh: Vec<BvhNode>,
    pub(crate) triangles: Vec<Triangle>,
}

/// The least box around the boxes of `triangles`.
pub open spec fn spec_mesh_aabb(triangles: Seq<Triangle>) -> Aabb
    decreases triangles.len(),
{
    if triangles.len() == 0 {
        Aabb::spec_empty()
    } else {
        spec_mesh_aabb(triangles.drop_last()).spec_join(triangles.last().aabb)
    }
}

/// The box around `triangles` holds whatever the box of one of them holds.
pub proof fn lemma_mesh_aabb_encloses(triangles: Seq<Triangle>, i: int)
    requires
        0 <= i < triangles.len(),
    ensures
        spec_mesh_aabb(triangles).spec_encloses(triangles[i].aabb),
    decreases triangles.len(),
{
    if i < triangles.len() - 1 {
        lemma_mesh_aabb_encloses(triangles.drop_last(), i);
    }
}

/// The boxes that reach across the plane at `d` along the axis at position
/// `axis`, borders included.
pub open spec fn spans(axis: int, d: i64) -> spec_fn(Aabb) -> bool {
    |b: Aabb| b.min.at(axis) <= d <= b.max.at(axis)
}

/// The cuts of the triangles numbered by `met`, in that order, by the plane
/// at `d`. A triangle without a cut adds nothing.
pub open spec fn spec_cuts(
    triangles: Seq<Triangle>,
    met: Seq<usize>,
    d: i64,
    axis: int,
    close: spec_fn(i64, i64) -> bool,
    crossing: spec_fn(Point3, Point3, i64, int) -> Point3,
) -> Seq<Line3>
    decreases met.len(),
{
    if met.len() == 0 {
        Seq::empty()
    } else {
        let before = spec_cuts(triangles, met.drop_last(), d, axis, close, crossing);
        match triangles[met.last() as int].spec_intersect(d, axis, close, crossing) {
            Some(line) => before.push(line),
            None => before,
        }
    }
}

/// At least two of three.
pub open spec fn two_of(x: bool, y: bool, z: bool) -> bool {
    x && y || x && z || y && z
}

/// The boxes that hold at least two corners of `t`, as `inside` judges it.
pub open spec fn holds_two(inside: spec_fn(Aabb, Point3) -> bool, t: Triangle) -> spec_fn(Aabb) -> bool {
    |b: Aabb| two_of(inside(b, t.a), inside(b, t.b), inside(b, t.c))
}

/// One of the first `upto` triangles numbered by `met`, other than the one
/// with number `own`, has a corner close to `p` and a corner close to `q`.
pub open spec fn spec_edge_shared(
    triangles: Seq<Triangle>,
    met: Seq<usize>,
    upto: int,
    own: int,
    p: Point3,
    q: Point3,
    close: spec_fn(Point3, Point3) -> bool,
) -> bool {
    exists|k: int|
        0 <= k < upto && k < met.len() && met[k] != own && (#[trigger] triangles[met[k] as int]).spec_has_point(
            p,
            close,
        ) && triangles[met[k] as int].spec_has_point(q, close)
}

/// The boxes of `triangles`.
pub open spec fn spec_boxes(triangles: Seq<Triangle>) -> Seq<Aabb> {
    triangles.map_values(|t: Triangle| t.aabb)
}

/// `nodes` is a hierarchy over `triangles`: it is laid out as one, every
/// triangle lies below its root, and every box in it covers the boxes of
/// the triangles below it.
pub open spec fn indexes(nodes: Seq<BvhNode>, triangles: Seq<Triangle>) -> bool {
    &&& nodes_wf(nodes, triangles.len())
    &&& reaches_all(nodes, triangles.len())
    &&& boxes_hold(nodes, spec_boxes(triangles))
}

impl Mesh {
    /// What holds of every mesh; `lemma_wf` says it in the open.
    #[verifier::type_invariant]
    pub closed spec fn inv(&self) -> bool {
        &&& indexes(self.bvh@, self.triangles@)
        &&& self.aabb == spec_mesh_aabb(self.triangles@)
    }

    /// The triangles, in the order in which the leaves of the hierarchy
    /// number them.
    pub closed spec fn spec_triangles(&self) -> Seq<Triangle> {
        self.triangles@
    }

    /// The nodes of the hierarchy, root first.
    pub closed spec fn spec_nodes(&self) -> Seq<BvhNode> {
        self.bvh@
    }

    /// The box around all triangles.
    pub closed spec fn spec_aabb(&self) -> Aabb {
        self.aabb
    }

    /// What holds of every mesh: its nodes are a hierarchy over its
    /// triangles, and its box is the least one around their boxes.
    pub proof fn lemma_wf(&self)
        requires
            self.inv(),
        ensures
            indexes(self.spec_nodes(), self.spec_triangles()),
            self.spec_aabb() == spec_mesh_aabb(self.spec_triangles()),
    {
    }

    /// A cut by a plane meets every triangle whose box reaches across the
    /// plane: the descent leaves out only triangles whose box lies to one
    /// side of it.
    pub proof fn lemma_plane_meets_what_it_crosses(&self, axis: Axis, d: i64, t: usize)
        requires
            self.inv(),
            t < self.spec_triangles().len(),
            spans(axis.spec_index(), d)(self.spec_triangles()[t as int].aabb),
        ensures
            spec_descend(self.spec_nodes(), 0, spans(axis.spec_index(), d)).contains(t),
    {
        let nodes = self.spec_nodes();
        let boxes = spec_boxes(self.spec_triangles());
        let enter = spans(axis.spec_index(), d);
        assert(spec_below(nodes, 0).contains(t));
        let k = choose|k: int| 0 <= k < spec_below(nodes, 0).len() && spec_below(nodes, 0)[k] == t;
        assert(grows_with_box(enter)) by {
            assert forall|small: Aabb, big: Aabb| big.spec_covers(small) && #[trigger] enter(
                small,
            ) implies #[trigger] enter(big) by {}
        }
        lemma_descent_misses_nothing(nodes, boxes, enter, 0, k);
    }

    /// Makes a mesh of `triangles` and of a hierarchy built over them.
    /// Fails where `nodes` is no hierarchy over the triangles.
    pub fn build(triangles: Vec<Triangle>, nodes: Vec<BvhNode>) -> (mesh: Option<Mesh>)
        ensures
            mesh.is_some() == indexes(nodes@, triangles@),
            mesh matches Some(m) ==> {
                &&& m.inv()
                &&& m.spec_triangles() == triangles@
                &&& m.spec_nodes() == nodes@
                &&& m.spec_aabb() == spec_mesh_aabb(triangles@)
            },
    {
        if !check_nodes(&nodes, triangles.len()) {
            return None;
        }
        if !check_reach(&nodes, triangles.len()) {
            return None;
        }
        let mut aabb = Aabb::empty();
        let mut boxes: Vec<Aabb> = Vec::new();
        let mut i: usize = 0;
        while i < triangles.len()
            invariant
                i <= triangles.len(),
                aabb == spec_mesh_aabb(triangles@.take(i as int)),
                boxes@ == spec_boxes(triangles@.take(i as int)),
            decreases triangles.len() - i,
        {
            proof {
                assert(triangles@.take(i + 1).drop_last() =~= triangles@.take(i as int));
                assert(triangles@.take(i + 1) =~= triangles@.take(i as int).push(triangles[i as int]));
            }
            aabb = aabb.join(&triangles[i].aabb);
            boxes.push(triangles[i].aabb);
            proof {
                assert(boxes@ =~= spec_boxes(triangles@.take(i + 1)));
            }
            i = i + 1;
        }
        proof {
            assert(triangles@.take(i as int) =~= triangles@);
        }
        if !check_boxes(&nodes, &boxes) {
            return None;
        }
        Some(Mesh { aabb, bvh: nodes, triangles })
    }

    /// The box around all triangles.
    pub fn aabb(&self) -> (b: Aabb)
        ensures
            b == self.spec_aabb(),
    {
        self.aabb
    }

    /// The triangles, in the order in which the leaves number them.
    pub fn triangles(&self) -> (t: &Vec<Triangle>)
        ensures
            t@ == self.spec_triangles(),
    {
        &self.triangles
    }

    /// The nodes of the hierarchy, root first.
    pub fn nodes(&self) -> (n: &Vec<BvhNode>)
        ensures
            n@ == self.spec_nodes(),
    {
        &self.bvh
    }

    /// The segments in which the plane at `d` along `axis` cuts the mesh.
    /// The hierarchy is descended into every child whose box reaches across
    /// the plane; each triangle met adds its cut, if it has one.
    pub open spec fn spec_plane_lines(
        &self,
        axis: Axis,
        d: i64,
        close: spec_fn(i64, i64) -> bool,
        crossing: spec_fn(Point3, Point3, i64, int) -> Point3,
    ) -> Seq<Line3> {
        spec_cuts(
            self.spec_triangles(),
            spec_descend(self.spec_nodes(), 0, spans(axis.spec_index(), d)),
            d,
            axis.spec_index(),
            close,
            crossing,
        )
    }

    /// The paths of the planes at `layers` along `axis`, plane by plane; a
    /// plane without paths is left out. A plane has its position in
    /// `layers` for its index.
    pub open spec fn spec_slice_paths(
        &self,
        axis: Axis,
        layers: Seq<i64>,
        close_coord: spec_fn(i64, i64) -> bool,
        crossing: spec_fn(Point3, Point3, i64, int) -> Point3,
        close: spec_fn(Point3, Point3) -> bool,
        turn: spec_fn(Seq<Point3>, Axis, Axis) -> bool,
    ) -> Seq<Seq<SlicePathView>>
        decreases layers.len(),
    {
        if layers.len() == 0 {
            Seq::empty()
        } else {
            let before = self.spec_slice_paths(
                axis,
                layers.drop_last(),
                close_coord,
                crossing,
                close,
                turn,
            );
            let paths = spec_find_paths(
                self.spec_plane_lines(axis, layers.last(), close_coord, crossing),
                (layers.len() - 1) as usize,
                layers.last(),
                axis,
                close,
                turn,
            );
            if paths.len() > 0 {
                before.push(paths)
            } else {
                before
            }
        }
    }

    /// The edges of the triangle with number `t` that no other triangle
    /// shares, in the order ab, ac, bc. The other triangles are those met by
    /// a descent into every child whose box holds two corners of the
    /// triangle.
    pub open spec fn spec_boundary(
        &self,
        t: int,
        inside: spec_fn(Aabb, Point3) -> bool,
        close: spec_fn(Point3, Point3) -> bool,
    ) -> Seq<Line3> {
        let tri = self.spec_triangles()[t];
        let met = spec_descend(self.spec_nodes(), 0, holds_two(inside, tri));
        let n = met.len() as int;
        let ab = spec_edge_shared(self.spec_triangles(), met, n, t, tri.a, tri.b, close);
        let ac = spec_edge_shared(self.spec_triangles(), met, n, t, tri.a, tri.c, close);
        let bc = spec_edge_shared(self.spec_triangles(), met, n, t, tri.b, tri.c, close);
        let first = if ab {
            Seq::<Line3>::empty()
        } else {
            seq![Line3 { start: tri.a, end: tri.b }]
        };
        let second = if ac {
            Seq::<Line3>::empty()
        } else {
            seq![Line3 { start: tri.a, end: tri.c }]
        };
        let third = if bc {
            Seq::<Line3>::empty()
        } else {
            seq![Line3 { start: tri.b, end: tri.c }]
        };
        first + second + third
    }

    /// The boundary edges of the first `n` triangles, triangle by triangle.
    pub open spec fn spec_outline(
        &self,
        n: nat,
        inside: spec_fn(Aabb, Point3) -> bool,
        close: spec_fn(Point3, Point3) -> bool,
    ) -> Seq<Line3>
        decreases n,
    {
        if n == 0 {
            Seq::empty()
        } else {
            self.spec_outline((n - 1) as nat, inside, close) + self.spec_boundary(
                n - 1,
                inside,
                close,
            )
        }
    }

    /// The segments in which the plane at `d` along `axis` cuts the mesh.
    fn plane_lines<N: Fn(i64, i64) -> bool, C: Fn(Point3, Point3, i64, usize) -> Point3>(
        &self,
        axis: Axis,
        d: i64,
        near: &N,
        cross: &C,
    ) -> (lines: Vec<Line3>)
        requires
            asks_coords(near),
            asks_crossing(cross),
        ensures
            forall|k: int|
                0 <= k < lines.len() ==> (#[trigger] lines[k]).start.at(axis.spec_index()) == d
                    && lines[k].end.at(axis.spec_index()) == d,
            forall|close: spec_fn(i64, i64) -> bool, crossing: spec_fn(Point3, Point3, i64, int) -> Point3|
                #![trigger tells_coords(near, close), tells_crossing(cross, crossing)]
                tells_coords(near, close) && tells_crossing(cross, crossing) ==> lines@
                    == self.spec_plane_lines(axis, d, close, crossing),
    {
        proof {
            use_type_invariant(self);
        }
        let ax = axis.index();
        let enter = |b: Aabb| -> (r: bool)
            ensures
                r == spans(ax as int, d)(b),
            { b.min.coord(ax) <= d && d <= b.max.coord(ax) };
        let met = descend(&self.bvh, &enter);
        proof {
            assert(tells_entry(&enter, spans(ax as int, d)));
        }
        let mut lines: Vec<Line3> = Vec::new();
        let mut k: usize = 0;
        while k < met.len()
            invariant
                k <= met.len(),
                ax == axis.spec_index(),
                asks_coords(near),
                asks_crossing(cross),
                forall|j: int| 0 <= j < met.len() ==> met[j] < self.triangles.len(),
                forall|j: int|
                    0 <= j < lines.len() ==> (#[trigger] lines[j]).start.at(ax as int) == d
                        && lines[j].end.at(ax as int) == d,
                forall|close: spec_fn(i64, i64) -> bool, crossing: spec_fn(Point3, Point3, i64, int) -> Point3|
                    #![trigger tells_coords(near, close), tells_crossing(cross, crossing)]
                    tells_coords(near, close) && tells_crossing(cross, crossing) ==> lines@
                        == spec_cuts(
                        self.triangles@,
                        met@.take(k as int),
                        d,
                        ax as int,
                        close,
                        crossing,
                    ),
            decreases met.len() - k,
        {
            proof {
                assert(met@.take(k + 1).drop_last() =~= met@.take(k as int));
                assert(met@.take(k + 1).last() == met[k as int]);
            }
            match self.triangles[met[k]].intersect(d, ax, near, cross) {
                Some(line) => {
                    lines.push(line);
                },
                None => {},
            }
            k = k + 1;
        }
        proof {
            assert(met@.take(k as int) =~= met@);
        }
        lines
    }

    /// Cuts the mesh by the planes at `layers` along `axis`, one slice for
    /// each plane, with the position of the plane in `layers` for its
    /// index. `near` says whether two coordinates are close enough to be
    /// one; `cross` gives the point where the segment from its first
    /// argument to its second meets the plane.
    pub fn slice_base_slices<N: Fn(i64, i64) -> bool, C: Fn(Point3, Point3, i64, usize) -> Point3>(
        &self,
        axis: Axis,
        layers: &Vec<i64>,
        near: &N,
        cross: &C,
    ) -> (slices: Vec<BaseSlice>)
        requires
            asks_coords(near),
            asks_crossing(cross),
        ensures
            slices.len() == layers.len(),
            forall|i: int|
                0 <= i < slices.len() ==> {
                    &&& (#[trigger] slices[i]).i == i
                    &&& slices[i].d == layers[i]
                    &&& slices[i].axis == axis
                    &&& forall|k: int|
                        0 <= k < slices[i].lines.len() ==> (#[trigger] slices[i].lines[k]).start.at(
                            axis.spec_index(),
                        ) == layers[i] && slices[i].lines[k].end.at(axis.spec_index()) == layers[i]
                },
            forall|close: spec_fn(i64, i64) -> bool, crossing: spec_fn(Point3, Point3, i64, int) -> Point3|
                #![trigger tells_coords(near, close), tells_crossing(cross, crossing)]
                tells_coords(near, close) && tells_crossing(cross, crossing) ==> forall|i: int|
                    0 <= i < slices.len() ==> (#[trigger] slices[i]).lines@ == self.spec_plane_lines(
                        axis,
                        layers[i],
                        close,
                        crossing,
                    ),
    {
        let mut slices: Vec<BaseSlice> = Vec::new();
        let mut i: usize = 0;
        while i < layers.len()
            invariant
                i <= layers.len(),
                slices.len() == i,
                asks_coords(near),
                asks_crossing(cross),
                forall|j: int|
                    0 <= j < slices.len() ==> {
                        &&& (#[trigger] slices[j]).i == j
                        &&& slices[j].d == layers[j]
                        &&& slices[j].axis == axis
                        &&& forall|k: int|
                            0 <= k < slices[j].lines.len() ==> (#[trigger] slices[j].lines[k]).start.at(
                                axis.spec_index(),
                            ) == layers[j] && slices[j].lines[k].end.at(axis.spec_index())
                                == layers[j]
                    },
                forall|close: spec_fn(i64, i64) -> bool, crossing: spec_fn(Point3, Point3, i64, int) -> Point3|
                    #![trigger tells_coords(near, close), tells_crossing(cross, crossing)]
                    tells_coords(near, close) && tells_crossing(cross, crossing) ==> forall|j: int|
                        0 <= j < slices.len() ==> (#[trigger] slices[j]).lines@
                            == self.spec_plane_lines(axis, layers[j], close, crossing),
            decreases layers.len() - i,
        {
            let d = layers[i];
            let lines = self.plane_lines(axis, d, near, cross);
            slices.push(BaseSlice { i, d, axis, lines });
            i = i + 1;
        }
        slices
    }

    /// Cuts the mesh by the planes at `layers` along `axis` and chains the
    /// segments of each plane into paths. Planes without a path are left
    /// out. The questions are those of `slice_base_slices` and of
    /// `BaseSlice::find_paths`.
    pub fn slice_paths<
        N: Fn(i64, i64) -> bool,
        C: Fn(Point3, Point3, i64, usize) -> Point3,
        P: Fn(Point3, Point3) -> bool,
        W: Fn(&Vec<Point3>, Axis, Axis) -> bool,
    >(&self, axis: Axis, layers: &Vec<i64>, near_coord: &N, cross: &C, near: &P, negative: &W) -> (strides:
        Vec<Vec<SlicePath>>)
        requires
            asks_coords(near_coord),
            asks_crossing(cross),
            asks_points(near),
            asks_turn(negative),
        ensures
            forall|s: int, k: int|
                0 <= s < strides.len() && 0 <= k < strides[s].len() ==> (#[trigger] strides[s][k])@.wf(),
            forall|s: int, k: int|
                0 <= s < strides.len() && 0 <= k < strides[s].len() ==> (#[trigger] strides[s][k]).points.len()
                    >= 2,
            forall|s: int| 0 <= s < strides.len() ==> (#[trigger] strides[s]).len() > 0,
            forall|
                close_coord: spec_fn(i64, i64) -> bool,
                crossing: spec_fn(Point3, Point3, i64, int) -> Point3,
                close: spec_fn(Point3, Point3) -> bool,
                turn: spec_fn(Seq<Point3>, Axis, Axis) -> bool,
            |
                #![trigger tells_coords(near_coord, close_coord), tells_crossing(cross, crossing), tells_points(near, close), tells_turn(negative, turn)]
                tells_coords(near_coord, close_coord) && tells_crossing(cross, crossing)
                    && tells_points(near, close) && tells_turn(negative, turn) ==> strides_view(
                    strides@,
                ) == self.spec_slice_paths(axis, layers@, close_coord, crossing, close, turn),
    {
        let mut strides: Vec<Vec<SlicePath>> = Vec::new();
        let mut i: usize = 0;
        proof {
            assert(layers@.take(0) =~= Seq::<i64>::empty());
            assert(strides_view(strides@) =~= Seq::<Seq<SlicePathView>>::empty());
        }
        while i < layers.len()
            invariant
                i <= layers.len(),
                asks_coords(near_coord),
                asks_crossing(cross),
                asks_points(near),
                asks_turn(negative),
                forall|s: int, k: int|
                    0 <= s < strides.len() && 0 <= k < strides[s].len() ==> (#[trigger] strides[s][k])@.wf(),
                forall|s: int, k: int|
                    0 <= s < strides.len() && 0 <= k < strides[s].len() ==> (#[trigger] strides[s][k]).points.len()
                        >= 2,
                forall|s: int| 0 <= s < strides.len() ==> (#[trigger] strides[s]).len() > 0,
                forall|
                    close_coord: spec_fn(i64, i64) -> bool,
                    crossing: spec_fn(Point3, Point3, i64, int) -> Point3,
                    close: spec_fn(Point3, Point3) -> bool,
                    turn: spec_fn(Seq<Point3>, Axis, Axis) -> bool,
                |
                    #![trigger tells_coords(near_coord, close_coord), tells_crossing(cross, crossing), tells_points(near, close), tells_turn(negative, turn)]
                    tells_coords(near_coord, close_coord) && tells_crossing(cross, crossing)
                        && tells_points(near, close) && tells_turn(negative, turn) ==> strides_view(
                        strides@,
                    ) == self.spec_slice_paths(
                        axis,
                        layers@.take(i as int),
                        close_coord,
                        crossing,
                        close,
                        turn,
                    ),
            decreases layers.len() - i,
        {
            let d = layers[i];
            let ghost before = strides@;
            let lines = self.plane_lines(axis, d, near_coord, cross);
            let slice = BaseSlice { i, d, axis, lines };
            let paths = slice.find_paths(near, negative);
            let ghost found = slice_path_views(paths@);
            let some = paths.len() > 0;
            if some {
                strides.push(paths);
            }
            proof {
                assert(layers@.take(i + 1).drop_last() =~= layers@.take(i as int));
                assert(layers@.take(i + 1).last() == d);
                assert forall|
                    close_coord: spec_fn(i64, i64) -> bool,
                    crossing: spec_fn(Point3, Point3, i64, int) -> Point3,
                    close: spec_fn(Point3, Point3) -> bool,
                    turn: spec_fn(Seq<Point3>, Axis, Axis) -> bool,
                |
                    #![trigger tells_coords(near_coord, close_coord), tells_crossing(cross, crossing), tells_points(near, close), tells_turn(negative, turn)]
                    tells_coords(near_coord, close_coord) && tells_crossing(cross, crossing)
                        && tells_points(near, close) && tells_turn(
                        negative,
                        turn,
                    ) implies strides_view(strides@) == self.spec_slice_paths(
                    axis,
                    layers@.take(i + 1),
                    close_coord,
                    crossing,
                    close,
                    turn,
                ) by {
                    if some {
                        assert(strides_view(strides@) =~= strides_view(before).push(found));
                    }
                }
            }
            i = i + 1;
        }
        proof {
            assert(layers@.take(i as int) =~= layers@);
        }
        strides
    }

    /// Cuts the mesh into strides along `axis` at `layers` and makes them
    /// ready for chaining into surface paths. The questions are those of
    /// `slice_paths` and of `SurfacePathIterator::new`.
    pub fn slice_surface<
        N: Fn(i64, i64) -> bool,
        C: Fn(Point3, Point3, i64, usize) -> Point3,
        P: Fn(Point3, Point3) -> bool,
        W: Fn(&Vec<Point3>, Axis, Axis) -> bool,
        J: Fn(Point3, Point3) -> bool,
    >(
        &self,
        axis: Axis,
        layers: &Vec<i64>,
        near_coord: &N,
        cross: &C,
        near: &P,
        negative: &W,
        joins: &J,
    ) -> (it: SurfacePathIterator)
        requires
            asks_coords(near_coord),
            asks_crossing(cross),
            asks_points(near),
            asks_turn(negative),
            asks_points(joins),
        ensures
            it.spec_axis() == axis,
            forall|
                close_coord: spec_fn(i64, i64) -> bool,
                crossing: spec_fn(Point3, Point3, i64, int) -> Point3,
                close: spec_fn(Point3, Point3) -> bool,
                turn: spec_fn(Seq<Point3>, Axis, Axis) -> bool,
                join: spec_fn(Point3, Point3) -> bool,
            |
                #![trigger tells_coords(near_coord, close_coord), tells_crossing(cross, crossing), tells_points(near, close), tells_turn(negative, turn), tells_points(joins, join)]
                tells_coords(near_coord, close_coord) && tells_crossing(cross, crossing)
                    && tells_points(near, close) && tells_turn(negative, turn) && tells_points(
                    joins,
                    join,
                ) ==> it.spec_strides() == spec_prepare(
                    self.spec_slice_paths(axis, layers@, close_coord, crossing, close, turn),
                    axis.spec_other().0.spec_index(),
                    join,
                ),
    {
        let strides = self.slice_paths(axis, layers, near_coord, cross, near, negative);
        SurfacePathIterator::new(strides, axis, joins)
    }

    /// The boundary of the mesh: every edge of a triangle that no other
    /// triangle shares, as the segments of one slice with index 0 at
    /// coordinate 0. `holds` says whether a box holds a point, give or take
    /// a little; `near` says whether two points are close enough to be one.
    pub fn outline_base_slice<H: Fn(Aabb, Point3) -> bool, N: Fn(Point3, Point3) -> bool>(
        &self,
        axis: Axis,
        holds: &H,
        near: &N,
    ) -> (outline: BaseSlice)
        requires
            asks_box(holds),
            asks_points(near),
        ensures
            outline.i == 0,
            outline.d == 0,
            outline.axis == axis,
            forall|inside: spec_fn(Aabb, Point3) -> bool, close: spec_fn(Point3, Point3) -> bool|
                #![trigger tells_box(holds, inside), tells_points(near, close)]
                tells_box(holds, inside) && tells_points(near, close) ==> outline.lines@
                    == self.spec_outline(self.spec_triangles().len(), inside, close),
    {
        proof {
            use_type_invariant(self);
        }
        let mut lines: Vec<Line3> = Vec::new();
        let mut t: usize = 0;
        while t < self.triangles.len()
            invariant
                t <= self.triangles.len(),
                asks_box(holds),
                asks_points(near),
                indexes(self.bvh@, self.triangles@),
                forall|inside: spec_fn(Aabb, Point3) -> bool, close: spec_fn(Point3, Point3) -> bool|
                    #![trigger tells_box(holds, inside), tells_points(near, close)]
                    tells_box(holds, inside) && tells_points(near, close) ==> lines@
                        == self.spec_outline(t as nat, inside, close),
            decreases self.triangles.len() - t,
        {
            let tri = self.triangles[t];
            let enter = |b: Aabb| -> (r: bool)
                ensures
                    forall|inside: spec_fn(Aabb, Point3) -> bool| #[trigger]
                        tells_box(holds, inside) ==> r == holds_two(inside, tri)(b),
                { two_inside(holds, b, &tri) };
            let met = descend(&self.bvh, &enter);
            proof {
                assert forall|inside: spec_fn(Aabb, Point3) -> bool| #[trigger]
                    tells_box(holds, inside) implies tells_entry(&enter, holds_two(inside, tri)) by {
                    assert forall|b: Aabb, r: bool| #[trigger]
                        call_ensures(enter, (b,), r) implies r == holds_two(inside, tri)(b) by {}
                }
            }
            let mut ab = false;
            let mut ac = false;
            let mut bc = false;
            let mut k: usize = 0;
            while k < met.len() && !(ab && ac && bc)
                invariant
                    k <= met.len(),
                    asks_points(near),
                    t < self.triangles.len(),
                    tri == self.triangles[t as int],
                    forall|j: int| 0 <= j < met.len() ==> met[j] < self.triangles.len(),
                    forall|close: spec_fn(Point3, Point3) -> bool| #[trigger]
                        tells_points(near, close) ==> {
                            &&& ab == spec_edge_shared(
                                self.triangles@,
                                met@,
                                k as int,
                                t as int,
                                tri.a,
                                tri.b,
                                close,
                            )
                            &&& ac == spec_edge_shared(
                                self.triangles@,
                                met@,
                                k as int,
                                t as int,
                                tri.a,
                                tri.c,
                                close,
                            )
                            &&& bc == spec_edge_shared(
                                self.triangles@,
                                met@,
                                k as int,
                                t as int,
                                tri.b,
                                tri.c,
                                close,
                            )
                        },
                decreases met.len() - k,
            {
                let s = met[k];
                if s != t {
                    let other = &self.triangles[s];
                    let a = other.has_point(tri.a, near);
                    let b = other.has_point(tri.b, near);
                    let c = other.has_point(tri.c, near);
                    ab = ab || (a && b);
                    ac = ac || (a && c);
                    bc = bc || (b && c);
                }
                proof {
                    assert forall|close: spec_fn(Point3, Point3) -> bool| #[trigger]
                        tells_points(near, close) implies {
                        &&& ab == spec_edge_shared(
                            self.triangles@,
                            met@,
                            k + 1,
                            t as int,
                            tri.a,
                            tri.b,
                            close,
                        )
                        &&& ac == spec_edge_shared(
                            self.triangles@,
                            met@,
                            k + 1,
                            t as int,
                            tri.a,
                            tri.c,
                            close,
                        )
                        &&& bc == spec_edge_shared(
                            self.triangles@,
                            met@,
                            k + 1,
                            t as int,
                            tri.b,
                            tri.c,
                            close,
                        )
                    } by {
                        lemma_edge_shared_step(self.triangles@, met@, k as int, t as int, tri.a, tri.b, close);
                        lemma_edge_shared_step(self.triangles@, met@, k as int, t as int, tri.a, tri.c, close);
                        lemma_edge_shared_step(self.triangles@, met@, k as int, t as int, tri.b, tri.c, close);
                    }
                }
                k = k + 1;
            }
            let ghost before = lines@;
            if !ab {
                lines.push(Line3::new(tri.a, tri.b));
            }
            if !ac {
                lines.push(Line3::new(tri.a, tri.c));
            }
            if !bc {
                lines.push(Line3::new(tri.b, tri.c));
            }
            proof {
                assert forall|inside: spec_fn(Aabb, Point3) -> bool, close: spec_fn(Point3, Point3) -> bool|
                    #![trigger tells_box(holds, inside), tells_points(near, close)]
                    tells_box(holds, inside) && tells_points(near, close) implies lines@
                    == self.spec_outline((t + 1) as nat, inside, close) by {
                    let n = met.len() as int;
                    lemma_edge_shared_mono(self.triangles@, met@, k as int, n, t as int, tri.a, tri.b, close);
                    lemma_edge_shared_mono(self.triangles@, met@, k as int, n, t as int, tri.a, tri.c, close);
                    lemma_edge_shared_mono(self.triangles@, met@, k as int, n, t as int, tri.b, tri.c, close);
                    assert(lines@ =~= before + self.spec_boundary(t as int, inside, close));
                }
            }
            t = t + 1;
        }
        BaseSlice { i: 0, d: 0, axis, lines }
    }
}

/// Whether `b` holds at least two corners of `t`.
fn two_inside<H: Fn(Aabb, Point3) -> bool>(holds: &H, b: Aabb, t: &Triangle) -> (r: bool)
    requires
        asks_box(holds),
    ensures
        forall|inside: spec_fn(Aabb, Point3) -> bool| #[trigger]
            tells_box(holds, inside) ==> r == holds_two(inside, *t)(b),
{
    let x = holds(b, t.a);
    let y = holds(b, t.b);
    let z = holds(b, t.c);
    x && y || x && z || y && z
}

/// What one more triangle adds to the search for a sharer of an edge.
proof fn lemma_edge_shared_step(
    triangles: Seq<Triangle>,
    met: Seq<usize>,
    k: int,
    own: int,
    p: Point3,
    q: Point3,
    close: spec_fn(Point3, Point3) -> bool,
)
    requires
        0 <= k < met.len(),
    ensures
        spec_edge_shared(triangles, met, k + 1, own, p, q, close) == (spec_edge_shared(
            triangles,
            met,
            k,
            own,
            p,
            q,
            close,
        ) || (met[k] != own && triangles[met[k] as int].spec_has_point(p, close)
            && triangles[met[k] as int].spec_has_point(q, close))),
{
    if spec_edge_shared(triangles, met, k + 1, own, p, q, close) {
        let j = choose|j: int|
            0 <= j < k + 1 && j < met.len() && met[j] != own && (#[trigger] triangles[met[j] as int]).spec_has_point(
                p,
                close,
            ) && triangles[met[j] as int].spec_has_point(q, close);
        if j < k {
            assert(spec_edge_shared(triangles, met, k, own, p, q, close));
        }
    }
    if spec_edge_shared(triangles, met, k, own, p, q, close) {
        let j = choose|j: int|
            0 <= j < k && j < met.len() && met[j] != own && (#[trigger] triangles[met[j] as int]).spec_has_point(
                p,
                close,
            ) && triangles[met[j] as int].spec_has_point(q, close);
        assert(0 <= j < k + 1);
    }
    if met[k] != own && triangles[met[k] as int].spec_has_point(p, close) && triangles[met[k] as int].spec_has_point(
        q,
        close,
    ) {
        assert(0 <= k < k + 1);
        assert(triangles[met[k] as int].spec_has_point(p, close));
    }
}

/// A sharer found among fewer triangles is found among more.
proof fn lemma_edge_shared_mono(
    triangles: Seq<Triangle>,
    met: Seq<usize>,
    k: int,
    n: int,
    own: int,
    p: Point3,
    q: Point3,
    close: spec_fn(Point3, Point3) -> bool,
)
    requires
        k <= n,
    ensures
        spec_edge_shared(triangles, met, k, own, p, q, close) ==> spec_edge_shared(
            triangles,
            met,
            n,
            own,
            p,
            q,
            close,
        ),
{
    if spec_edge_shared(triangles, met, k, own, p, q, close) {
        let j = choose|j: int|
            0 <= j < k && j < met.len() && met[j] != own && (#[trigger] triangles[met[j] as int]).spec_has_point(
                p,
                close,
            ) && triangles[met[j] as int].spec_has_point(q, close);
        assert(0 <= j < n);
    }
}

} // verus!
