use vstd::prelude::*;
use crate::aabb::Aabb;
use crate::bvh::{
    descend, grows_with_box, lemma_descend_in_range, lemma_descent_misses_nothing, spec_below,
    spec_descend, tells_entry,
};
use crate::mesh::{spec_boxes, Mesh};
use crate::kernel::{asks_box, asks_points, tells_box, tells_points};
use crate::point::Point3;
use crate::triangle::Triangle;

verus! {

/// The question about a box that a descent for `point` puts: whether the
/// box can reach the point.
pub open spec fn reach_of(can_reach: spec_fn(Aabb, Point3) -> bool, point: Point3) -> spec_fn(
    Aabb,
) -> bool {
    |b: Aabb| can_reach(b, point)
}

/// One of the corners of `t` casts its shadow on `point`.
pub open spec fn spec_shaded(t: Triangle, point: Point3, shadow: spec_fn(Point3, Point3) -> bool) -> bool {
    shadow(t.a, point) || shadow(t.b, point) || shadow(t.c, point)
}

/// `point` is free of `surface`: none of the triangles that the descent for
/// `point` meets casts a shadow on it.
pub open spec fn spec_trace_surface(
    point: Point3,
    surface: &Mesh,
    can_reach: spec_fn(Aabb, Point3) -> bool,
    shadow: spec_fn(Point3, Point3) -> bool,
) -> bool {
    let met = spec_descend(surface.spec_nodes(), 0, reach_of(can_reach, point));
    forall|k: int|
        0 <= k < met.len() ==> !spec_shaded(
            #[trigger] surface.spec_triangles()[met[k] as int],
            point,
            shadow,
        )
}

/// Whether `point` is free of `surface`, that is, outside the shadow of
/// each of its triangles. `reaches` says whether what lies in a box can
/// cast a shadow on a point at all; `shadows` says whether the corner given
/// first casts its shadow on the point given second.
pub fn trace_surface<R: Fn(Aabb, Point3) -> bool, S: Fn(Point3, Point3) -> bool>(
    point: &Point3,
    surface: &Mesh,
    reaches: &R,
    shadows: &S,
) -> (free: bool)
    requires
        asks_box(reaches),
        asks_points(shadows),
    ensures
        forall|can_reach: spec_fn(Aabb, Point3) -> bool, shadow: spec_fn(Point3, Point3) -> bool|
            #![trigger tells_box(reaches, can_reach), tells_points(shadows, shadow)]
            tells_box(reaches, can_reach) && tells_points(shadows, shadow) ==> free
                == spec_trace_surface(*point, surface, can_reach, shadow),
{
    proof {
        use_type_invariant(surface);
        surface.lemma_wf();
    }
    let nodes = surface.nodes();
    let triangles = surface.triangles();
    let p = *point;
    let enter = |b: Aabb| -> (r: bool)
        ensures
            call_ensures(*reaches, (b, p), r),
        { reaches(b, p) };
    let met = descend(nodes, &enter);
    proof {
        assert forall|can_reach: spec_fn(Aabb, Point3) -> bool| #[trigger]
            tells_box(reaches, can_reach) implies met@ == spec_descend(
            surface.spec_nodes(),
            0,
            reach_of(can_reach, p),
        ) by {
            assert(tells_entry(&enter, reach_of(can_reach, p)));
        }
    }
    let mut k: usize = 0;
    while k < met.len()
        invariant
            k <= met.len(),
            asks_points(shadows),
            p == *point,
            triangles@ == surface.spec_triangles(),
            forall|j: int| 0 <= j < met.len() ==> met[j] < triangles.len(),
            forall|can_reach: spec_fn(Aabb, Point3) -> bool| #[trigger]
                tells_box(reaches, can_reach) ==> met@ == spec_descend(
                    surface.spec_nodes(),
                    0,
                    reach_of(can_reach, p),
                ),
            forall|shadow: spec_fn(Point3, Point3) -> bool| #[trigger]
                tells_points(shadows, shadow) ==> forall|j: int|
                    0 <= j < k ==> !spec_shaded(
                        #[trigger] surface.spec_triangles()[met[j] as int],
                        p,
                        shadow,
                    ),
        decreases met.len() - k,
    {
        let t = &triangles[met[k]];
        if shadows(t.a, p) || shadows(t.b, p) || shadows(t.c, p) {
            proof {
                assert forall|
                    can_reach: spec_fn(Aabb, Point3) -> bool,
                    shadow: spec_fn(Point3, Point3) -> bool,
                |
                    #![trigger tells_box(reaches, can_reach), tells_points(shadows, shadow)]
                    tells_box(reaches, can_reach) && tells_points(
                        shadows,
                        shadow,
                    ) implies !spec_trace_surface(p, surface, can_reach, shadow) by {
                    assert(spec_shaded(surface.spec_triangles()[met[k as int] as int], p, shadow));
                }
            }
            return false;
        }
        k = k + 1;
    }
    true
}

/// Where the question about boxes is a bound from above, it hides no
/// shadow: a point is free of a surface exactly if no triangle of the
/// surface casts a shadow on it. The question is such a bound if it grows
/// with the box and accepts the box of every triangle that casts a shadow
/// on the point.
pub proof fn lemma_trace_sees_every_shadow(
    point: Point3,
    surface: &Mesh,
    can_reach: spec_fn(Aabb, Point3) -> bool,
    shadow: spec_fn(Point3, Point3) -> bool,
)
    requires
        surface.inv(),
        grows_with_box(reach_of(can_reach, point)),
        forall|t: usize|
            t < surface.spec_triangles().len() && spec_shaded(
                #[trigger] surface.spec_triangles()[t as int],
                point,
                shadow,
            ) ==> can_reach(surface.spec_triangles()[t as int].aabb, point),
    ensures
        spec_trace_surface(point, surface, can_reach, shadow) <==> forall|t: usize|
            t < surface.spec_triangles().len() ==> !spec_shaded(
                #[trigger] surface.spec_triangles()[t as int],
                point,
                shadow,
            ),
{
    surface.lemma_wf();
    let nodes = surface.spec_nodes();
    let triangles = surface.spec_triangles();
    let enter = reach_of(can_reach, point);
    let met = spec_descend(nodes, 0, enter);
    if spec_trace_surface(point, surface, can_reach, shadow) {
        assert forall|t: usize| t < triangles.len() implies !spec_shaded(
            #[trigger] triangles[t as int],
            point,
            shadow,
        ) by {
            if spec_shaded(triangles[t as int], point, shadow) {
                assert(spec_below(nodes, 0).contains(t));
                let k = choose|k: int|
                    0 <= k < spec_below(nodes, 0).len() && spec_below(nodes, 0)[k] == t;
                assert(spec_boxes(triangles)[t as int] == triangles[t as int].aabb);
                assert(enter(triangles[t as int].aabb));
                lemma_descent_misses_nothing(nodes, spec_boxes(triangles), enter, 0, k);
                let at = choose|at: int| 0 <= at < met.len() && met[at] == t;
                assert(!spec_shaded(triangles[met[at] as int], point, shadow));
            }
        }
    } else {
        let k = choose|k: int|
            0 <= k < met.len() && spec_shaded(#[trigger] triangles[met[k] as int], point, shadow);
        lemma_descend_in_range(nodes, triangles.len(), 0, enter, k);
        assert(spec_shaded(triangles[met[k] as int], point, shadow));
    }
}

} // verus!
