//! The print order: wall rings interleaved with surfaces so that no wall
//! point is printed beneath a surface that has yet to be laid down.

use std::collections::VecDeque;
use vstd::prelude::*;
use crate::aabb::Aabb;
use crate::kernel::{asks_box, asks_points, tells_box, tells_points};
use crate::mesh::Mesh;
use crate::point::Point3;
use crate::slice_path::{slice_path_views, SlicePath, SlicePathView, SurfacePath};
use crate::trace_surface::{spec_trace_surface, trace_surface};
use crate::util::{lemma_filter_push, lemma_sort_map, reversed, sort_by_keys, spec_sort};

verus! {

/// A connected surface with what is printed for it: its outlines first,
/// then its paths.
#[derive(Debug)]
pub struct Surface {
    pub mesh: Mesh,
    pub outlines: Vec<SlicePath>,
    pub paths: Vec<SurfacePath>,
}

/// A surface as the scheduler sees it: its mesh and its polylines in the
/// order in which they are printed.
pub struct SurfaceView {
    pub mesh: Mesh,
    pub polylines: Seq<Seq<Point3>>,
}

/// An activated surface with the wall parts that wait for it.
pub struct ActiveView {
    pub surface: SurfaceView,
    pub held: Seq<SlicePathView>,
}

/// The state of the scheduler between two steps.
pub struct Schedule {
    /// Surfaces not yet activated, lowest first.
    pub surfaces: Seq<SurfaceView>,
    /// Activated surfaces in the order of their activation.
    pub active: Seq<ActiveView>,
    /// Walls still to be placed, next one first.
    pub walls: Seq<SlicePathView>,
    /// What has been printed so far.
    pub out: Seq<Seq<Point3>>,
}

/// The point sequences of a sequence of outlines.
pub open spec fn outline_polylines(outlines: Seq<SlicePath>) -> Seq<Seq<Point3>> {
    outlines.map_values(|p: SlicePath| p.points@)
}

/// The point sequences of a sequence of surface paths.
pub open spec fn path_polylines(paths: Seq<SurfacePath>) -> Seq<Seq<Point3>> {
    paths.map_values(|p: SurfacePath| p.path@)
}

/// The point sequences of a sequence of polylines.
pub open spec fn polylines_view(out: Seq<Vec<Point3>>) -> Seq<Seq<Point3>> {
    out.map_values(|p: Vec<Point3>| p@)
}

/// The views of a sequence of surfaces.
pub open spec fn surface_views(surfaces: Seq<Surface>) -> Seq<SurfaceView> {
    surfaces.map_values(|s: Surface| s@)
}

impl View for Surface {
    type V = SurfaceView;

    open spec fn view(&self) -> SurfaceView {
        SurfaceView {
            mesh: self.mesh,
            polylines: outline_polylines(self.outlines@) + path_polylines(self.paths@),
        }
    }
}

/// The surface starts no higher than the wall ends.
pub open spec fn wakes(s: SurfaceView, wall: SlicePathView) -> bool {
    s.mesh.spec_aabb().min.z <= wall.aabb.max.z
}

/// The surface ends below the start of the wall.
pub open spec fn is_done(a: ActiveView, wall: SlicePathView) -> bool {
    a.surface.mesh.spec_aabb().max.z < wall.aabb.min.z
}

/// The surfaces that `wall` wakes.
pub open spec fn wakes_by(wall: SlicePathView) -> spec_fn(SurfaceView) -> bool {
    |s: SurfaceView| wakes(s, wall)
}

/// The surfaces that `wall` lets sleep.
pub open spec fn sleeps_by(wall: SlicePathView) -> spec_fn(SurfaceView) -> bool {
    |s: SurfaceView| !wakes(s, wall)
}

/// The active surfaces that `wall` leaves behind.
pub open spec fn done_by(wall: SlicePathView) -> spec_fn(ActiveView) -> bool {
    |a: ActiveView| is_done(a, wall)
}

/// The active surfaces that stay while `wall` is placed.
pub open spec fn stays_by(wall: SlicePathView) -> spec_fn(ActiveView) -> bool {
    |a: ActiveView| !is_done(a, wall)
}

/// The points that are free of `mesh`.
pub open spec fn free_of(
    mesh: Mesh,
    can_reach: spec_fn(Aabb, Point3) -> bool,
    shadow: spec_fn(Point3, Point3) -> bool,
) -> spec_fn(Point3) -> bool {
    |p: Point3| spec_trace_surface(p, &mesh, can_reach, shadow)
}

/// The points that `mesh` keeps from being printed.
pub open spec fn caught_by(
    mesh: Mesh,
    can_reach: spec_fn(Aabb, Point3) -> bool,
    shadow: spec_fn(Point3, Point3) -> bool,
) -> spec_fn(Point3) -> bool {
    |p: Point3| !spec_trace_surface(p, &mesh, can_reach, shadow)
}

/// Surfaces enter the active list with nothing held.
pub open spec fn activated(s: Seq<SurfaceView>) -> Seq<ActiveView> {
    s.map_values(|x: SurfaceView| activate(x))
}

/// A surface enters the active list with nothing held.
pub open spec fn activate(s: SurfaceView) -> ActiveView {
    ActiveView { surface: s, held: Seq::empty() }
}

/// The polylines of the deactivated surfaces, one surface after the other.
pub open spec fn spec_emitted(done: Seq<ActiveView>) -> Seq<Seq<Point3>>
    decreases done.len(),
{
    if done.len() == 0 {
        Seq::empty()
    } else {
        spec_emitted(done.drop_last()) + done.last().surface.polylines
    }
}

/// The wall queue after the held walls of the deactivated surfaces were put
/// back, each at the front, one surface after the other.
pub open spec fn spec_requeue(done: Seq<ActiveView>, walls: Seq<SlicePathView>) -> Seq<SlicePathView>
    decreases done.len(),
{
    if done.len() == 0 {
        walls
    } else {
        done.last().held.reverse() + spec_requeue(done.drop_last(), walls)
    }
}

/// The points of a wall that are left after each surface of `active` in
/// turn has kept the points that are not free of it.
pub open spec fn spec_left(
    active: Seq<ActiveView>,
    points: Seq<Point3>,
    can_reach: spec_fn(Aabb, Point3) -> bool,
    shadow: spec_fn(Point3, Point3) -> bool,
) -> Seq<Point3>
    decreases active.len(),
{
    if active.len() == 0 {
        points
    } else {
        spec_left(active.drop_last(), points, can_reach, shadow).filter(
            free_of(active.last().surface.mesh, can_reach, shadow),
        )
    }
}

/// The points of a wall that the surface at position `k` of `active` keeps:
/// those that the surfaces before it left and that are not free of it.
pub open spec fn spec_kept(
    active: Seq<ActiveView>,
    k: int,
    points: Seq<Point3>,
    can_reach: spec_fn(Aabb, Point3) -> bool,
    shadow: spec_fn(Point3, Point3) -> bool,
) -> Seq<Point3> {
    spec_left(active.take(k), points, can_reach, shadow).filter(
        caught_by(active[k].surface.mesh, can_reach, shadow),
    )
}

/// The active surface at position `k` after the wall was offered to it:
/// where it keeps points, they wait with it as a path that has the rest of
/// the wall's data.
pub open spec fn spec_hold_one(
    active: Seq<ActiveView>,
    k: int,
    wall: SlicePathView,
    can_reach: spec_fn(Aabb, Point3) -> bool,
    shadow: spec_fn(Point3, Point3) -> bool,
) -> ActiveView {
    let kept = spec_kept(active, k, wall.points, can_reach, shadow);
    if kept.len() > 0 {
        ActiveView {
            surface: active[k].surface,
            held: active[k].held.push(SlicePathView { points: kept, ..wall }),
        }
    } else {
        active[k]
    }
}

/// The active list after the wall was offered to each surface in turn.
pub open spec fn spec_hold(
    active: Seq<ActiveView>,
    wall: SlicePathView,
    can_reach: spec_fn(Aabb, Point3) -> bool,
    shadow: spec_fn(Point3, Point3) -> bool,
) -> Seq<ActiveView> {
    Seq::new(active.len(), |k: int| spec_hold_one(active, k, wall, can_reach, shadow))
}

impl Schedule {
    /// Nothing is left to do: no wall waits and no surface is active.
    pub open spec fn finished(self) -> bool {
        self.walls.len() == 0 && self.active.len() == 0
    }

    /// The active list once the surfaces that the wall wakes have joined it.
    pub open spec fn woken(self, wall: SlicePathView) -> Seq<ActiveView> {
        self.active + activated(self.surfaces.filter(wakes_by(wall)))
    }

    /// The surfaces that the wall leaves behind: they are deactivated.
    pub open spec fn retired(self, wall: SlicePathView) -> Seq<ActiveView> {
        self.woken(wall).filter(done_by(wall))
    }

    /// The surfaces that stay active while the wall is placed.
    pub open spec fn staying(self, wall: SlicePathView) -> Seq<ActiveView> {
        self.woken(wall).filter(stays_by(wall))
    }

    /// One step. With a wall waiting: the surfaces it wakes are activated,
    /// the surfaces it leaves behind are printed and their held walls
    /// queued again in front, each staying surface keeps the wall points
    /// that are not free of it, and the wall is printed with the points that
    /// are left, if any. With no wall waiting, every active surface is
    /// printed and its held walls are queued.
    pub open spec fn step(
        self,
        can_reach: spec_fn(Aabb, Point3) -> bool,
        shadow: spec_fn(Point3, Point3) -> bool,
    ) -> Schedule {
        if self.walls.len() > 0 {
            let wall = self.walls.first();
            let retired = self.retired(wall);
            let staying = self.staying(wall);
            let printed = self.out + spec_emitted(retired);
            let left = spec_left(staying, wall.points, can_reach, shadow);
            Schedule {
                surfaces: self.surfaces.filter(sleeps_by(wall)),
                active: spec_hold(staying, wall, can_reach, shadow),
                walls: spec_requeue(retired, self.walls.drop_first()),
                out: if left.len() > 0 {
                    printed.push(left)
                } else {
                    printed
                },
            }
        } else {
            Schedule {
                surfaces: self.surfaces,
                active: Seq::empty(),
                walls: spec_requeue(self.active, Seq::empty()),
                out: self.out + spec_emitted(self.active),
            }
        }
    }

    /// The state after `n` steps.
    pub open spec fn run(
        self,
        n: nat,
        can_reach: spec_fn(Aabb, Point3) -> bool,
        shadow: spec_fn(Point3, Point3) -> bool,
    ) -> Schedule
        decreases n,
    {
        if n == 0 {
            self
        } else {
            self.run((n - 1) as nat, can_reach, shadow).step(can_reach, shadow)
        }
    }
}


/// The state in which the scheduler starts: nothing active, nothing printed.
pub open spec fn spec_initial(surfaces: Seq<Surface>, walls: Seq<SlicePath>) -> Schedule {
    Schedule {
        surfaces: surface_views(surfaces),
        active: Seq::empty(),
        walls: slice_path_views(walls),
        out: Seq::empty(),
    }
}

struct Active {
    surface: Surface,
    held: Vec<SlicePath>,
}

impl View for Active {
    type V = ActiveView;

    closed spec fn view(&self) -> ActiveView {
        ActiveView { surface: self.surface@, held: slice_path_views(self.held@) }
    }
}

spec fn active_views(active: Seq<Active>) -> Seq<ActiveView> {
    active.map_values(|a: Active| a@)
}

/// Moves the surfaces that `wall` wakes to the end of the active list and
/// returns the others, both in their order.
fn wake(surfaces: Vec<Surface>, active: &mut Vec<Active>, wall: &SlicePath) -> (kept: Vec<Surface>)
    ensures
        surface_views(kept@) == surface_views(surfaces@).filter(sleeps_by(wall@)),
        active_views(final(active)@) == active_views(old(active)@) + activated(
            surface_views(surfaces@).filter(wakes_by(wall@)),
        ),
        kept.len() + final(active).len() == surfaces.len() + old(active).len(),
{
    let ghost all = surface_views(surfaces@);
    let ghost before = active_views(active@);
    let n = surfaces.len();
    let mut src = reversed(surfaces);
    let mut kept: Vec<Surface> = Vec::new();
    proof {
        assert(all.take(0) =~= Seq::<SurfaceView>::empty());
        reveal(Seq::filter);
        assert(surface_views(kept@) =~= all.take(0).filter(sleeps_by(wall@)));
        assert(active_views(active@) =~= before + activated(all.take(0).filter(wakes_by(wall@))));
    }
    while src.len() > 0
        invariant
            src.len() <= n,
            n == all.len(),
            forall|j: int| 0 <= j < src.len() ==> (#[trigger] src[j])@ == all[n - 1 - j],
            surface_views(kept@) == all.take(n - src.len()).filter(sleeps_by(wall@)),
            active_views(active@) == before + activated(
                all.take(n - src.len()).filter(wakes_by(wall@)),
            ),
            kept.len() + active.len() == (n - src.len()) + before.len(),
        decreases src.len(),
    {
        let ghost i = n - src.len();
        let ghost kept_before = kept@;
        let ghost active_before = active@;
        let s = src.pop().unwrap();
        proof {
            assert(s@ == all[i]);
            assert(all.take(i + 1) =~= all.take(i).push(all[i]));
            lemma_filter_push(all.take(i), all[i], sleeps_by(wall@));
            lemma_filter_push(all.take(i), all[i], wakes_by(wall@));
        }
        if s.mesh.aabb().min.z <= wall.aabb.max.z {
            active.push(Active { surface: s, held: Vec::new() });
            proof {
                assert(slice_path_views(Seq::<SlicePath>::empty()) =~= Seq::<SlicePathView>::empty());
                assert(active_views(active@) =~= active_views(active_before).push(activate(all[i])));
                assert(activated(all.take(i).filter(wakes_by(wall@)).push(all[i])) =~= activated(
                    all.take(i).filter(wakes_by(wall@)),
                ).push(activate(all[i])));
                assert(active_views(active@) =~= before + activated(
                    all.take(i + 1).filter(wakes_by(wall@)),
                ));
            }
        } else {
            kept.push(s);
            proof {
                assert(surface_views(kept@) =~= surface_views(kept_before).push(all[i]));
            }
        }
    }
    proof {
        assert(all.take(n as int) =~= all);
    }
    kept
}

/// Parts the active list into the surfaces that stay while `wall` is placed
/// and those that it leaves behind, both in their order.
fn part(active: Vec<Active>, wall: &SlicePath) -> (parts: (Vec<Active>, Vec<Active>))
    ensures
        active_views(parts.0@) == active_views(active@).filter(stays_by(wall@)),
        active_views(parts.1@) == active_views(active@).filter(done_by(wall@)),
        parts.0.len() + parts.1.len() == active.len(),
{
    let ghost all = active_views(active@);
    let n = active.len();
    let mut src = reversed(active);
    let mut staying: Vec<Active> = Vec::new();
    let mut done: Vec<Active> = Vec::new();
    proof {
        assert(all.take(0) =~= Seq::<ActiveView>::empty());
        reveal(Seq::filter);
        assert(active_views(staying@) =~= all.take(0).filter(stays_by(wall@)));
        assert(active_views(done@) =~= all.take(0).filter(done_by(wall@)));
    }
    while src.len() > 0
        invariant
            src.len() <= n,
            n == all.len(),
            forall|j: int| 0 <= j < src.len() ==> (#[trigger] src[j])@ == all[n - 1 - j],
            active_views(staying@) == all.take(n - src.len()).filter(stays_by(wall@)),
            active_views(done@) == all.take(n - src.len()).filter(done_by(wall@)),
            staying.len() + done.len() == n - src.len(),
        decreases src.len(),
    {
        let ghost i = n - src.len();
        let ghost staying_before = staying@;
        let ghost done_before = done@;
        let a = src.pop().unwrap();
        proof {
            assert(a@ == all[i]);
            assert(all.take(i + 1) =~= all.take(i).push(all[i]));
            lemma_filter_push(all.take(i), all[i], stays_by(wall@));
            lemma_filter_push(all.take(i), all[i], done_by(wall@));
        }
        if a.surface.mesh.aabb().max.z < wall.aabb.min.z {
            done.push(a);
            proof {
                assert(active_views(done@) =~= active_views(done_before).push(all[i]));
            }
        } else {
            staying.push(a);
            proof {
                assert(active_views(staying@) =~= active_views(staying_before).push(all[i]));
            }
        }
    }
    proof {
        assert(all.take(n as int) =~= all);
    }
    (staying, done)
}

/// Prints one surface and queues its held walls again, each at the front.
fn emit(a: Active, out: &mut Vec<Vec<Point3>>, walls: &mut VecDeque<SlicePath>)
    ensures
        polylines_view(final(out)@) == polylines_view(old(out)@) + a@.surface.polylines,
        slice_path_views(final(walls)@) == a@.held.reverse() + slice_path_views(old(walls)@),
{
    let ghost out_before = polylines_view(out@);
    let ghost walls_before = slice_path_views(walls@);
    let Active { surface, held } = a;
    let Surface { mesh, outlines, paths } = surface;
    let ghost rings = outline_polylines(outlines@);
    let ghost lanes = path_polylines(paths@);
    let ghost waiting = slice_path_views(held@);
    let n = outlines.len();
    let mut src = reversed(outlines);
    proof {
        assert(polylines_view(out@) =~= out_before + rings.take(0));
    }
    while src.len() > 0
        invariant
            src.len() <= n,
            n == rings.len(),
            forall|j: int| 0 <= j < src.len() ==> (#[trigger] src[j]).points@ == rings[n - 1 - j],
            polylines_view(out@) == out_before + rings.take(n - src.len()),
        decreases src.len(),
    {
        let ghost i = n - src.len();
        let ghost prev = out@;
        let ring = src.pop().unwrap();
        out.push(ring.points);
        proof {
            assert(polylines_view(out@) =~= polylines_view(prev).push(rings[i]));
            assert(rings.take(i + 1) =~= rings.take(i).push(rings[i]));
            assert(polylines_view(out@) =~= out_before + rings.take(i + 1));
        }
    }
    let m = paths.len();
    let mut src = reversed(paths);
    proof {
        assert(rings.take(n as int) =~= rings);
        assert(polylines_view(out@) =~= out_before + rings + lanes.take(0));
    }
    while src.len() > 0
        invariant
            src.len() <= m,
            m == lanes.len(),
            forall|j: int| 0 <= j < src.len() ==> (#[trigger] src[j]).path@ == lanes[m - 1 - j],
            polylines_view(out@) == out_before + rings + lanes.take(m - src.len()),
        decreases src.len(),
    {
        let ghost i = m - src.len();
        let ghost prev = out@;
        let lane = src.pop().unwrap();
        out.push(lane.path);
        proof {
            assert(polylines_view(out@) =~= polylines_view(prev).push(lanes[i]));
            assert(lanes.take(i + 1) =~= lanes.take(i).push(lanes[i]));
            assert(polylines_view(out@) =~= out_before + rings + lanes.take(i + 1));
        }
    }
    let h = held.len();
    let mut src = reversed(held);
    proof {
        assert(lanes.take(m as int) =~= lanes);
        assert(polylines_view(out@) =~= out_before + (rings + lanes));
        assert(slice_path_views(walls@) =~= waiting.take(0).reverse() + walls_before);
    }
    while src.len() > 0
        invariant
            src.len() <= h,
            h == waiting.len(),
            forall|j: int| 0 <= j < src.len() ==> (#[trigger] src[j])@ == waiting[h - 1 - j],
            slice_path_views(walls@) == waiting.take(h - src.len()).reverse() + walls_before,
        decreases src.len(),
    {
        let ghost i = h - src.len();
        let ghost prev = walls@;
        let wall = src.pop().unwrap();
        walls.push_front(wall);
        proof {
            assert(walls@ =~= seq![wall] + prev);
            assert(slice_path_views(walls@) =~= seq![waiting[i]] + slice_path_views(prev));
            assert(waiting.take(i + 1).reverse() =~= seq![waiting[i]] + waiting.take(i).reverse());
            assert(slice_path_views(walls@) =~= waiting.take(i + 1).reverse() + walls_before);
        }
    }
    proof {
        assert(waiting.take(h as int) =~= waiting);
    }
}

/// Prints the surfaces of `done` one after the other and queues their held
/// walls.
fn drain(done: Vec<Active>, out: &mut Vec<Vec<Point3>>, walls: &mut VecDeque<SlicePath>)
    ensures
        polylines_view(final(out)@) == polylines_view(old(out)@) + spec_emitted(
            active_views(done@),
        ),
        slice_path_views(final(walls)@) == spec_requeue(
            active_views(done@),
            slice_path_views(old(walls)@),
        ),
        done.len() == 0 ==> final(walls)@.len() == old(walls)@.len(),
{
    let ghost all = active_views(done@);
    let ghost out_before = polylines_view(out@);
    let ghost walls_before = slice_path_views(walls@);
    let n = done.len();
    let mut src = reversed(done);
    proof {
        assert(all.take(0) =~= Seq::<ActiveView>::empty());
        assert(polylines_view(out@) =~= out_before + spec_emitted(all.take(0)));
    }
    while src.len() > 0
        invariant
            src.len() <= n,
            n == all.len(),
            forall|j: int| 0 <= j < src.len() ==> (#[trigger] src[j])@ == all[n - 1 - j],
            polylines_view(out@) == out_before + spec_emitted(all.take(n - src.len())),
            slice_path_views(walls@) == spec_requeue(all.take(n - src.len()), walls_before),
            n == 0 ==> walls@.len() == old(walls)@.len(),
        decreases src.len(),
    {
        let ghost i = n - src.len();
        let a = src.pop().unwrap();
        proof {
            assert(all.take(i + 1).drop_last() =~= all.take(i));
            assert(all.take(i + 1).last() == all[i]);
        }
        emit(a, out, walls);
        proof {
            assert(polylines_view(out@) =~= out_before + spec_emitted(all.take(i + 1)));
        }
    }
    proof {
        assert(all.take(n as int) =~= all);
    }
}

/// Parts `points` into those that are free of `mesh` and those that it
/// keeps, both in their order.
fn sift<R: Fn(Aabb, Point3) -> bool, S: Fn(Point3, Point3) -> bool>(
    points: &Vec<Point3>,
    mesh: &Mesh,
    reaches: &R,
    shadows: &S,
) -> (parts: (Vec<Point3>, Vec<Point3>))
    requires
        asks_box(reaches),
        asks_points(shadows),
    ensures
        forall|can_reach: spec_fn(Aabb, Point3) -> bool, shadow: spec_fn(Point3, Point3) -> bool|
            #![trigger tells_box(reaches, can_reach), tells_points(shadows, shadow)]
            tells_box(reaches, can_reach) && tells_points(shadows, shadow) ==> {
                &&& parts.0@ == points@.filter(free_of(*mesh, can_reach, shadow))
                &&& parts.1@ == points@.filter(caught_by(*mesh, can_reach, shadow))
            },
{
    let mut free: Vec<Point3> = Vec::new();
    let mut held: Vec<Point3> = Vec::new();
    let mut i: usize = 0;
    proof {
        reveal(Seq::filter);
        assert(points@.take(0) =~= Seq::<Point3>::empty());
    }
    while i < points.len()
        invariant
            i <= points.len(),
            asks_box(reaches),
            asks_points(shadows),
            forall|can_reach: spec_fn(Aabb, Point3) -> bool, shadow: spec_fn(Point3, Point3) -> bool|
                #![trigger tells_box(reaches, can_reach), tells_points(shadows, shadow)]
                tells_box(reaches, can_reach) && tells_points(shadows, shadow) ==> {
                    &&& free@ == points@.take(i as int).filter(free_of(*mesh, can_reach, shadow))
                    &&& held@ == points@.take(i as int).filter(caught_by(*mesh, can_reach, shadow))
                },
        decreases points.len() - i,
    {
        let p = points[i];
        let ghost free_before = free@;
        let ghost held_before = held@;
        let is_free = trace_surface(&p, mesh, reaches, shadows);
        if is_free {
            free.push(p);
        } else {
            held.push(p);
        }
        proof {
            assert forall|
                can_reach: spec_fn(Aabb, Point3) -> bool,
                shadow: spec_fn(Point3, Point3) -> bool,
            |
                #![trigger tells_box(reaches, can_reach), tells_points(shadows, shadow)]
                tells_box(reaches, can_reach) && tells_points(shadows, shadow) implies {
                &&& free@ == points@.take(i + 1).filter(free_of(*mesh, can_reach, shadow))
                &&& held@ == points@.take(i + 1).filter(caught_by(*mesh, can_reach, shadow))
            } by {
                assert(points@.take(i + 1) =~= points@.take(i as int).push(p));
                lemma_filter_push(points@.take(i as int), p, free_of(*mesh, can_reach, shadow));
                lemma_filter_push(points@.take(i as int), p, caught_by(*mesh, can_reach, shadow));
            }
        }
        i = i + 1;
    }
    proof {
        assert(points@.take(i as int) =~= points@);
    }
    (free, held)
}


/// Offers the wall to each active surface in turn. A surface keeps the
/// points that are not free of it; they wait with it as a path that has the
/// rest of the wall's data. Returns the surfaces and the points that are
/// left.
fn hold<R: Fn(Aabb, Point3) -> bool, S: Fn(Point3, Point3) -> bool>(
    active: Vec<Active>,
    wall: SlicePath,
    reaches: &R,
    shadows: &S,
) -> (res: (Vec<Active>, Vec<Point3>))
    requires
        asks_box(reaches),
        asks_points(shadows),
    ensures
        res.0.len() == active.len(),
        forall|can_reach: spec_fn(Aabb, Point3) -> bool, shadow: spec_fn(Point3, Point3) -> bool|
            #![trigger tells_box(reaches, can_reach), tells_points(shadows, shadow)]
            tells_box(reaches, can_reach) && tells_points(shadows, shadow) ==> {
                &&& active_views(res.0@) == spec_hold(
                    active_views(active@),
                    wall@,
                    can_reach,
                    shadow,
                )
                &&& res.1@ == spec_left(active_views(active@), wall@.points, can_reach, shadow)
            },
{
    let ghost all = active_views(active@);
    let ghost w = wall@;
    let SlicePath { i, d, axis, points, closed, aabb } = wall;
    let n = active.len();
    let mut src = reversed(active);
    let mut next: Vec<Active> = Vec::new();
    let mut cur = points;
    proof {
        assert(all.take(0) =~= Seq::<ActiveView>::empty());
    }
    while src.len() > 0
        invariant
            asks_box(reaches),
            asks_points(shadows),
            src.len() <= n,
            n == all.len(),
            w == (SlicePathView { i, d, axis, points: w.points, closed, aabb }),
            forall|j: int| 0 <= j < src.len() ==> (#[trigger] src[j])@ == all[n - 1 - j],
            next.len() == n - src.len(),
            forall|can_reach: spec_fn(Aabb, Point3) -> bool, shadow: spec_fn(Point3, Point3) -> bool|
                #![trigger tells_box(reaches, can_reach), tells_points(shadows, shadow)]
                tells_box(reaches, can_reach) && tells_points(shadows, shadow) ==> {
                    &&& cur@ == spec_left(all.take(n - src.len()), w.points, can_reach, shadow)
                    &&& forall|j: int|
                        0 <= j < next.len() ==> (#[trigger] next[j])@ == spec_hold_one(
                            all,
                            j,
                            w,
                            can_reach,
                            shadow,
                        )
                },
        decreases src.len(),
    {
        let ghost k = n - src.len();
        let ghost next_before = next@;
        let ghost cur_before = cur@;
        let mut a = src.pop().unwrap();
        let ghost held_before = a.held@;
        let (free, kept) = sift(&cur, &a.surface.mesh, reaches, shadows);
        if kept.len() > 0 {
            a.held.push(SlicePath { i, d, axis, points: kept, closed, aabb });
        }
        proof {
            assert forall|
                can_reach: spec_fn(Aabb, Point3) -> bool,
                shadow: spec_fn(Point3, Point3) -> bool,
            |
                #![trigger tells_box(reaches, can_reach), tells_points(shadows, shadow)]
                tells_box(reaches, can_reach) && tells_points(shadows, shadow) implies {
                &&& free@ == spec_left(all.take(k + 1), w.points, can_reach, shadow)
                &&& a@ == spec_hold_one(all, k, w, can_reach, shadow)
            } by {
                assert(all.take(k + 1).drop_last() =~= all.take(k));
                assert(all.take(k + 1).last() == all[k]);
                assert(kept@ == spec_kept(all, k, w.points, can_reach, shadow));
                if kept.len() > 0 {
                    assert(slice_path_views(a.held@) =~= slice_path_views(held_before).push(
                        SlicePathView { points: kept@, ..w },
                    ));
                }
            }
        }
        next.push(a);
        cur = free;
    }
    proof {
        assert(all.take(n as int) =~= all);
        assert forall|can_reach: spec_fn(Aabb, Point3) -> bool, shadow: spec_fn(Point3, Point3) -> bool|
            #![trigger tells_box(reaches, can_reach), tells_points(shadows, shadow)]
            tells_box(reaches, can_reach) && tells_points(shadows, shadow) implies active_views(
            next@,
        ) == spec_hold(all, w, can_reach, shadow) by {
            assert(active_views(next@) =~= spec_hold(all, w, can_reach, shadow));
        }
    }
    (next, cur)
}

spec fn spec_current(
    surfaces: Seq<Surface>,
    active: Seq<Active>,
    walls: Seq<SlicePath>,
    out: Seq<Vec<Point3>>,
) -> Schedule {
    Schedule {
        surfaces: surface_views(surfaces),
        active: active_views(active),
        walls: slice_path_views(walls),
        out: polylines_view(out),
    }
}

proof fn lemma_same(a: Schedule, b: Schedule)
    requires
        a.surfaces =~= b.surfaces,
        a.active =~= b.active,
        a.walls =~= b.walls,
        a.out =~= b.out,
    ensures
        a == b,
{
}

/// Puts walls and surfaces into print order.
///
/// `surfaces` come lowest first, `walls` in the order of their layers.
/// The scheduler takes one step after the other (see `Schedule::step`)
/// until no wall waits and no surface is active; what has been printed by
/// then is returned. `reaches` and `shadows` are the questions of
/// `trace_surface`.
pub fn schedule<R: Fn(Aabb, Point3) -> bool, S: Fn(Point3, Point3) -> bool>(
    surfaces: Vec<Surface>,
    walls: VecDeque<SlicePath>,
    reaches: &R,
    shadows: &S,
) -> (out: Vec<Vec<Point3>>)
    requires
        asks_box(reaches),
        asks_points(shadows),
    ensures
        forall|can_reach: spec_fn(Aabb, Point3) -> bool, shadow: spec_fn(Point3, Point3) -> bool|
            #![trigger tells_box(reaches, can_reach), tells_points(shadows, shadow)]
            tells_box(reaches, can_reach) && tells_points(shadows, shadow) ==> exists|n: nat|
                {
                    &&& (#[trigger] spec_initial(surfaces@, walls@).run(
                        n,
                        can_reach,
                        shadow,
                    )).finished()
                    &&& polylines_view(out@) == spec_initial(surfaces@, walls@).run(
                        n,
                        can_reach,
                        shadow,
                    ).out
                },
{
    let ghost start = spec_initial(surfaces@, walls@);
    let mut surfaces = surfaces;
    let mut walls = walls;
    let mut active: Vec<Active> = Vec::new();
    let mut out: Vec<Vec<Point3>> = Vec::new();
    proof {
        assert forall|can_reach: spec_fn(Aabb, Point3) -> bool, shadow: spec_fn(Point3, Point3) -> bool|
            #![trigger tells_box(reaches, can_reach), tells_points(shadows, shadow)]
            tells_box(reaches, can_reach) && tells_points(shadows, shadow) implies exists|n: nat| #[trigger]
            start.run(n, can_reach, shadow) == spec_current(surfaces@, active@, walls@, out@) by {
            lemma_same(start.run(0, can_reach, shadow), spec_current(surfaces@, active@, walls@, out@));
        }
    }
    loop
        invariant
            asks_box(reaches),
            asks_points(shadows),
            forall|can_reach: spec_fn(Aabb, Point3) -> bool, shadow: spec_fn(Point3, Point3) -> bool|
                #![trigger tells_box(reaches, can_reach), tells_points(shadows, shadow)]
                tells_box(reaches, can_reach) && tells_points(shadows, shadow) ==> exists|n: nat| #[trigger]
                    start.run(n, can_reach, shadow) == spec_current(
                        surfaces@,
                        active@,
                        walls@,
                        out@,
                    ),
        ensures
            walls@.len() == 0,
            active@.len() == 0,
        decreases surfaces.len() + active.len(), walls.len(),
    {
        let ghost s = spec_current(surfaces@, active@, walls@, out@);
        let ghost walls_before = walls@;
        match walls.pop_front() {
            Some(wall) => {
                let ghost w = wall@;
                proof {
                    assert(w == s.walls.first());
                    assert(slice_path_views(walls@) =~= s.walls.drop_first());
                }
                surfaces = wake(surfaces, &mut active, &wall);
                let (staying, done) = part(active, &wall);
                drain(done, &mut out, &mut walls);
                let ghost printed = polylines_view(out@);
                let (next, left) = hold(staying, wall, reaches, shadows);
                active = next;
                if left.len() > 0 {
                    out.push(left);
                    proof {
                        assert(polylines_view(out@) =~= printed.push(left@));
                    }
                }
                proof {
                    assert forall|
                        can_reach: spec_fn(Aabb, Point3) -> bool,
                        shadow: spec_fn(Point3, Point3) -> bool,
                    |
                        #![trigger tells_box(reaches, can_reach), tells_points(shadows, shadow)]
                        tells_box(reaches, can_reach) && tells_points(
                            shadows,
                            shadow,
                        ) implies exists|n: nat| #[trigger]
                        start.run(n, can_reach, shadow) == spec_current(
                            surfaces@,
                            active@,
                            walls@,
                            out@,
                        ) by {
                        let n0 = choose|n: nat| #[trigger]
                            start.run(n, can_reach, shadow) == s;
                        lemma_same(
                            s.step(can_reach, shadow),
                            spec_current(surfaces@, active@, walls@, out@),
                        );
                        assert(start.run(n0 + 1, can_reach, shadow) == spec_current(
                            surfaces@,
                            active@,
                            walls@,
                            out@,
                        ));
                    }
                }
            },
            None => {
                if active.len() == 0 {
                    break ;
                }
                let mut done: Vec<Active> = Vec::new();
                let ghost active_before = active@;
                done.append(&mut active);
                proof {
                    assert(done@ =~= active_before);
                    assert(slice_path_views(walls@) =~= Seq::<SlicePathView>::empty());
                }
                drain(done, &mut out, &mut walls);
                proof {
                    assert forall|
                        can_reach: spec_fn(Aabb, Point3) -> bool,
                        shadow: spec_fn(Point3, Point3) -> bool,
                    |
                        #![trigger tells_box(reaches, can_reach), tells_points(shadows, shadow)]
                        tells_box(reaches, can_reach) && tells_points(
                            shadows,
                            shadow,
                        ) implies exists|n: nat| #[trigger]
                        start.run(n, can_reach, shadow) == spec_current(
                            surfaces@,
                            active@,
                            walls@,
                            out@,
                        ) by {
                        let n0 = choose|n: nat| #[trigger]
                            start.run(n, can_reach, shadow) == s;
                        lemma_same(
                            s.step(can_reach, shadow),
                            spec_current(surfaces@, active@, walls@, out@),
                        );
                        assert(start.run(n0 + 1, can_reach, shadow) == spec_current(
                            surfaces@,
                            active@,
                            walls@,
                            out@,
                        ));
                    }
                }
            },
        }
    }
    proof {
        assert forall|can_reach: spec_fn(Aabb, Point3) -> bool, shadow: spec_fn(Point3, Point3) -> bool|
            #![trigger tells_box(reaches, can_reach), tells_points(shadows, shadow)]
            tells_box(reaches, can_reach) && tells_points(shadows, shadow) implies exists|n: nat|
            {
                &&& (#[trigger] start.run(n, can_reach, shadow)).finished()
                &&& polylines_view(out@) == start.run(n, can_reach, shadow).out
            } by {
            let n0 = choose|n: nat| #[trigger]
                start.run(n, can_reach, shadow) == spec_current(surfaces@, active@, walls@, out@);
            assert(start.run(n0, can_reach, shadow).finished());
        }
    }
    out
}

/// The height at which each surface starts.
pub open spec fn spec_floors(surfaces: Seq<SurfaceView>) -> Seq<i64> {
    surfaces.map_values(|s: SurfaceView| s.mesh.spec_aabb().min.z)
}

/// Puts the surfaces in ascending order of the height at which they start.
/// Surfaces that start at the same height stay in the order in which they
/// came.
pub fn order_surfaces(surfaces: Vec<Surface>) -> (ordered: Vec<Surface>)
    ensures
        ordered.len() == surfaces.len(),
        surface_views(ordered@) == spec_sort(
            surface_views(surfaces@),
            spec_floors(surface_views(surfaces@)),
        ).0,
{
    let mut keys: Vec<i64> = Vec::new();
    let mut i: usize = 0;
    while i < surfaces.len()
        invariant
            i <= surfaces.len(),
            keys@ == spec_floors(surface_views(surfaces@.take(i as int))),
        decreases surfaces.len() - i,
    {
        keys.push(surfaces[i].mesh.aabb().min.z);
        proof {
            assert(surfaces@.take(i + 1) =~= surfaces@.take(i as int).push(surfaces[i as int]));
            assert(keys@ =~= spec_floors(surface_views(surfaces@.take(i + 1))));
        }
        i = i + 1;
    }
    proof {
        assert(surfaces@.take(i as int) =~= surfaces@);
        lemma_sort_map(surfaces@, keys@, |s: Surface| s@);
    }
    let (ordered, _) = sort_by_keys(surfaces, &keys);
    ordered
}

/// A finished schedule stays as it is.
pub proof fn lemma_finished_is_fixed(
    s: Schedule,
    can_reach: spec_fn(Aabb, Point3) -> bool,
    shadow: spec_fn(Point3, Point3) -> bool,
)
    requires
        s.finished(),
    ensures
        s.step(can_reach, shadow) == s,
{
    let t = s.step(can_reach, shadow);
    assert(s.active =~= Seq::<ActiveView>::empty());
    assert(t.walls =~= s.walls);
    assert(t.out =~= s.out);
    lemma_same(t, s);
}

/// Once a schedule is finished, further steps change nothing.
pub proof fn lemma_run_stays(
    s: Schedule,
    n: nat,
    more: nat,
    can_reach: spec_fn(Aabb, Point3) -> bool,
    shadow: spec_fn(Point3, Point3) -> bool,
)
    requires
        s.run(n, can_reach, shadow).finished(),
    ensures
        s.run(n + more, can_reach, shadow) == s.run(n, can_reach, shadow),
    decreases more,
{
    if more > 0 {
        lemma_run_stays(s, n, (more - 1) as nat, can_reach, shadow);
        lemma_finished_is_fixed(s.run(n, can_reach, shadow), can_reach, shadow);
    }
}

/// The print order is settled by the input: whatever number of steps a
/// schedule is finished after, what has been printed by then is the same.
pub proof fn lemma_print_order_is_settled(
    s: Schedule,
    n: nat,
    m: nat,
    can_reach: spec_fn(Aabb, Point3) -> bool,
    shadow: spec_fn(Point3, Point3) -> bool,
)
    requires
        s.run(n, can_reach, shadow).finished(),
        s.run(m, can_reach, shadow).finished(),
    ensures
        s.run(n, can_reach, shadow).out == s.run(m, can_reach, shadow).out,
{
    if n <= m {
        lemma_run_stays(s, n, (m - n) as nat, can_reach, shadow);
    } else {
        lemma_run_stays(s, m, (n - m) as nat, can_reach, shadow);
    }
}

/// Number of polylines that the surfaces of `done` print.
pub open spec fn spec_polyline_count(done: Seq<ActiveView>) -> nat
    decreases done.len(),
{
    if done.len() == 0 {
        0
    } else {
        spec_polyline_count(done.drop_last()) + done.last().surface.polylines.len()
    }
}

proof fn lemma_emitted_len(done: Seq<ActiveView>)
    ensures
        spec_emitted(done).len() == spec_polyline_count(done),
    decreases done.len(),
{
    if done.len() > 0 {
        lemma_emitted_len(done.drop_last());
    }
}

/// What one step prints: the polylines of the surfaces that it
/// deactivates, each once, and the wall that it places where points of it
/// are left.
pub proof fn lemma_step_prints(
    s: Schedule,
    can_reach: spec_fn(Aabb, Point3) -> bool,
    shadow: spec_fn(Point3, Point3) -> bool,
)
    ensures
        s.walls.len() > 0 ==> s.step(can_reach, shadow).out.len() == s.out.len()
            + spec_polyline_count(s.retired(s.walls.first())) + if spec_left(
            s.staying(s.walls.first()),
            s.walls.first().points,
            can_reach,
            shadow,
        ).len() > 0 {
            1int
        } else {
            0int
        },
        s.walls.len() == 0 ==> s.step(can_reach, shadow).out.len() == s.out.len()
            + spec_polyline_count(s.active),
        s.walls.len() > 0 ==> s.step(can_reach, shadow).surfaces.len() + s.step(
            can_reach,
            shadow,
        ).active.len() + s.retired(s.walls.first()).len() == s.surfaces.len() + s.active.len(),
{
    if s.walls.len() > 0 {
        let wall = s.walls.first();
        lemma_emitted_len(s.retired(wall));
        lemma_parts(s.surfaces, wakes_by(wall), sleeps_by(wall));
        lemma_parts(s.woken(wall), done_by(wall), stays_by(wall));
    } else {
        lemma_emitted_len(s.active);
    }
}

/// A sequence falls into the elements that meet a condition and those that
/// do not.
proof fn lemma_parts<A>(s: Seq<A>, yes: spec_fn(A) -> bool, no: spec_fn(A) -> bool)
    requires
        forall|x: A| #[trigger] no(x) == !yes(x),
    ensures
        s.filter(yes).len() + s.filter(no).len() == s.len(),
    decreases s.len(),
{
    reveal(Seq::filter);
    if s.len() > 0 {
        lemma_parts(s.drop_last(), yes, no);
    }
}

/// Every point that a surface keeps from a wall is a point of that wall
/// that is not free of the surface.
pub proof fn lemma_held_points_are_covered(
    active: Seq<ActiveView>,
    k: int,
    points: Seq<Point3>,
    can_reach: spec_fn(Aabb, Point3) -> bool,
    shadow: spec_fn(Point3, Point3) -> bool,
    j: int,
)
    requires
        0 <= k < active.len(),
        0 <= j < spec_kept(active, k, points, can_reach, shadow).len(),
    ensures
        !spec_trace_surface(
            spec_kept(active, k, points, can_reach, shadow)[j],
            &active[k].surface.mesh,
            can_reach,
            shadow,
        ),
        points.contains(spec_kept(active, k, points, can_reach, shadow)[j]),
{
    let incoming = spec_left(active.take(k), points, can_reach, shadow);
    let pred = caught_by(active[k].surface.mesh, can_reach, shadow);
    let kept = incoming.filter(pred);
    incoming.lemma_filter_pred(pred, j);
    incoming.lemma_filter_contains_rev(pred, kept[j]);
    lemma_left_is_part(active.take(k), points, can_reach, shadow, kept[j]);
}

/// What is left of a wall is part of the wall.
proof fn lemma_left_is_part(
    active: Seq<ActiveView>,
    points: Seq<Point3>,
    can_reach: spec_fn(Aabb, Point3) -> bool,
    shadow: spec_fn(Point3, Point3) -> bool,
    p: Point3,
)
    requires
        spec_left(active, points, can_reach, shadow).contains(p),
    ensures
        points.contains(p),
    decreases active.len(),
{
    if active.len() > 0 {
        let before = spec_left(active.drop_last(), points, can_reach, shadow);
        before.lemma_filter_contains_rev(free_of(active.last().surface.mesh, can_reach, shadow), p);
        lemma_left_is_part(active.drop_last(), points, can_reach, shadow, p);
    }
}

/// The walls that wait with the surfaces that a step deactivates come
/// first in the queue after the step, before every wall that was waiting
/// in the queue.
pub proof fn lemma_requeue_in_front(done: Seq<ActiveView>, walls: Seq<SlicePathView>)
    ensures
        spec_requeue(done, walls).len() >= walls.len(),
        spec_requeue(done, walls).skip(spec_requeue(done, walls).len() - walls.len()) == walls,
    decreases done.len(),
{
    if done.len() == 0 {
        assert(walls.skip(0) =~= walls);
    } else {
        lemma_requeue_in_front(done.drop_last(), walls);
        let before = spec_requeue(done.drop_last(), walls);
        let all = spec_requeue(done, walls);
        assert(all.skip(all.len() - walls.len()) =~= before.skip(before.len() - walls.len()));
    }
}

/// The points that the surfaces of `active` keep of a wall, surface after
/// surface.
pub open spec fn spec_kept_all(
    active: Seq<ActiveView>,
    points: Seq<Point3>,
    can_reach: spec_fn(Aabb, Point3) -> bool,
    shadow: spec_fn(Point3, Point3) -> bool,
) -> Seq<Point3>
    decreases active.len(),
{
    if active.len() == 0 {
        Seq::empty()
    } else {
        spec_kept_all(active.drop_last(), points, can_reach, shadow) + spec_kept(
            active,
            active.len() - 1,
            points,
            can_reach,
            shadow,
        )
    }
}

proof fn lemma_filter_parts<A>(s: Seq<A>, yes: spec_fn(A) -> bool, no: spec_fn(A) -> bool)
    requires
        forall|x: A| #[trigger] no(x) == !yes(x),
    ensures
        s.filter(yes).to_multiset().add(s.filter(no).to_multiset()) == s.to_multiset(),
    decreases s.len(),
{
    broadcast use vstd::seq_lib::to_multiset_build;

    if s.len() == 0 {
        reveal(Seq::filter);
        assert(s.filter(yes) =~= s);
        assert(s.filter(no) =~= s);
        assert(s + s =~= s);
        vstd::seq_lib::lemma_multiset_commutative(s, s);
    } else {
        lemma_filter_parts(s.drop_last(), yes, no);
        let front = s.drop_last();
        let x = s.last();
        assert(s =~= front.push(x));
        lemma_filter_push(front, x, yes);
        lemma_filter_push(front, x, no);
        if yes(x) {
            assert(front.filter(yes).push(x).to_multiset().add(front.filter(no).to_multiset())
                =~= front.filter(yes).to_multiset().add(front.filter(no).to_multiset()).insert(x));
        } else {
            assert(front.filter(yes).to_multiset().add(front.filter(no).push(x).to_multiset())
                =~= front.filter(yes).to_multiset().add(front.filter(no).to_multiset()).insert(x));
        }
    }
}

/// Placing a wall parts its points: each point is either left to be
/// printed with the wall or kept by exactly one surface, as often as the
/// wall has it.
pub proof fn lemma_hold_parts_the_wall(
    active: Seq<ActiveView>,
    points: Seq<Point3>,
    can_reach: spec_fn(Aabb, Point3) -> bool,
    shadow: spec_fn(Point3, Point3) -> bool,
)
    ensures
        spec_left(active, points, can_reach, shadow).to_multiset().add(
            spec_kept_all(active, points, can_reach, shadow).to_multiset(),
        ) == points.to_multiset(),
    decreases active.len(),
{
    if active.len() == 0 {
        assert(points + Seq::<Point3>::empty() =~= points);
        vstd::seq_lib::lemma_multiset_commutative(points, Seq::<Point3>::empty());
    } else {
        let front = active.drop_last();
        let mesh = active.last().surface.mesh;
        lemma_hold_parts_the_wall(front, points, can_reach, shadow);
        let incoming = spec_left(front, points, can_reach, shadow);
        assert(active.take(active.len() - 1) =~= front);
        lemma_filter_parts(
            incoming,
            free_of(mesh, can_reach, shadow),
            caught_by(mesh, can_reach, shadow),
        );
        let kept_before = spec_kept_all(front, points, can_reach, shadow);
        let kept_now = spec_kept(active, active.len() - 1, points, can_reach, shadow);
        vstd::seq_lib::lemma_multiset_commutative(kept_before, kept_now);
        let left = spec_left(active, points, can_reach, shadow);
        assert(left.to_multiset().add(kept_before.to_multiset().add(kept_now.to_multiset()))
            =~= left.to_multiset().add(kept_now.to_multiset()).add(kept_before.to_multiset()));
    }
}

/// Number of polylines that one step prints for walls: one where a wall
/// is placed with points left, none else.
pub open spec fn spec_wall_lines(
    s: Schedule,
    can_reach: spec_fn(Aabb, Point3) -> bool,
    shadow: spec_fn(Point3, Point3) -> bool,
) -> nat {
    if s.walls.len() > 0 && spec_left(
        s.staying(s.walls.first()),
        s.walls.first().points,
        can_reach,
        shadow,
    ).len() > 0 {
        1
    } else {
        0
    }
}

/// Number of polylines that one step prints for surfaces: the outlines and
/// paths of the surfaces that it deactivates.
pub open spec fn spec_surface_lines(s: Schedule) -> nat {
    if s.walls.len() > 0 {
        spec_polyline_count(s.retired(s.walls.first()))
    } else {
        spec_polyline_count(s.active)
    }
}

/// Number of walls that the first `n` steps place with points left.
pub open spec fn spec_walls_placed(
    s: Schedule,
    n: nat,
    can_reach: spec_fn(Aabb, Point3) -> bool,
    shadow: spec_fn(Point3, Point3) -> bool,
) -> nat
    decreases n,
{
    if n == 0 {
        0
    } else {
        spec_walls_placed(s, (n - 1) as nat, can_reach, shadow) + spec_wall_lines(
            s.run((n - 1) as nat, can_reach, shadow),
            can_reach,
            shadow,
        )
    }
}

/// Number of outlines and paths of the surfaces that the first `n` steps
/// deactivate.
pub open spec fn spec_surfaces_printed(
    s: Schedule,
    n: nat,
    can_reach: spec_fn(Aabb, Point3) -> bool,
    shadow: spec_fn(Point3, Point3) -> bool,
) -> nat
    decreases n,
{
    if n == 0 {
        0
    } else {
        spec_surfaces_printed(s, (n - 1) as nat, can_reach, shadow) + spec_surface_lines(
            s.run((n - 1) as nat, can_reach, shadow),
        )
    }
}

/// What has been printed after any number of steps is as long as the
/// count of the walls that were placed with points left and of the
/// outlines and paths of the surfaces that were deactivated.
pub proof fn lemma_run_prints(
    s: Schedule,
    n: nat,
    can_reach: spec_fn(Aabb, Point3) -> bool,
    shadow: spec_fn(Point3, Point3) -> bool,
)
    ensures
        s.run(n, can_reach, shadow).out.len() == s.out.len() + spec_walls_placed(
            s,
            n,
            can_reach,
            shadow,
        ) + spec_surfaces_printed(s, n, can_reach, shadow),
    decreases n,
{
    if n > 0 {
        lemma_run_prints(s, (n - 1) as nat, can_reach, shadow);
        lemma_step_prints(s.run((n - 1) as nat, can_reach, shadow), can_reach, shadow);
    }
}

/// Every point that is left of a wall is free of each surface that stays
/// active.
pub proof fn lemma_left_points_are_free(
    active: Seq<ActiveView>,
    points: Seq<Point3>,
    can_reach: spec_fn(Aabb, Point3) -> bool,
    shadow: spec_fn(Point3, Point3) -> bool,
    j: int,
    k: int,
)
    requires
        0 <= j < spec_left(active, points, can_reach, shadow).len(),
        0 <= k < active.len(),
    ensures
        spec_trace_surface(
            spec_left(active, points, can_reach, shadow)[j],
            &active[k].surface.mesh,
            can_reach,
            shadow,
        ),
    decreases active.len(),
{
    let front = active.drop_last();
    let before = spec_left(front, points, can_reach, shadow);
    let pred = free_of(active.last().surface.mesh, can_reach, shadow);
    let p = before.filter(pred)[j];
    before.lemma_filter_pred(pred, j);
    if k < active.len() - 1 {
        before.lemma_filter_contains_rev(pred, p);
        let at = choose|at: int| 0 <= at < before.len() && before[at] == p;
        lemma_left_points_are_free(front, points, can_reach, shadow, at, k);
    }
}

} // verus!
