use vstd::prelude::*;
use crate::point::Point3;

verus! {

/// An axis-aligned box, given by its least and its greatest corner.
#[derive(Clone, Copy, Debug, PartialEq, Eq, Structural)]
pub struct Aabb {
    pub min: Point3,
    pub max: Point3,
}

/// The lesser of two coordinates.
pub open spec fn spec_min(a: i64, b: i64) -> i64 {
    if b < a {
        b
    } else {
        a
    }
}

/// The greater of two coordinates.
pub open spec fn spec_max(a: i64, b: i64) -> i64 {
    if b > a {
        b
    } else {
        a
    }
}

fn least(a: i64, b: i64) -> (m: i64)
    ensures
        m == spec_min(a, b),
{
    if b < a {
        b
    } else {
        a
    }
}

fn greatest(a: i64, b: i64) -> (m: i64)
    ensures
        m == spec_max(a, b),
{
    if b > a {
        b
    } else {
        a
    }
}

impl Aabb {
    /// The box that holds no point: every least coordinate lies above every
    /// greatest one.
    pub open spec fn spec_empty() -> Aabb {
        Aabb {
            min: Point3 { x: i64::MAX, y: i64::MAX, z: i64::MAX },
            max: Point3 { x: i64::MIN, y: i64::MIN, z: i64::MIN },
        }
    }

    /// The box that holds `p` alone.
    pub open spec fn spec_of_point(p: Point3) -> Aabb {
        Aabb { min: p, max: p }
    }

    /// `p` lies inside the box, borders included.
    pub open spec fn spec_contains(self, p: Point3) -> bool {
        &&& self.min.x <= p.x <= self.max.x
        &&& self.min.y <= p.y <= self.max.y
        &&& self.min.z <= p.z <= self.max.z
    }

    /// The least box that holds this box and `p`.
    pub open spec fn spec_grow(self, p: Point3) -> Aabb {
        Aabb {
            min: Point3 {
                x: spec_min(self.min.x, p.x),
                y: spec_min(self.min.y, p.y),
                z: spec_min(self.min.z, p.z),
            },
            max: Point3 {
                x: spec_max(self.max.x, p.x),
                y: spec_max(self.max.y, p.y),
                z: spec_max(self.max.z, p.z),
            },
        }
    }

    /// The least box that holds both boxes.
    pub open spec fn spec_join(self, other: Aabb) -> Aabb {
        Aabb {
            min: Point3 {
                x: spec_min(self.min.x, other.min.x),
                y: spec_min(self.min.y, other.min.y),
                z: spec_min(self.min.z, other.min.z),
            },
            max: Point3 {
                x: spec_max(self.max.x, other.max.x),
                y: spec_max(self.max.y, other.max.y),
                z: spec_max(self.max.z, other.max.z),
            },
        }
    }

    /// Every point of `other` lies inside this box.
    pub open spec fn spec_encloses(self, other: Aabb) -> bool {
        forall|p: Point3| other.spec_contains(p) ==> self.spec_contains(p)
    }

    /// The corners of `other` lie inside this box: it starts no later and
    /// ends no earlier along every axis.
    pub open spec fn spec_covers(self, other: Aabb) -> bool {
        &&& self.min.x <= other.min.x && other.max.x <= self.max.x
        &&& self.min.y <= other.min.y && other.max.y <= self.max.y
        &&& self.min.z <= other.min.z && other.max.z <= self.max.z
    }

    /// The box that holds no point.
    pub fn empty() -> (b: Aabb)
        ensures
            b == Aabb::spec_empty(),
            forall|p: Point3| !b.spec_contains(p),
    {
        Aabb {
            min: Point3 { x: i64::MAX, y: i64::MAX, z: i64::MAX },
            max: Point3 { x: i64::MIN, y: i64::MIN, z: i64::MIN },
        }
    }

    /// The box that holds `p` alone.
    pub fn of_point(p: Point3) -> (b: Aabb)
        ensures
            b == Aabb::spec_of_point(p),
            forall|q: Point3| b.spec_contains(q) <==> q == p,
    {
        Aabb { min: p, max: p }
    }

    /// Whether `p` lies inside the box, borders included.
    pub fn contains(&self, p: &Point3) -> (inside: bool)
        ensures
            inside == self.spec_contains(*p),
    {
        self.min.x <= p.x && p.x <= self.max.x && self.min.y <= p.y && p.y <= self.max.y
            && self.min.z <= p.z && p.z <= self.max.z
    }

    /// Whether the corners of `other` lie inside the box.
    pub fn covers(&self, other: &Aabb) -> (r: bool)
        ensures
            r == self.spec_covers(*other),
            r ==> self.spec_encloses(*other),
    {
        self.min.x <= other.min.x && other.max.x <= self.max.x && self.min.y <= other.min.y
            && other.max.y <= self.max.y && self.min.z <= other.min.z && other.max.z <= self.max.z
    }

    /// The least box that holds this box and `p`.
    pub fn grow(&self, p: &Point3) -> (b: Aabb)
        ensures
            b == self.spec_grow(*p),
            b.spec_contains(*p),
            forall|q: Point3| self.spec_contains(q) ==> b.spec_contains(q),
    {
        Aabb {
            min: Point3 {
                x: least(self.min.x, p.x),
                y: least(self.min.y, p.y),
                z: least(self.min.z, p.z),
            },
            max: Point3 {
                x: greatest(self.max.x, p.x),
                y: greatest(self.max.y, p.y),
                z: greatest(self.max.z, p.z),
            },
        }
    }

    /// The least box that holds both boxes.
    pub fn join(&self, other: &Aabb) -> (b: Aabb)
        ensures
            b == self.spec_join(*other),
            b.spec_covers(*self),
            b.spec_covers(*other),
            forall|q: Point3| self.spec_contains(q) || other.spec_contains(q) ==> b.spec_contains(q),
    {
        Aabb {
            min: Point3 {
                x: least(self.min.x, other.min.x),
                y: least(self.min.y, other.min.y),
                z: least(self.min.z, other.min.z),
            },
            max: Point3 {
                x: greatest(self.max.x, other.max.x),
                y: greatest(self.max.y, other.max.y),
                z: greatest(self.max.z, other.max.z),
            },
        }
    }
}

/// The least box around a sequence of points: the empty box grown by each.
pub open spec fn spec_aabb_from_points(points: Seq<Point3>) -> Aabb
    decreases points.len(),
{
    if points.len() == 0 {
        Aabb::spec_empty()
    } else {
        spec_aabb_from_points(points.drop_last()).spec_grow(points.last())
    }
}

/// The box around a sequence of points holds each of them.
pub proof fn lemma_aabb_encloses_points(points: Seq<Point3>, i: int)
    requires
        0 <= i < points.len(),
    ensures
        spec_aabb_from_points(points).spec_contains(points[i]),
    decreases points.len(),
{
    if i < points.len() - 1 {
        lemma_aabb_encloses_points(points.drop_last(), i);
    }
}

/// The box around a sequence of points does not depend on their order of
/// travel.
pub proof fn lemma_aabb_of_reverse(points: Seq<Point3>)
    ensures
        spec_aabb_from_points(points.reverse()) == spec_aabb_from_points(points),
    decreases points.len(),
{
    if points.len() > 0 {
        let n = points.len() as int;
        let r = points.reverse();
        // r = [last] ++ reverse(drop_last)
        lemma_aabb_push_front(points.last(), points.drop_last().reverse());
        assert(r =~= seq![points.last()] + points.drop_last().reverse());
        lemma_aabb_of_reverse(points.drop_last());
        lemma_grow_commutes_into(points.drop_last(), points.last());
    }
}

/// Growing by a point first or last gives the same box.
proof fn lemma_aabb_push_front(p: Point3, rest: Seq<Point3>)
    ensures
        spec_aabb_from_points(seq![p] + rest) == spec_aabb_from_points(rest).spec_grow(p),
    decreases rest.len(),
{
    let all = seq![p] + rest;
    if rest.len() == 0 {
        assert(all.drop_last() =~= Seq::<Point3>::empty());
        assert(all.last() == p);
        reveal_with_fuel(spec_aabb_from_points, 2);
    } else {
        assert(all.drop_last() =~= seq![p] + rest.drop_last());
        assert(all.last() == rest.last());
        lemma_aabb_push_front(p, rest.drop_last());
    }
}

proof fn lemma_grow_commutes_into(points: Seq<Point3>, p: Point3)
    ensures
        spec_aabb_from_points(points.push(p)) == spec_aabb_from_points(points).spec_grow(p),
{
    assert(points.push(p).drop_last() =~= points);
}

/// The least box around `points`; the empty box where there are none.
pub fn aabb_from_points(points: &Vec<Point3>) -> (b: Aabb)
    ensures
        b == spec_aabb_from_points(points@),
        forall|i: int| 0 <= i < points.len() ==> b.spec_contains(#[trigger] points[i]),
{
    let mut b = Aabb::empty();
    let mut i: usize = 0;
    while i < points.len()
        invariant
            i <= points.len(),
            b == spec_aabb_from_points(points@.take(i as int)),
        decreases points.len() - i,
    {
        proof {
            assert(points@.take(i + 1).drop_last() =~= points@.take(i as int));
        }
        b = b.grow(&points[i]);
        i = i + 1;
    }
    proof {
        assert(points@.take(i as int) =~= points@);
        assert forall|j: int| 0 <= j < points.len() implies b.spec_contains(#[trigger] points[j]) by {
            lemma_aabb_encloses_points(points@, j);
        }
    }
    b
}

} // verus!
