//! Connected components of a triangle soup, by shared corners.

use vstd::prelude::*;
use vstd::seq_lib::{lemma_multiset_commutative, to_multiset_build};
use crate::kernel::{asks_points, tells_points};
use crate::point::Point3;
use crate::triangle::Triangle;
use crate::util::lemma_filter_push;

verus! {

/// `c` has a corner close to a corner of one of the first `upto` triangles
/// of `surface`.
pub open spec fn spec_touches(
    c: Triangle,
    surface: Seq<Triangle>,
    upto: int,
    close: spec_fn(Point3, Point3) -> bool,
) -> bool {
    exists|k: int|
        0 <= k < upto && k < surface.len() && c.spec_shares_point(#[trigger] surface[k], close)
}

/// One sweep: each triangle of `rest` in turn joins `surface` where it
/// touches a triangle that is in it by then; the others are kept.
pub open spec fn spec_sweep(
    rest: Seq<Triangle>,
    surface: Seq<Triangle>,
    close: spec_fn(Point3, Point3) -> bool,
) -> (Seq<Triangle>, Seq<Triangle>)
    decreases rest.len(),
{
    if rest.len() == 0 {
        (Seq::empty(), surface)
    } else {
        let (kept, grown) = spec_sweep(rest.drop_last(), surface, close);
        let c = rest.last();
        if spec_touches(c, grown, grown.len() as int, close) {
            (kept, grown.push(c))
        } else {
            (kept.push(c), grown)
        }
    }
}

/// A sweep keeps no more triangles than it was given, and the surface only
/// grows; together they hold what was there before.
pub proof fn lemma_sweep(rest: Seq<Triangle>, surface: Seq<Triangle>, close: spec_fn(Point3, Point3) -> bool)
    ensures
        spec_sweep(rest, surface, close).0.len() + spec_sweep(rest, surface, close).1.len()
            == rest.len() + surface.len(),
        spec_sweep(rest, surface, close).1.len() >= surface.len(),
        spec_sweep(rest, surface, close).0.to_multiset().add(
            spec_sweep(rest, surface, close).1.to_multiset(),
        ) == rest.to_multiset().add(surface.to_multiset()),
    decreases rest.len(),
{
    if rest.len() == 0 {
        assert(rest =~= Seq::<Triangle>::empty());
        assert(rest.to_multiset().add(surface.to_multiset()) =~= Seq::<Triangle>::empty().to_multiset().add(
            surface.to_multiset(),
        ));
    } else {
        lemma_sweep(rest.drop_last(), surface, close);
        let (kept, grown) = spec_sweep(rest.drop_last(), surface, close);
        let c = rest.last();
        assert(rest =~= rest.drop_last().push(c));
        to_multiset_build(rest.drop_last(), c);
        to_multiset_build(kept, c);
        to_multiset_build(grown, c);
        assert(kept.push(c).to_multiset().add(grown.to_multiset()) =~= kept.to_multiset().add(
            grown.to_multiset(),
        ).insert(c));
        assert(kept.to_multiset().add(grown.push(c).to_multiset()) =~= kept.to_multiset().add(
            grown.to_multiset(),
        ).insert(c));
        assert(rest.to_multiset().add(surface.to_multiset()) =~= rest.drop_last().to_multiset().add(
            surface.to_multiset(),
        ).insert(c));
    }
}

/// Sweeps are repeated until one lets no triangle join.
pub open spec fn spec_component(
    rest: Seq<Triangle>,
    surface: Seq<Triangle>,
    close: spec_fn(Point3, Point3) -> bool,
) -> (Seq<Triangle>, Seq<Triangle>)
    decreases rest.len(),
{
    let (kept, grown) = spec_sweep(rest, surface, close);
    if kept.len() >= rest.len() {
        (kept, grown)
    } else {
        spec_component(kept, grown, close)
    }
}

/// A component and what it leaves over hold what was there before.
pub proof fn lemma_component(
    rest: Seq<Triangle>,
    surface: Seq<Triangle>,
    close: spec_fn(Point3, Point3) -> bool,
)
    ensures
        spec_component(rest, surface, close).0.len() <= rest.len(),
        spec_component(rest, surface, close).1.len() >= surface.len(),
        spec_component(rest, surface, close).0.to_multiset().add(
            spec_component(rest, surface, close).1.to_multiset(),
        ) == rest.to_multiset().add(surface.to_multiset()),
    decreases rest.len(),
{
    lemma_sweep(rest, surface, close);
    let (kept, grown) = spec_sweep(rest, surface, close);
    if kept.len() < rest.len() {
        lemma_component(kept, grown, close);
    }
}

/// The components of `triangles`, single triangles included. The last
/// triangle seeds a component; what the component leaves over is split in
/// the same way.
pub open spec fn spec_split_all(triangles: Seq<Triangle>, close: spec_fn(Point3, Point3) -> bool) -> Seq<
    Seq<Triangle>,
>
    decreases triangles.len(),
{
    if triangles.len() == 0 {
        Seq::empty()
    } else {
        let (kept, surface) = spec_component(triangles.drop_last(), seq![triangles.last()], close);
        proof {
            lemma_component(triangles.drop_last(), seq![triangles.last()], close);
        }
        seq![surface] + spec_split_all(kept, close)
    }
}

/// The components worth printing: those of more than one triangle.
pub open spec fn plural() -> spec_fn(Seq<Triangle>) -> bool {
    |s: Seq<Triangle>| s.len() > 1
}

/// The components of `triangles` that have more than one triangle.
pub open spec fn spec_split_surface(triangles: Seq<Triangle>, close: spec_fn(Point3, Point3) -> bool) -> Seq<
    Seq<Triangle>,
> {
    spec_split_all(triangles, close).filter(plural())
}

/// The triangles of all parts, part after part.
pub open spec fn spec_concat(parts: Seq<Seq<Triangle>>) -> Seq<Triangle>
    decreases parts.len(),
{
    if parts.len() == 0 {
        Seq::empty()
    } else {
        parts.first() + spec_concat(parts.drop_first())
    }
}

/// Every triangle of a surface but the first touches one before it.
pub open spec fn linked(surface: Seq<Triangle>, close: spec_fn(Point3, Point3) -> bool) -> bool {
    forall|j: int| 0 < j < surface.len() ==> spec_touches(#[trigger] surface[j], surface, j, close)
}

/// None of `rest` touches a triangle of `surface`.
pub open spec fn apart(
    rest: Seq<Triangle>,
    surface: Seq<Triangle>,
    close: spec_fn(Point3, Point3) -> bool,
) -> bool {
    forall|i: int|
        0 <= i < rest.len() ==> !spec_touches(#[trigger] rest[i], surface, surface.len() as int, close)
}

proof fn lemma_sweep_links(rest: Seq<Triangle>, surface: Seq<Triangle>, close: spec_fn(Point3, Point3) -> bool)
    requires
        linked(surface, close),
    ensures
        linked(spec_sweep(rest, surface, close).1, close),
        forall|j: int| 0 <= j < surface.len() ==> spec_sweep(rest, surface, close).1[j] == surface[j],
        spec_sweep(rest, surface, close).1.len() == surface.len() ==> spec_sweep(
            rest,
            surface,
            close,
        ).0 == rest && apart(rest, surface, close),
    decreases rest.len(),
{
    lemma_sweep(rest, surface, close);
    if rest.len() > 0 {
        lemma_sweep(rest.drop_last(), surface, close);
        lemma_sweep_links(rest.drop_last(), surface, close);
        let (kept, grown) = spec_sweep(rest.drop_last(), surface, close);
        let c = rest.last();
        let after = spec_sweep(rest, surface, close).1;
        assert forall|j: int| 0 < j < after.len() implies spec_touches(
            #[trigger] after[j],
            after,
            j,
            close,
        ) by {
            if j < grown.len() {
                let k = choose|k: int|
                    0 <= k < j && k < grown.len() && grown[j].spec_shares_point(
                        #[trigger] grown[k],
                        close,
                    );
                assert(after[k] == grown[k]);
            } else {
                let k = choose|k: int|
                    0 <= k < grown.len() && k < grown.len() && c.spec_shares_point(
                        #[trigger] grown[k],
                        close,
                    );
                assert(after[k] == grown[k]);
            }
        }
        if after.len() == surface.len() {
            assert(grown =~= surface);
            assert(kept.push(c) =~= rest);
        }
    } else {
        assert(rest =~= Seq::<Triangle>::empty());
    }
}

/// A component is linked, starts with its seed, and is touched by none of
/// the triangles that it leaves over.
pub proof fn lemma_component_links(
    rest: Seq<Triangle>,
    surface: Seq<Triangle>,
    close: spec_fn(Point3, Point3) -> bool,
)
    requires
        linked(surface, close),
    ensures
        linked(spec_component(rest, surface, close).1, close),
        forall|j: int|
            0 <= j < surface.len() ==> spec_component(rest, surface, close).1[j] == surface[j],
        apart(spec_component(rest, surface, close).0, spec_component(rest, surface, close).1, close),
    decreases rest.len(),
{
    lemma_sweep(rest, surface, close);
    lemma_sweep_links(rest, surface, close);
    let (kept, grown) = spec_sweep(rest, surface, close);
    if kept.len() < rest.len() {
        lemma_component_links(kept, grown, close);
    } else {
        assert(grown.len() == surface.len());
        assert(grown =~= surface);
    }
}

/// The components hold every triangle that was given, each as often as it
/// was given.
pub proof fn lemma_split_partitions(triangles: Seq<Triangle>, close: spec_fn(Point3, Point3) -> bool)
    ensures
        spec_concat(spec_split_all(triangles, close)).to_multiset() == triangles.to_multiset(),
    decreases triangles.len(),
{
    if triangles.len() == 0 {
        assert(triangles =~= Seq::<Triangle>::empty());
    } else {
        let seed = triangles.last();
        let rest = triangles.drop_last();
        let (kept, surface) = spec_component(rest, seq![seed], close);
        lemma_component(rest, seq![seed], close);
        lemma_split_partitions(kept, close);
        let parts = spec_split_all(triangles, close);
        assert(parts.first() == surface);
        assert(parts.drop_first() =~= spec_split_all(kept, close));
        lemma_multiset_commutative(surface, spec_concat(spec_split_all(kept, close)));
        assert(triangles =~= rest + seq![seed]);
        lemma_multiset_commutative(rest, seq![seed]);
        assert(surface.to_multiset().add(kept.to_multiset()) =~= kept.to_multiset().add(
            surface.to_multiset(),
        ));
    }
}

/// Within every component each triangle but the first touches one before
/// it, so that a chain of touching triangles leads from each to the seed.
pub proof fn lemma_split_connected(triangles: Seq<Triangle>, close: spec_fn(Point3, Point3) -> bool, k: int)
    requires
        0 <= k < spec_split_all(triangles, close).len(),
    ensures
        linked(spec_split_all(triangles, close)[k], close),
    decreases triangles.len(),
{
    let seed = triangles.last();
    let rest = triangles.drop_last();
    let (kept, surface) = spec_component(rest, seq![seed], close);
    lemma_component(rest, seq![seed], close);
    lemma_component_links(rest, seq![seed], close);
    if k > 0 {
        lemma_split_connected(kept, close, k - 1);
    }
}

/// No triangle of a later component touches a triangle of an earlier one.
pub proof fn lemma_split_separated(
    triangles: Seq<Triangle>,
    close: spec_fn(Point3, Point3) -> bool,
    early: int,
    late: int,
    j: int,
)
    requires
        0 <= early < late < spec_split_all(triangles, close).len(),
        0 <= j < spec_split_all(triangles, close)[late].len(),
    ensures
        !spec_touches(
            spec_split_all(triangles, close)[late][j],
            spec_split_all(triangles, close)[early],
            spec_split_all(triangles, close)[early].len() as int,
            close,
        ),
    decreases triangles.len(),
{
    let seed = triangles.last();
    let rest = triangles.drop_last();
    let (kept, surface) = spec_component(rest, seq![seed], close);
    lemma_component(rest, seq![seed], close);
    lemma_component_links(rest, seq![seed], close);
    if early > 0 {
        lemma_split_separated(kept, close, early - 1, late - 1, j);
    } else {
        let x = spec_split_all(kept, close)[late - 1][j];
        lemma_part_of_whole(kept, close, late - 1, j);
        let i = choose|i: int| 0 <= i < kept.len() && kept[i] == x;
        assert(!spec_touches(kept[i], surface, surface.len() as int, close));
    }
}

/// Every triangle of a component is one of the triangles that were given.
pub proof fn lemma_part_of_whole(
    triangles: Seq<Triangle>,
    close: spec_fn(Point3, Point3) -> bool,
    k: int,
    j: int,
)
    requires
        0 <= k < spec_split_all(triangles, close).len(),
        0 <= j < spec_split_all(triangles, close)[k].len(),
    ensures
        exists|i: int| 0 <= i < triangles.len() && triangles[i] == spec_split_all(triangles, close)[k][j],
    decreases triangles.len(),
{
    broadcast use vstd::seq_lib::to_multiset_contains;

    let seed = triangles.last();
    let rest = triangles.drop_last();
    let (kept, surface) = spec_component(rest, seq![seed], close);
    lemma_component(rest, seq![seed], close);
    let x = spec_split_all(triangles, close)[k][j];
    assert(triangles =~= rest + seq![seed]);
    lemma_multiset_commutative(rest, seq![seed]);
    if k > 0 {
        lemma_part_of_whole(kept, close, k - 1, j);
        let i = choose|i: int| 0 <= i < kept.len() && kept[i] == x;
        assert(kept.contains(x));
        assert(kept.to_multiset().count(x) > 0);
        assert(triangles.to_multiset().count(x) > 0);
        assert(triangles.contains(x));
    } else {
        assert(surface[j] == x);
        assert(surface.contains(x));
        assert(surface.to_multiset().count(x) > 0);
        assert(triangles.to_multiset().count(x) > 0);
        assert(triangles.contains(x));
    }
}

/// Whether `c` touches one of the triangles of `surface`.
fn touches<N: Fn(Point3, Point3) -> bool>(c: &Triangle, surface: &Vec<Triangle>, near: &N) -> (r: bool)
    requires
        asks_points(near),
    ensures
        forall|close: spec_fn(Point3, Point3) -> bool| #[trigger]
            tells_points(near, close) ==> r == spec_touches(
                *c,
                surface@,
                surface.len() as int,
                close,
            ),
{
    let mut k: usize = 0;
    while k < surface.len()
        invariant
            k <= surface.len(),
            asks_points(near),
            forall|close: spec_fn(Point3, Point3) -> bool| #[trigger]
                tells_points(near, close) ==> !spec_touches(*c, surface@, k as int, close),
        decreases surface.len() - k,
    {
        if c.shares_point_with_triangle(surface[k], near) {
            proof {
                assert forall|close: spec_fn(Point3, Point3) -> bool| #[trigger]
                    tells_points(near, close) implies spec_touches(
                    *c,
                    surface@,
                    surface.len() as int,
                    close,
                ) by {
                    assert(c.spec_shares_point(surface@[k as int], close));
                }
            }
            return true;
        }
        k = k + 1;
    }
    false
}

/// One sweep over `rest`. Returns the triangles that did not join.
fn sweep<N: Fn(Point3, Point3) -> bool>(rest: &Vec<Triangle>, surface: &mut Vec<Triangle>, near: &N) -> (kept:
    Vec<Triangle>)
    requires
        asks_points(near),
    ensures
        kept.len() <= rest.len(),
        final(surface).len() >= old(surface).len(),
        forall|close: spec_fn(Point3, Point3) -> bool| #[trigger]
            tells_points(near, close) ==> (kept@, final(surface)@) == spec_sweep(
                rest@,
                old(surface)@,
                close,
            ),
{
    let mut kept: Vec<Triangle> = Vec::new();
    let mut k: usize = 0;
    while k < rest.len()
        invariant
            k <= rest.len(),
            kept.len() <= k,
            surface.len() >= old(surface).len(),
            asks_points(near),
            forall|close: spec_fn(Point3, Point3) -> bool| #[trigger]
                tells_points(near, close) ==> (kept@, surface@) == spec_sweep(
                    rest@.take(k as int),
                    old(surface)@,
                    close,
                ),
        decreases rest.len() - k,
    {
        let c = rest[k];
        proof {
            assert(rest@.take(k + 1).drop_last() =~= rest@.take(k as int));
            assert(rest@.take(k + 1).last() == c);
        }
        if touches(&c, surface, near) {
            surface.push(c);
        } else {
            kept.push(c);
        }
        k = k + 1;
    }
    proof {
        assert(rest@.take(k as int) =~= rest@);
    }
    kept
}

/// The views of a sequence of triangle lists.
pub open spec fn surfaces_view(surfaces: Seq<Vec<Triangle>>) -> Seq<Seq<Triangle>> {
    surfaces.map_values(|s: Vec<Triangle>| s@)
}

/// Splits a triangle soup into its connected components. Two triangles
/// belong together where a corner of one is close to a corner of the
/// other, as `near` judges it. Components of a single triangle are
/// dropped.
pub fn split_surface<N: Fn(Point3, Point3) -> bool>(triangles: Vec<Triangle>, near: &N) -> (surfaces:
    Vec<Vec<Triangle>>)
    requires
        asks_points(near),
    ensures
        forall|k: int| 0 <= k < surfaces.len() ==> (#[trigger] surfaces[k]).len() > 1,
        forall|close: spec_fn(Point3, Point3) -> bool| #[trigger]
            tells_points(near, close) ==> surfaces_view(surfaces@) == spec_split_surface(
                triangles@,
                close,
            ),
{
    let ghost all = triangles@;
    let mut triangles = triangles;
    let mut surfaces: Vec<Vec<Triangle>> = Vec::new();
    let ghost mut done: Seq<Seq<Triangle>> = Seq::empty();
    proof {
        reveal(Seq::filter);
        let none = Seq::<Seq<Triangle>>::empty();
        assert(surfaces_view(surfaces@) =~= none);
        assert(none.filter(plural()) =~= none);
        assert forall|close: spec_fn(Point3, Point3) -> bool| #[trigger]
            tells_points(near, close) implies exists|before: Seq<Seq<Triangle>>|
            {
                &&& #[trigger] before.filter(plural()) == surfaces_view(surfaces@)
                &&& before + spec_split_all(triangles@, close) == spec_split_all(all, close)
            } by {
            assert(none.filter(plural()) == surfaces_view(surfaces@));
            assert(none + spec_split_all(triangles@, close) =~= spec_split_all(all, close));
        }
    }
    while triangles.len() > 0
        invariant
            asks_points(near),
            forall|k: int| 0 <= k < surfaces.len() ==> (#[trigger] surfaces[k]).len() > 1,
            forall|close: spec_fn(Point3, Point3) -> bool| #[trigger]
                tells_points(near, close) ==> exists|before: Seq<Seq<Triangle>>|
                    {
                        &&& #[trigger] before.filter(plural()) == surfaces_view(surfaces@)
                        &&& before + spec_split_all(triangles@, close) == spec_split_all(all, close)
                    },
        decreases triangles.len(),
    {
        let ghost start = triangles@;
        let ghost found = surfaces@;
        let seed = triangles.pop().unwrap();
        let mut surface: Vec<Triangle> = Vec::new();
        surface.push(seed);
        proof {
            assert(surface@ =~= seq![seed]);
            assert(triangles@ =~= start.drop_last());
        }
        let ghost rest0 = triangles@;
        loop
            invariant_except_break
                forall|close: spec_fn(Point3, Point3) -> bool| #[trigger]
                    tells_points(near, close) ==> spec_component(triangles@, surface@, close)
                        == spec_component(rest0, seq![seed], close),
            invariant
                asks_points(near),
                triangles.len() <= rest0.len(),
                surface.len() >= 1,
            ensures
                forall|close: spec_fn(Point3, Point3) -> bool| #[trigger]
                    tells_points(near, close) ==> (triangles@, surface@) == spec_component(
                        rest0,
                        seq![seed],
                        close,
                    ),
            decreases triangles.len(),
        {
            let before = triangles.len();
            let kept = sweep(&triangles, &mut surface, near);
            triangles = kept;
            if triangles.len() >= before {
                break ;
            }
        }
        let many = surface.len() > 1;
        let ghost grown = surface@;
        if many {
            surfaces.push(surface);
        }
        proof {
            assert forall|close: spec_fn(Point3, Point3) -> bool| #[trigger]
                tells_points(near, close) implies exists|before: Seq<Seq<Triangle>>|
                {
                    &&& #[trigger] before.filter(plural()) == surfaces_view(surfaces@)
                    &&& before + spec_split_all(triangles@, close) == spec_split_all(all, close)
                } by {
                let before = choose|before: Seq<Seq<Triangle>>|
                    {
                        &&& #[trigger] before.filter(plural()) == surfaces_view(found)
                        &&& before + spec_split_all(start, close) == spec_split_all(all, close)
                    };
                let next = before.push(grown);
                lemma_filter_push(before, grown, plural());
                if many {
                    assert(surfaces_view(surfaces@) =~= surfaces_view(found).push(grown));
                }
                assert(next + spec_split_all(triangles@, close) =~= before + (seq![grown]
                    + spec_split_all(triangles@, close)));
                assert(next.filter(plural()) == surfaces_view(surfaces@));
            }
        }
    }
    proof {
        assert forall|close: spec_fn(Point3, Point3) -> bool| #[trigger]
            tells_points(near, close) implies surfaces_view(surfaces@) == spec_split_surface(all, close) by {
            let before = choose|before: Seq<Seq<Triangle>>|
                {
                    &&& #[trigger] before.filter(plural()) == surfaces_view(surfaces@)
                    &&& before + spec_split_all(triangles@, close) == spec_split_all(all, close)
                };
            assert(before + spec_split_all(triangles@, close) =~= before);
        }
    }
    surfaces
}

} // verus!
