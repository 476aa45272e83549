//! A bounding-volume hierarchy as plain data, and the descent through it.
//!
//! The hierarchy is a binary tree laid out in a vector, root first and
//! every child behind its parent. An inner node carries the boxes of its
//! two children, a leaf the index of one shape.

use vstd::prelude::*;
use crate::aabb::Aabb;

verus! {

/// A node of the hierarchy.
#[derive(Clone, Copy, Debug)]
pub enum BvhNode {
    Leaf { shape_index: usize },
    Node { child_l_index: usize, child_l_aabb: Aabb, child_r_index: usize, child_r_aabb: Aabb },
}

/// A yes-or-no question about a box can be asked of every box.
pub open spec fn asks_entry<E: Fn(Aabb) -> bool>(f: &E) -> bool {
    forall|b: Aabb| #[trigger] call_requires(*f, (b,))
}

/// Every answer of `f` about a box is the one `rel` gives.
pub open spec fn tells_entry<E: Fn(Aabb) -> bool>(f: &E, rel: spec_fn(Aabb) -> bool) -> bool {
    forall|b: Aabb, r: bool| #[trigger] call_ensures(*f, (b,), r) ==> r == rel(b)
}

/// Every child lies behind its parent and inside the vector, and every leaf
/// names one of `shapes` shapes.
pub open spec fn nodes_wf(nodes: Seq<BvhNode>, shapes: nat) -> bool {
    forall|i: int|
        0 <= i < nodes.len() ==> match #[trigger] nodes[i] {
            BvhNode::Leaf { shape_index } => shape_index < shapes,
            BvhNode::Node { child_l_index, child_r_index, .. } => i < child_l_index < nodes.len()
                && i < child_r_index < nodes.len(),
        }
}

/// The shapes met by a descent from node `i` that goes into a child only
/// where `enter` accepts the child's box, in the order in which they are
/// met: the right subtree before the left one.
pub open spec fn spec_descend(nodes: Seq<BvhNode>, i: int, enter: spec_fn(Aabb) -> bool) -> Seq<
    usize,
>
    decreases nodes.len() - i,
{
    if 0 <= i < nodes.len() {
        match nodes[i] {
            BvhNode::Leaf { shape_index } => seq![shape_index],
            BvhNode::Node { child_l_index, child_l_aabb, child_r_index, child_r_aabb } => {
                let right = if enter(child_r_aabb) && i < child_r_index < nodes.len() {
                    spec_descend(nodes, child_r_index as int, enter)
                } else {
                    Seq::empty()
                };
                let left = if enter(child_l_aabb) && i < child_l_index < nodes.len() {
                    spec_descend(nodes, child_l_index as int, enter)
                } else {
                    Seq::empty()
                };
                right + left
            },
        }
    } else {
        Seq::empty()
    }
}

/// Number of nodes below and including node `i`.
spec fn weight(nodes: Seq<BvhNode>, i: int) -> nat
    decreases nodes.len() - i,
{
    if 0 <= i < nodes.len() {
        match nodes[i] {
            BvhNode::Leaf { .. } => 1,
            BvhNode::Node { child_l_index, child_r_index, .. } => {
                let right = if i < child_r_index < nodes.len() {
                    weight(nodes, child_r_index as int)
                } else {
                    0
                };
                let left = if i < child_l_index < nodes.len() {
                    weight(nodes, child_l_index as int)
                } else {
                    0
                };
                1 + right + left
            },
        }
    } else {
        0
    }
}

/// What the nodes still on the stack will contribute, top of the stack
/// first.
spec fn pending(nodes: Seq<BvhNode>, stack: Seq<usize>, enter: spec_fn(Aabb) -> bool) -> Seq<
    usize,
>
    decreases stack.len(),
{
    if stack.len() == 0 {
        Seq::empty()
    } else {
        spec_descend(nodes, stack.last() as int, enter) + pending(nodes, stack.drop_last(), enter)
    }
}

/// Number of nodes that the stack still stands for.
spec fn load(nodes: Seq<BvhNode>, stack: Seq<usize>) -> nat
    decreases stack.len(),
{
    if stack.len() == 0 {
        0
    } else {
        weight(nodes, stack.last() as int) + load(nodes, stack.drop_last())
    }
}

proof fn lemma_push(nodes: Seq<BvhNode>, stack: Seq<usize>, top: usize, enter: spec_fn(Aabb) -> bool)
    ensures
        pending(nodes, stack.push(top), enter) == spec_descend(nodes, top as int, enter) + pending(
            nodes,
            stack,
            enter,
        ),
        load(nodes, stack.push(top)) == weight(nodes, top as int) + load(nodes, stack),
{
    assert(stack.push(top).drop_last() =~= stack);
}

/// Every shape that a descent meets is one of the `shapes` shapes.
pub proof fn lemma_descend_in_range(
    nodes: Seq<BvhNode>,
    shapes: nat,
    i: int,
    enter: spec_fn(Aabb) -> bool,
    k: int,
)
    requires
        nodes_wf(nodes, shapes),
        0 <= k < spec_descend(nodes, i, enter).len(),
    ensures
        spec_descend(nodes, i, enter)[k] < shapes,
    decreases nodes.len() - i,
{
    if 0 <= i < nodes.len() {
        match nodes[i] {
            BvhNode::Leaf { shape_index } => {},
            BvhNode::Node { child_l_index, child_l_aabb, child_r_index, child_r_aabb } => {
                let right = if enter(child_r_aabb) && i < child_r_index < nodes.len() {
                    spec_descend(nodes, child_r_index as int, enter)
                } else {
                    Seq::empty()
                };
                if k < right.len() {
                    lemma_descend_in_range(nodes, shapes, child_r_index as int, enter, k);
                } else {
                    lemma_descend_in_range(
                        nodes,
                        shapes,
                        child_l_index as int,
                        enter,
                        k - right.len(),
                    );
                }
            },
        }
    }
}

/// Whether `nodes` is laid out as a hierarchy over `shapes` shapes.
pub fn check_nodes(nodes: &Vec<BvhNode>, shapes: usize) -> (ok: bool)
    ensures
        ok == nodes_wf(nodes@, shapes as nat),
{
    let mut i: usize = 0;
    while i < nodes.len()
        invariant
            i <= nodes.len(),
            forall|j: int|
                0 <= j < i ==> match #[trigger] nodes@[j] {
                    BvhNode::Leaf { shape_index } => shape_index < shapes,
                    BvhNode::Node { child_l_index, child_r_index, .. } => j < child_l_index
                        < nodes.len() && j < child_r_index < nodes.len(),
                },
        decreases nodes.len() - i,
    {
        let good = match nodes[i] {
            BvhNode::Leaf { shape_index } => shape_index < shapes,
            BvhNode::Node { child_l_index, child_r_index, .. } => i < child_l_index
                && child_l_index < nodes.len() && i < child_r_index && child_r_index < nodes.len(),
        };
        if !good {
            return false;
        }
        i = i + 1;
    }
    true
}

/// Walks the hierarchy from its root with an explicit stack and returns the
/// shapes it meets. A child is gone into only where `enter` accepts its box.
pub fn descend<E: Fn(Aabb) -> bool>(nodes: &Vec<BvhNode>, enter: &E) -> (met: Vec<usize>)
    requires
        asks_entry(enter),
    ensures
        forall|rel: spec_fn(Aabb) -> bool| #[trigger]
            tells_entry(enter, rel) ==> met@ == spec_descend(nodes@, 0, rel),
        forall|shapes: nat| #[trigger]
            nodes_wf(nodes@, shapes) ==> forall|k: int| 0 <= k < met.len() ==> met[k] < shapes,
{
    let mut met: Vec<usize> = Vec::new();
    let mut stack: Vec<usize> = Vec::new();
    if nodes.len() > 0 {
        stack.push(0);
        proof {
            assert forall|rel: spec_fn(Aabb) -> bool| #[trigger] tells_entry(enter, rel) implies met@
                + pending(nodes@, stack@, rel) == spec_descend(nodes@, 0, rel) by {
                lemma_push(nodes@, Seq::empty(), 0, rel);
                assert(stack@ =~= Seq::<usize>::empty().push(0));
                assert(pending(nodes@, Seq::empty(), rel) =~= Seq::<usize>::empty());
            }
        }
    } else {
        proof {
        }
    }
    while stack.len() > 0
        invariant
            asks_entry(enter),
            forall|k: int| 0 <= k < stack.len() ==> stack[k] < nodes.len(),
            forall|shapes: nat| #[trigger]
                nodes_wf(nodes@, shapes) ==> forall|k: int| 0 <= k < met.len() ==> met[k] < shapes,
            forall|rel: spec_fn(Aabb) -> bool| #[trigger]
                tells_entry(enter, rel) ==> met@ + pending(nodes@, stack@, rel) == spec_descend(
                    nodes@,
                    0,
                    rel,
                ),
        decreases load(nodes@, stack@),
    {
        let ghost before = stack@;
        let ghost met_before = met@;
        let i = stack.pop().unwrap();
        let ghost rest = stack@;
        proof {
            assert(before =~= rest.push(i));
        }
        match nodes[i] {
            BvhNode::Leaf { shape_index } => {
                met.push(shape_index);
                proof {
                    assert forall|rel: spec_fn(Aabb) -> bool| #[trigger]
                        tells_entry(enter, rel) implies met@ + pending(nodes@, stack@, rel)
                        == spec_descend(nodes@, 0, rel) by {
                        lemma_push(nodes@, rest, i, rel);
                        assert(met@ + pending(nodes@, rest, rel) =~= met_before + (seq![shape_index]
                            + pending(nodes@, rest, rel)));
                    }
                    lemma_push(nodes@, rest, i, |b: Aabb| true);
                }
            },
            BvhNode::Node { child_l_index, child_l_aabb, child_r_index, child_r_aabb } => {
                let go_l = enter(child_l_aabb) && child_l_index > i && child_l_index < nodes.len();
                if go_l {
                    stack.push(child_l_index);
                }
                let ghost middle = stack@;
                let go_r = enter(child_r_aabb) && child_r_index > i && child_r_index < nodes.len();
                if go_r {
                    stack.push(child_r_index);
                }
                proof {
                    assert forall|rel: spec_fn(Aabb) -> bool| #[trigger]
                        tells_entry(enter, rel) implies met@ + pending(nodes@, stack@, rel)
                        == spec_descend(nodes@, 0, rel) by {
                        lemma_push(nodes@, rest, i, rel);
                        if go_l {
                            lemma_push(nodes@, rest, child_l_index, rel);
                        }
                        if go_r {
                            lemma_push(nodes@, middle, child_r_index, rel);
                        }
                        assert(met@ + pending(nodes@, stack@, rel) =~= met_before + pending(
                            nodes@,
                            before,
                            rel,
                        ));
                    }
                    let any = |b: Aabb| true;
                    lemma_push(nodes@, rest, i, any);
                    if go_l {
                        lemma_push(nodes@, rest, child_l_index, any);
                    }
                    if go_r {
                        lemma_push(nodes@, middle, child_r_index, any);
                    }
                }
            },
        }
    }
    proof {
        assert forall|rel: spec_fn(Aabb) -> bool| #[trigger] tells_entry(enter, rel) implies met@
            == spec_descend(nodes@, 0, rel) by {
            assert(met@ + pending(nodes@, stack@, rel) =~= met@);
        }
    }
    met
}

/// The question that lets a descent go everywhere.
pub open spec fn anywhere() -> spec_fn(Aabb) -> bool {
    |b: Aabb| true
}

/// The shapes below node `i`.
pub open spec fn spec_below(nodes: Seq<BvhNode>, i: int) -> Seq<usize> {
    spec_descend(nodes, i, anywhere())
}

/// The least box around the boxes of the shapes below node `i`.
pub open spec fn spec_hull(nodes: Seq<BvhNode>, i: int, boxes: Seq<Aabb>) -> Aabb
    decreases nodes.len() - i,
{
    if 0 <= i < nodes.len() {
        match nodes[i] {
            BvhNode::Leaf { shape_index } => boxes[shape_index as int],
            BvhNode::Node { child_l_index, child_r_index, .. } => {
                let left = if i < child_l_index < nodes.len() {
                    spec_hull(nodes, child_l_index as int, boxes)
                } else {
                    Aabb::spec_empty()
                };
                let right = if i < child_r_index < nodes.len() {
                    spec_hull(nodes, child_r_index as int, boxes)
                } else {
                    Aabb::spec_empty()
                };
                left.spec_join(right)
            },
        }
    } else {
        Aabb::spec_empty()
    }
}

/// The boxes that node `i` carries for its children cover what lies below
/// the children.
pub open spec fn node_holds(nodes: Seq<BvhNode>, i: int, boxes: Seq<Aabb>) -> bool {
    match nodes[i] {
        BvhNode::Leaf { .. } => true,
        BvhNode::Node { child_l_index, child_l_aabb, child_r_index, child_r_aabb } => {
            &&& child_l_aabb.spec_covers(spec_hull(nodes, child_l_index as int, boxes))
            &&& child_r_aabb.spec_covers(spec_hull(nodes, child_r_index as int, boxes))
        },
    }
}

/// Every box in the hierarchy covers the boxes of the shapes below it.
pub open spec fn boxes_hold(nodes: Seq<BvhNode>, boxes: Seq<Aabb>) -> bool {
    forall|i: int| 0 <= i < nodes.len() ==> #[trigger] node_holds(nodes, i, boxes)
}

/// Every one of `shapes` shapes lies below the root.
pub open spec fn reaches_all(nodes: Seq<BvhNode>, shapes: nat) -> bool {
    forall|t: usize| t < shapes ==> #[trigger] spec_below(nodes, 0).contains(t)
}

/// A question about boxes that, once it accepts a box, accepts every box
/// that covers it.
pub open spec fn grows_with_box(enter: spec_fn(Aabb) -> bool) -> bool {
    forall|small: Aabb, big: Aabb| big.spec_covers(small) && #[trigger] enter(small) ==> #[trigger] enter(big)
}

/// The hull of a node covers the box of every shape below it.
pub proof fn lemma_hull_covers_below(nodes: Seq<BvhNode>, boxes: Seq<Aabb>, i: int, k: int)
    requires
        0 <= k < spec_below(nodes, i).len(),
    ensures
        spec_hull(nodes, i, boxes).spec_covers(boxes[spec_below(nodes, i)[k] as int]),
    decreases nodes.len() - i,
{
    if 0 <= i < nodes.len() {
        match nodes[i] {
            BvhNode::Leaf { shape_index } => {},
            BvhNode::Node { child_l_index, child_l_aabb, child_r_index, child_r_aabb } => {
                let right = if anywhere()(child_r_aabb) && i < child_r_index < nodes.len() {
                    spec_descend(nodes, child_r_index as int, anywhere())
                } else {
                    Seq::empty()
                };
                if k < right.len() {
                    lemma_hull_covers_below(nodes, boxes, child_r_index as int, k);
                } else {
                    lemma_hull_covers_below(nodes, boxes, child_l_index as int, k - right.len());
                }
            },
        }
    }
}

/// Where every box covers what lies below it, a descent that is guided by
/// a question which grows with the box misses no shape whose own box the
/// question accepts.
pub proof fn lemma_descent_misses_nothing(
    nodes: Seq<BvhNode>,
    boxes: Seq<Aabb>,
    enter: spec_fn(Aabb) -> bool,
    i: int,
    k: int,
)
    requires
        boxes_hold(nodes, boxes),
        grows_with_box(enter),
        0 <= k < spec_below(nodes, i).len(),
        enter(boxes[spec_below(nodes, i)[k] as int]),
    ensures
        spec_descend(nodes, i, enter).contains(spec_below(nodes, i)[k]),
    decreases nodes.len() - i,
{
    if 0 <= i < nodes.len() {
        let shape = spec_below(nodes, i)[k];
        match nodes[i] {
            BvhNode::Leaf { shape_index } => {
                assert(spec_descend(nodes, i, enter)[0] == shape);
            },
            BvhNode::Node { child_l_index, child_l_aabb, child_r_index, child_r_aabb } => {
                assert(node_holds(nodes, i, boxes));
                let all_right = if anywhere()(child_r_aabb) && i < child_r_index < nodes.len() {
                    spec_descend(nodes, child_r_index as int, anywhere())
                } else {
                    Seq::empty()
                };
                let right = if enter(child_r_aabb) && i < child_r_index < nodes.len() {
                    spec_descend(nodes, child_r_index as int, enter)
                } else {
                    Seq::empty()
                };
                let left = if enter(child_l_aabb) && i < child_l_index < nodes.len() {
                    spec_descend(nodes, child_l_index as int, enter)
                } else {
                    Seq::empty()
                };
                if k < all_right.len() {
                    lemma_hull_covers_below(nodes, boxes, child_r_index as int, k);
                    let hull = spec_hull(nodes, child_r_index as int, boxes);
                    assert(hull.spec_covers(boxes[shape as int]));
                    assert(child_r_aabb.spec_covers(boxes[shape as int]));
                    assert(enter(child_r_aabb));
                    lemma_descent_misses_nothing(nodes, boxes, enter, child_r_index as int, k);
                    let at = choose|at: int| 0 <= at < right.len() && right[at] == shape;
                    assert((right + left)[at] == shape);
                } else {
                    let kk = k - all_right.len();
                    lemma_hull_covers_below(nodes, boxes, child_l_index as int, kk);
                    let hull = spec_hull(nodes, child_l_index as int, boxes);
                    assert(hull.spec_covers(boxes[shape as int]));
                    assert(child_l_aabb.spec_covers(boxes[shape as int]));
                    assert(enter(child_l_aabb));
                    lemma_descent_misses_nothing(nodes, boxes, enter, child_l_index as int, kk);
                    let at = choose|at: int| 0 <= at < left.len() && left[at] == shape;
                    assert((right + left)[right.len() + at] == shape);
                }
            },
        }
    }
}

/// Whether every box in the hierarchy covers the boxes of the shapes below
/// it.
pub fn check_boxes(nodes: &Vec<BvhNode>, boxes: &Vec<Aabb>) -> (ok: bool)
    requires
        nodes_wf(nodes@, boxes@.len()),
    ensures
        ok == boxes_hold(nodes@, boxes@),
{
    let n = nodes.len();
    let mut hulls: Vec<Aabb> = Vec::new();
    let mut k: usize = 0;
    while k < n
        invariant
            k <= n,
            n == nodes.len(),
            nodes_wf(nodes@, boxes@.len()),
            hulls.len() == k,
            forall|j: int| 0 <= j < k ==> #[trigger] hulls[j] == spec_hull(nodes@, n - 1 - j, boxes@),
            forall|i: int| n - k <= i < n ==> #[trigger] node_holds(nodes@, i, boxes@),
        decreases n - k,
    {
        let i = n - 1 - k;
        match nodes[i] {
            BvhNode::Leaf { shape_index } => {
                hulls.push(boxes[shape_index]);
            },
            BvhNode::Node { child_l_index, child_l_aabb, child_r_index, child_r_aabb } => {
                let left = hulls[n - 1 - child_l_index];
                let right = hulls[n - 1 - child_r_index];
                if !(child_l_aabb.covers(&left) && child_r_aabb.covers(&right)) {
                    proof {
                        assert(!node_holds(nodes@, i as int, boxes@));
                    }
                    return false;
                }
                hulls.push(left.join(&right));
            },
        }
        k = k + 1;
    }
    true
}

/// Whether every one of `shapes` shapes lies below the root.
pub fn check_reach(nodes: &Vec<BvhNode>, shapes: usize) -> (ok: bool)
    ensures
        ok == reaches_all(nodes@, shapes as nat),
{
    let everywhere = |b: Aabb| -> (r: bool)
        ensures
            r,
        { true };
    let met = descend(nodes, &everywhere);
    proof {
        assert(tells_entry(&everywhere, anywhere()));
    }
    let mut seen: Vec<bool> = Vec::new();
    let mut t: usize = 0;
    while t < shapes
        invariant
            t <= shapes,
            seen.len() == t,
            forall|j: int| 0 <= j < t ==> !(#[trigger] seen[j]),
        decreases shapes - t,
    {
        seen.push(false);
        t = t + 1;
    }
    let mut k: usize = 0;
    while k < met.len()
        invariant
            k <= met.len(),
            seen.len() == shapes,
            forall|j: int|
                0 <= j < shapes ==> (#[trigger] seen[j] <==> exists|at: int|
                    0 <= at < k && #[trigger] met[at] == j),
        decreases met.len() - k,
    {
        let s = met[k];
        if s < shapes {
            seen.set(s, true);
        }
        proof {
            assert forall|j: int| 0 <= j < shapes implies (#[trigger] seen[j] <==> exists|at: int|
                0 <= at < k + 1 && #[trigger] met[at] == j) by {
                if seen[j] {
                    if j == s {
                        assert(met[k as int] == j);
                    } else {
                        let at = choose|at: int| 0 <= at < k && #[trigger] met[at] == j;
                        assert(0 <= at < k + 1);
                    }
                } else if exists|at: int| 0 <= at < k + 1 && #[trigger] met[at] == j {
                    let at = choose|at: int| 0 <= at < k + 1 && #[trigger] met[at] == j;
                    assert(at == k);
                }
            }
        }
        k = k + 1;
    }
    let mut t: usize = 0;
    while t < shapes
        invariant
            t <= shapes,
            seen.len() == shapes,
            met@ == spec_below(nodes@, 0),
            forall|j: int|
                0 <= j < shapes ==> (#[trigger] seen[j] <==> exists|at: int|
                    0 <= at < met.len() && #[trigger] met[at] == j),
            forall|u: usize| u < t ==> #[trigger] spec_below(nodes@, 0).contains(u),
        decreases shapes - t,
    {
        if !seen[t] {
            proof {
                if spec_below(nodes@, 0).contains(t) {
                    let at = choose|at: int| 0 <= at < met.len() && met[at] == t;
                    assert(seen[t as int]);
                }
            }
            return false;
        }
        proof {
            let at = choose|at: int| 0 <= at < met.len() && #[trigger] met[at] == t;
            assert(met@[at] == t);
        }
        t = t + 1;
    }
    true
}

} // verus!
