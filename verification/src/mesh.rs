//! The bounding volume hierarchy over a triangle mesh: which triangles each
//! bound holds and how the bounds form a tree. The geometry (boxes, split
//! positions, costs) is floating point and is computed by the caller.

use vstd::prelude::*;
use vstd::multiset::Multiset;
use std::collections::VecDeque;
use rand::Rng;
use vstd::arithmetic::power2::{lemma_pow2_pos, lemma_pow2_unfold, pow2};

verus! {

broadcast use {vstd::seq_lib::group_to_multiset_ensures, vstd::multiset::group_multiset_axioms};

/// The triangles of `tris` whose flag in `keep` (by position) is set, in order.
pub open spec fn select(tris: Seq<usize>, keep: Seq<bool>) -> Seq<usize>
    decreases tris.len(),
{
    if tris.len() == 0 {
        seq![]
    } else {
        let init = select(tris.drop_last(), keep);
        if keep[tris.len() - 1] {
            init.push(tris.last())
        } else {
            init
        }
    }
}

/// Two flag sequences of length `n` that disagree at every position.
pub open spec fn complementary(a: Seq<bool>, b: Seq<bool>, n: nat) -> bool {
    &&& a.len() == n
    &&& b.len() == n
    &&& forall|i: int| 0 <= i < n ==> #[trigger] a[i] != b[i]
}

/// Selecting keeps only triangles of the input.
pub proof fn select_subset(tris: Seq<usize>, keep: Seq<bool>)
    ensures
        forall|t: usize| #[trigger] select(tris, keep).contains(t) ==> tris.contains(t),
        select(tris, keep).len() <= tris.len(),
    decreases tris.len(),
{
    if tris.len() > 0 {
        let init = tris.drop_last();
        select_subset(init, keep);
        assert forall|t: usize| #[trigger] select(tris, keep).contains(t) implies tris.contains(t) by {
            if select(init, keep).contains(t) {
                let j = choose|j: int| 0 <= j < init.len() && init[j] == t;
                assert(tris[j] == t);
            } else {
                assert(tris[tris.len() - 1] == t);
            }
        }
    }
}

/// Selecting with complementary flags splits the triangles: every triangle
/// goes to exactly one side.
pub proof fn select_partition(tris: Seq<usize>, left: Seq<bool>, right: Seq<bool>)
    requires
        forall|i: int| 0 <= i < tris.len() ==> #[trigger] left[i] != right[i],
    ensures
        select(tris, left).to_multiset().add(select(tris, right).to_multiset()) =~= tris.to_multiset(),
    decreases tris.len(),
{
    if tris.len() > 0 {
        let init = tris.drop_last();
        assert forall|i: int| 0 <= i < init.len() implies #[trigger] left[i] != right[i] by {
            assert(left[i] != right[i]);
        }
        select_partition(init, left, right);
        assert(init.push(tris.last()) =~= tris);
        assert(left[tris.len() - 1] != right[tris.len() - 1]);
    } else {
        assert(tris.to_multiset() =~= Multiset::empty());
        assert(select(tris, left).to_multiset() =~= Multiset::empty());
        assert(select(tris, right).to_multiset() =~= Multiset::empty());
    }
}

/// The triangles of `tris` whose flag in `keep` is set, in order.
pub fn select_tris(tris: &Vec<usize>, keep: &Vec<bool>) -> (res: Vec<usize>)
    requires
        keep@.len() == tris@.len(),
    ensures
        res@ == select(tris@, keep@),
{
    let mut out: Vec<usize> = Vec::new();
    let mut i: usize = 0;
    while i < tris.len()
        invariant
            i <= tris@.len(),
            keep@.len() == tris@.len(),
            out@ == select(tris@.take(i as int), keep@),
        decreases tris@.len() - i,
    {
        assert(tris@.take(i + 1).drop_last() =~= tris@.take(i as int));
        if keep[i] {
            out.push(tris[i]);
        }
        i = i + 1;
    }
    assert(tris@.take(i as int) =~= tris@);
    out
}

/// A bound of the hierarchy: the triangles it holds (by index into the
/// mesh's triangle list), its parent and children (by index into the list of
/// bounds) and its depth below the root.
#[derive(Debug)]
pub struct BoundNode {
    pub parent_index: usize,
    pub tris: Vec<usize>,
    pub children: Vec<usize>,
    pub depth: usize,
}

/// The triangle indices `0..n`.
pub open spec fn all_tris(n: usize) -> Seq<usize> {
    Seq::new(n as nat, |i: int| i as usize)
}

/// A bound is a leaf when it is at the depth limit or holds one triangle.
pub open spec fn is_leaf(node: BoundNode, max_depth: usize) -> bool {
    node.depth >= max_depth || node.tris@.len() == 1
}

/// `child` is the in-order selection of `parent` by some flags, one per
/// triangle of `parent`.
pub open spec fn selected_from(child: Seq<usize>, parent: Seq<usize>) -> bool {
    exists|f: Seq<bool>| f.len() == parent.len() && #[trigger] select(parent, f) == child
}

/// A bound is a leaf exactly when it is at or beyond the depth limit or
/// holds a single triangle; every other bound is split.
pub proof fn leaf_rule(node: BoundNode, max_depth: usize)
    ensures
        is_leaf(node, max_depth) <==> (node.depth >= max_depth || node.tris@.len() == 1),
        node.depth < max_depth && node.tris@.len() >= 2 ==> !is_leaf(node, max_depth),
{
}

/// Whether a bound is a leaf: at the depth limit or holding one triangle.
pub fn is_leaf_bound(node: &BoundNode, max_depth: usize) -> (res: bool)
    ensures
        res == is_leaf(*node, max_depth),
        res == (node.depth >= max_depth || node.tris@.len() == 1),
{
    node.depth >= max_depth || node.tris.len() == 1
}

/// Every element of `a` occurs in `b`.
pub open spec fn subset_of(a: Seq<usize>, b: Seq<usize>) -> bool {
    forall|k: int| 0 <= k < a.len() ==> b.contains(#[trigger] a[k])
}

/// Bound `i` of `b` is well placed in the tree over `n` triangles with depth
/// limit `m`: it holds triangles of the mesh, the root holds all of them,
/// every other bound holds a part of its parent's triangles one level below
/// it, selected from them in order, and is listed among its parent's children, children come after their
/// parent in increasing order, there are at most two of them, and leaves
/// have none.
pub open spec fn node_ok(b: Seq<BoundNode>, i: int, n: usize, m: usize) -> bool {
    let node = b[i];
    &&& node.tris@.len() > 0
    &&& forall|k: int| 0 <= k < node.tris@.len() ==> #[trigger] node.tris@[k] < n
    &&& node.depth <= m
    &&& i == 0 ==> node.depth == 0 && node.tris@ == all_tris(n) && node.parent_index == 0
    &&& i > 0 ==> {
        let p = node.parent_index as int;
        &&& 0 <= p < i
        &&& node.depth == b[p].depth + 1
        &&& !is_leaf(b[p], m)
        &&& subset_of(node.tris@, b[p].tris@)
        &&& selected_from(node.tris@, b[p].tris@)
        &&& b[p].children@.contains(i as usize)
    }
    &&& forall|k: int|
        0 <= k < node.children@.len() ==> i < #[trigger] node.children@[k] < b.len()
            && b[node.children@[k] as int].parent_index == i
    &&& forall|k: int, l: int|
        0 <= k < l < node.children@.len() ==> #[trigger] node.children@[k] < #[trigger] node.children@[l]
    &&& node.children@.len() <= 2
    &&& is_leaf(node, m) ==> node.children@.len() == 0
}

/// The bounds form a hierarchy over `n` triangles with depth limit `m`.
pub open spec fn tree_ok(b: Seq<BoundNode>, n: usize, m: usize) -> bool {
    forall|i: int| 0 <= i < b.len() ==> #[trigger] node_ok(b, i, n, m)
}

/// How many queued bounds name `i` as their parent.
pub open spec fn pending(q: Seq<Option<BoundNode>>, i: usize) -> nat
    decreases q.len(),
{
    if q.len() == 0 {
        0
    } else {
        (if q[0] matches Some(e) && e.parent_index == i { 1nat } else { 0nat }) + pending(q.drop_first(), i)
    }
}

proof fn pending_push(q: Seq<Option<BoundNode>>, x: Option<BoundNode>, i: usize)
    ensures
        pending(q.push(x), i) == pending(q, i) + (if x matches Some(e) && e.parent_index == i { 1nat } else { 0nat }),
    decreases q.len(),
{
    if q.len() > 0 {
        assert(q.push(x).drop_first() =~= q.drop_first().push(x));
        assert(q.push(x)[0] == q[0]);
        pending_push(q.drop_first(), x, i);
    } else {
        assert(q.push(x).drop_first() =~= Seq::<Option<BoundNode>>::empty());
        assert(q.push(x)[0] == x);
        assert(pending(q.push(x).drop_first(), i) == 0);
    }
}

/// The triangles held by the leaves among the bounds, with multiplicity.
pub open spec fn leaf_bag(b: Seq<BoundNode>, m: usize) -> Multiset<usize>
    decreases b.len(),
{
    if b.len() == 0 {
        Multiset::empty()
    } else {
        let rest = leaf_bag(b.drop_last(), m);
        if is_leaf(b.last(), m) {
            rest.add(b.last().tris@.to_multiset())
        } else {
            rest
        }
    }
}

/// The triangles held by the queued bounds, with multiplicity.
pub open spec fn queue_bag(q: Seq<Option<BoundNode>>) -> Multiset<usize>
    decreases q.len(),
{
    if q.len() == 0 {
        Multiset::empty()
    } else {
        let rest = queue_bag(q.drop_first());
        match q[0] {
            Some(e) => e.tris@.to_multiset().add(rest),
            None => rest,
        }
    }
}

proof fn queue_bag_push(q: Seq<Option<BoundNode>>, x: Option<BoundNode>)
    ensures
        queue_bag(q.push(x)) =~= match x {
            Some(e) => queue_bag(q).add(e.tris@.to_multiset()),
            None => queue_bag(q),
        },
    decreases q.len(),
{
    if q.len() > 0 {
        assert(q.push(x).drop_first() =~= q.drop_first().push(x));
        assert(q.push(x)[0] == q[0]);
        queue_bag_push(q.drop_first(), x);
    } else {
        assert(q.push(x).drop_first() =~= Seq::<Option<BoundNode>>::empty());
        assert(q.push(x)[0] == x);
        assert(queue_bag(q.push(x).drop_first()) =~= Multiset::empty());
    }
}

/// The leaf bag depends only on the triangles and depths of the bounds.
proof fn leaf_bag_congruent(b1: Seq<BoundNode>, b2: Seq<BoundNode>, m: usize)
    requires
        b1.len() == b2.len(),
        forall|i: int| 0 <= i < b1.len() ==> (#[trigger] b1[i]).tris@ == b2[i].tris@ && b1[i].depth == b2[i].depth,
    ensures
        leaf_bag(b1, m) == leaf_bag(b2, m),
    decreases b1.len(),
{
    if b1.len() > 0 {
        let (i1, i2) = (b1.drop_last(), b2.drop_last());
        assert forall|i: int| 0 <= i < i1.len() implies (#[trigger] i1[i]).tris@ == i2[i].tris@ && i1[i].depth == i2[i].depth by {
            assert(b1[i].tris@ == b2[i].tris@);
        }
        leaf_bag_congruent(i1, i2, m);
        assert(b1[b1.len() - 1].tris@ == b2[b2.len() - 1].tris@);
    }
}

proof fn pending_zero(q: Seq<Option<BoundNode>>, i: usize)
    requires
        forall|j: int| 0 <= j < q.len() ==> (#[trigger] q[j] matches Some(e) ==> e.parent_index != i),
    ensures
        pending(q, i) == 0,
    decreases q.len(),
{
    if q.len() > 0 {
        let rest = q.drop_first();
        assert forall|j: int| 0 <= j < rest.len() implies (#[trigger] rest[j] matches Some(e) ==> e.parent_index != i) by {
            assert(rest[j] == q[j + 1]);
        }
        pending_zero(rest, i);
        assert(q[0] matches Some(e) ==> e.parent_index != i);
    }
}

/// A bound that holds the triangles of `tri_indices` flagged in `in_bounds`,
/// with the given parent and depth and no children; `None` where no triangle
/// is flagged.
pub open spec fn bound_of(
    x: Option<BoundNode>,
    tri_indices: Seq<usize>,
    in_bounds: Seq<bool>,
    parent_index: usize,
    depth: usize,
) -> bool {
    let tris = select(tri_indices, in_bounds);
    if tris.len() == 0 {
        x is None
    } else {
        &&& x matches Some(e)
        &&& e.parent_index == parent_index
        &&& e.tris@ == tris
        &&& e.children@.len() == 0
        &&& e.depth == depth
    }
}

/// Makes the bound that holds the triangles of `tri_indices` flagged in
/// `in_bounds`, or `None` where none is flagged.
pub fn make_bound(tri_indices: &Vec<usize>, in_bounds: &Vec<bool>, parent_index: usize, depth: usize) -> (res:
    Option<BoundNode>)
    requires
        in_bounds@.len() == tri_indices@.len(),
    ensures
        bound_of(res, tri_indices@, in_bounds@, parent_index, depth),
{
    let tris = select_tris(tri_indices, in_bounds);
    if tris.len() == 0 {
        None
    } else {
        Some(BoundNode { parent_index: parent_index, tris: tris, children: Vec::new(), depth: depth })
    }
}

/// What the builder did, or asks of its caller next.
#[derive(Debug, Clone, Copy, PartialEq, Eq, Structural)]
pub enum BuildStep {
    /// An empty bound was taken from the queue and dropped.
    Skipped,
    /// Bound `i` was added as a leaf.
    Leaf(usize),
    /// Bound `i` was added and is to be split: call `split` next.
    Split(usize),
    /// The queue is empty: the hierarchy is complete.
    Finished,
}

/// The abstract state of a hierarchy under construction.
pub struct BuilderView {
    pub bounds: Seq<BoundNode>,
    pub queue: Seq<Option<BoundNode>>,
    pub tri_count: usize,
    pub max_depth: usize,
    /// The bound waiting to be split, if any.
    pub awaiting: Option<usize>,
    /// Whether every split so far sent each triangle to exactly one side.
    pub exact: bool,
    /// Whether every split so far sent each triangle to at least one side.
    pub covering: bool,
    /// For each bound split so far, the left and right flags it was split with.
    pub splits: Map<usize, (Seq<bool>, Seq<bool>)>,
}

/// Builds the hierarchy breadth first: bounds are taken from a queue in the
/// order they were made, appended to the list of bounds and linked to their
/// parent; bounds that are not leaves are split in two, and the two parts go
/// to the back of the queue.
pub struct BvhBuilder {
    bounds: Vec<BoundNode>,
    queue: VecDeque<Option<BoundNode>>,
    tri_count: usize,
    max_depth: usize,
    awaiting: Option<usize>,
    exact: Ghost<bool>,
    covering: Ghost<bool>,
    splits: Ghost<Map<usize, (Seq<bool>, Seq<bool>)>>,
}

/// The queued bound `e` is the root: depth 0, all triangles, parent index
/// 0, no children.
pub open spec fn root_entry(e: BoundNode, n: usize) -> bool {
    &&& e.depth == 0
    &&& e.parent_index == 0
    &&& e.tris@ == all_tris(n)
    &&& n > 0
    &&& e.children@.len() == 0
}

/// The queued bound `e` is a part of its parent in `b`, one level below it.
pub open spec fn entry_ok(b: Seq<BoundNode>, e: BoundNode, m: usize) -> bool {
    let p = e.parent_index as int;
    &&& 0 <= p < b.len()
    &&& !is_leaf(b[p], m)
    &&& e.depth == b[p].depth + 1
    &&& e.tris@.len() > 0
    &&& subset_of(e.tris@, b[p].tris@)
    &&& selected_from(e.tris@, b[p].tris@)
    &&& e.children@.len() == 0
}

/// `b2` is `b` with the bound `e` appended and, unless `e` is the first
/// bound, linked into its parent's children.
pub open spec fn appended(b: Seq<BoundNode>, e: BoundNode, b2: Seq<BoundNode>) -> bool {
    &&& b2.len() == b.len() + 1
    &&& b2.last() == e
    &&& b.len() > 0 ==> {
        let p = e.parent_index as int;
        &&& b2[p].children@ == b[p].children@.push(b.len() as usize)
        &&& b2[p].tris == b[p].tris
        &&& b2[p].depth == b[p].depth
        &&& b2[p].parent_index == b[p].parent_index
        &&& forall|j: int| 0 <= j < b.len() && j != p ==> #[trigger] b2[j] == b[j]
    }
}

impl View for BvhBuilder {
    type V = BuilderView;

    closed spec fn view(&self) -> BuilderView {
        BuilderView {
            bounds: self.bounds@,
            queue: self.queue@,
            tri_count: self.tri_count,
            max_depth: self.max_depth,
            awaiting: self.awaiting,
            exact: self.exact@,
            covering: self.covering@,
            splits: self.splits@,
        }
    }
}

impl BvhBuilder {
    /// The builder's invariant.
    pub open spec fn wf(&self) -> bool {
        &&& state_ok(self@.bounds, self@.queue, self@.tri_count, self@.max_depth, self@.awaiting, self@.exact)
        &&& extra_ok(
            self@.bounds,
            self@.queue,
            self@.tri_count,
            self@.max_depth,
            self@.awaiting,
            self@.exact,
            self@.covering,
        )
        &&& order_ok(self@.bounds, self@.queue, self@.max_depth, self@.awaiting, self@.splits)
    }
}

/// The triangles of the bound waiting to be split, if any.
pub open spec fn awaiting_bag(b: Seq<BoundNode>, awaiting: Option<usize>) -> Multiset<usize> {
    match awaiting {
        Some(i) => b[i as int].tris@.to_multiset(),
        None => Multiset::empty(),
    }
}

/// The state of a builder with bounds `b`, queue `q`, `n` triangles and depth
/// limit `m` is consistent: the bounds form a hierarchy, queued bounds are
/// parts of bounds that are not leaves (or the root, before any bound was
/// added), a bound gets at most two children, and where every split so far
/// was exact, the leaves, the queue and the bound waiting to be split
/// together hold every triangle exactly once.
pub open spec fn state_ok(
    b: Seq<BoundNode>,
    q: Seq<Option<BoundNode>>,
    n: usize,
    m: usize,
    awaiting: Option<usize>,
    exact: bool,
) -> bool {
    &&& b.len() <= usize::MAX
    &&& tree_ok(b, n, m)
    &&& b.len() == 0 ==> {
        &&& q.len() <= 1
        &&& n > 0 ==> q.len() == 1 && q[0] is Some
        &&& awaiting is None
        &&& forall|j: int| 0 <= j < q.len() ==> (#[trigger] q[j] matches Some(e) ==> root_entry(e, n))
    }
    &&& b.len() > 0 ==> forall|j: int| 0 <= j < q.len() ==> (#[trigger] q[j] matches Some(e) ==> entry_ok(b, e, m))
    &&& awaiting matches Some(i) ==> {
        &&& i == b.len() - 1
        &&& !is_leaf(b[i as int], m)
        &&& b[i as int].children@.len() == 0
        &&& pending(q, i) == 0
    }
    &&& forall|i: int| 0 <= i < b.len() ==> (#[trigger] b[i]).children@.len() + pending(q, i as usize) <= 2
    &&& forall|i: int| 0 <= i < b.len() && is_leaf(#[trigger] b[i], m) ==> pending(q, i as usize) == 0
    &&& exact ==> leaf_bag(b, m).add(queue_bag(q)).add(awaiting_bag(b, awaiting)) == all_tris(n).to_multiset()
}

/// The triangles held by the bounds of `b` listed in `cs`, with multiplicity.
pub open spec fn children_bag(b: Seq<BoundNode>, cs: Seq<usize>) -> Multiset<usize>
    decreases cs.len(),
{
    if cs.len() == 0 {
        Multiset::empty()
    } else {
        children_bag(b, cs.drop_last()).add(b[cs.last() as int].tris@.to_multiset())
    }
}

proof fn children_bag_congruent(b1: Seq<BoundNode>, b2: Seq<BoundNode>, cs: Seq<usize>)
    requires
        forall|k: int| 0 <= k < cs.len() ==> (#[trigger] b1[cs[k] as int]).tris@ == b2[cs[k] as int].tris@,
    ensures
        children_bag(b1, cs) == children_bag(b2, cs),
    decreases cs.len(),
{
    if cs.len() > 0 {
        let init = cs.drop_last();
        assert forall|k: int| 0 <= k < init.len() implies (#[trigger] b1[init[k] as int]).tris@ == b2[init[k] as int].tris@ by {
            assert(init[k] == cs[k]);
        }
        children_bag_congruent(b1, b2, init);
        assert(b1[cs[cs.len() - 1] as int].tris@ == b2[cs[cs.len() - 1] as int].tris@);
    }
}

/// The triangles held by the queued bounds that name `i` as their parent.
pub open spec fn pending_bag(q: Seq<Option<BoundNode>>, i: usize) -> Multiset<usize>
    decreases q.len(),
{
    if q.len() == 0 {
        Multiset::empty()
    } else {
        let rest = pending_bag(q.drop_first(), i);
        match q[0] {
            Some(e) => if e.parent_index == i { e.tris@.to_multiset().add(rest) } else { rest },
            None => rest,
        }
    }
}

proof fn pending_bag_push(q: Seq<Option<BoundNode>>, x: Option<BoundNode>, i: usize)
    ensures
        pending_bag(q.push(x), i) =~= match x {
            Some(e) => if e.parent_index == i { pending_bag(q, i).add(e.tris@.to_multiset()) } else { pending_bag(q, i) },
            None => pending_bag(q, i),
        },
    decreases q.len(),
{
    if q.len() > 0 {
        assert(q.push(x).drop_first() =~= q.drop_first().push(x));
        assert(q.push(x)[0] == q[0]);
        pending_bag_push(q.drop_first(), x, i);
    } else {
        assert(q.push(x).drop_first() =~= Seq::<Option<BoundNode>>::empty());
        assert(q.push(x)[0] == x);
        assert(pending_bag(q.push(x).drop_first(), i) =~= Multiset::empty());
    }
}

proof fn pending_bag_zero(q: Seq<Option<BoundNode>>, i: usize)
    requires
        pending(q, i) == 0,
    ensures
        pending_bag(q, i) =~= Multiset::empty(),
    decreases q.len(),
{
    if q.len() > 0 {
        pending_bag_zero(q.drop_first(), i);
    }
}

/// The most bounds a queued bound can still give rise to: `2^(m - d + 1) - 1`
/// for one at depth `d`, none for an empty one.
pub open spec fn entry_cap(x: Option<BoundNode>, m: usize) -> int {
    match x {
        Some(e) => pow2((m - e.depth + 1) as nat) - 1,
        None => 0,
    }
}

pub open spec fn queue_cap(q: Seq<Option<BoundNode>>, m: usize) -> int
    decreases q.len(),
{
    if q.len() == 0 {
        0
    } else {
        entry_cap(q[0], m) + queue_cap(q.drop_first(), m)
    }
}

proof fn queue_cap_push(q: Seq<Option<BoundNode>>, x: Option<BoundNode>, m: usize)
    ensures
        queue_cap(q.push(x), m) == queue_cap(q, m) + entry_cap(x, m),
    decreases q.len(),
{
    if q.len() > 0 {
        assert(q.push(x).drop_first() =~= q.drop_first().push(x));
        assert(q.push(x)[0] == q[0]);
        queue_cap_push(q.drop_first(), x, m);
    } else {
        assert(q.push(x).drop_first() =~= Seq::<Option<BoundNode>>::empty());
        assert(q.push(x)[0] == x);
        assert(queue_cap(q.push(x).drop_first(), m) == 0);
    }
}

/// With exact splits, the most bounds a queued bound can still give rise to:
/// one per level left and triangle, `(m - d + 1) * t` for one at depth `d`
/// with `t` triangles.
pub open spec fn entry_tri_cap(x: Option<BoundNode>, m: usize) -> int {
    match x {
        Some(e) => (m - e.depth + 1) * e.tris@.len(),
        None => 0,
    }
}

pub open spec fn queue_tri_cap(q: Seq<Option<BoundNode>>, m: usize) -> int
    decreases q.len(),
{
    if q.len() == 0 {
        0
    } else {
        entry_tri_cap(q[0], m) + queue_tri_cap(q.drop_first(), m)
    }
}

proof fn queue_tri_cap_push(q: Seq<Option<BoundNode>>, x: Option<BoundNode>, m: usize)
    ensures
        queue_tri_cap(q.push(x), m) == queue_tri_cap(q, m) + entry_tri_cap(x, m),
    decreases q.len(),
{
    if q.len() > 0 {
        assert(q.push(x).drop_first() =~= q.drop_first().push(x));
        assert(q.push(x)[0] == q[0]);
        queue_tri_cap_push(q.drop_first(), x, m);
    } else {
        assert(q.push(x).drop_first() =~= Seq::<Option<BoundNode>>::empty());
        assert(q.push(x)[0] == x);
        assert(queue_tri_cap(q.push(x).drop_first(), m) == 0);
    }
}

/// What the bound waiting to be split can still give rise to besides itself.
pub open spec fn awaiting_cap(b: Seq<BoundNode>, m: usize, awaiting: Option<usize>) -> int {
    match awaiting {
        Some(i) => pow2((m - b[i as int].depth + 1) as nat) - 2,
        None => 0,
    }
}

/// With exact splits, what the bound waiting to be split can still give rise
/// to besides itself.
pub open spec fn awaiting_tri_cap(b: Seq<BoundNode>, m: usize, awaiting: Option<usize>) -> int {
    match awaiting {
        Some(i) => (m - b[i as int].depth + 1) * b[i as int].tris@.len() - 1,
        None => 0,
    }
}

/// More of the builder's invariant: where every split so far sent each
/// triangle to a side, every split bound has or awaits a child; where every
/// split was exact, the children of a split bound, with its queued parts,
/// hold its triangles exactly once; and the bounds made, with all the queued
/// bounds and the bound waiting to be split can still give rise to, number
/// at most `2^(m + 1) - 1`, and with exact splits at most `(m + 1) * n`.
pub open spec fn extra_ok(
    b: Seq<BoundNode>,
    q: Seq<Option<BoundNode>>,
    n: usize,
    m: usize,
    awaiting: Option<usize>,
    exact: bool,
    covering: bool,
) -> bool {
    &&& covering ==> forall|i: int|
        0 <= i < b.len() && !is_leaf(#[trigger] b[i], m) && awaiting != Some(i as usize) ==> b[i].children@.len()
            + pending(q, i as usize) >= 1
    &&& exact ==> forall|i: int|
        0 <= i < b.len() && !is_leaf(#[trigger] b[i], m) && awaiting != Some(i as usize) ==> children_bag(
            b,
            b[i].children@,
        ).add(pending_bag(q, i as usize)) =~= b[i].tris@.to_multiset()
    &&& b.len() + queue_cap(q, m) + awaiting_cap(b, m, awaiting) <= pow2((m + 1) as nat) - 1
    &&& exact ==> b.len() + queue_tri_cap(q, m) + awaiting_tri_cap(b, m, awaiting) <= (m + 1) * n
}

/// The triangle lists of the bounds of `b` listed in `cs`, in order.
pub open spec fn child_tris(b: Seq<BoundNode>, cs: Seq<usize>) -> Seq<Seq<usize>> {
    cs.map_values(|c: usize| b[c as int].tris@)
}

/// The triangle lists of the queued bounds that name `i` as their parent,
/// in queue order.
pub open spec fn pending_tris(q: Seq<Option<BoundNode>>, i: usize) -> Seq<Seq<usize>>
    decreases q.len(),
{
    if q.len() == 0 {
        seq![]
    } else {
        let rest = pending_tris(q.drop_first(), i);
        match q[0] {
            Some(e) => if e.parent_index == i { seq![e.tris@] + rest } else { rest },
            None => rest,
        }
    }
}

proof fn pending_tris_push(q: Seq<Option<BoundNode>>, x: Option<BoundNode>, i: usize)
    ensures
        pending_tris(q.push(x), i) =~= match x {
            Some(e) => if e.parent_index == i { pending_tris(q, i).push(e.tris@) } else { pending_tris(q, i) },
            None => pending_tris(q, i),
        },
    decreases q.len(),
{
    if q.len() > 0 {
        assert(q.push(x).drop_first() =~= q.drop_first().push(x));
        assert(q.push(x)[0] == q[0]);
        pending_tris_push(q.drop_first(), x, i);
    } else {
        assert(q.push(x).drop_first() =~= Seq::<Option<BoundNode>>::empty());
        assert(q.push(x)[0] == x);
        assert(pending_tris(q.push(x).drop_first(), i) =~= Seq::<Seq<usize>>::empty());
    }
}

proof fn pending_tris_zero(q: Seq<Option<BoundNode>>, i: usize)
    requires
        pending(q, i) == 0,
    ensures
        pending_tris(q, i) =~= Seq::<Seq<usize>>::empty(),
    decreases q.len(),
{
    if q.len() > 0 {
        pending_tris_zero(q.drop_first(), i);
    }
}

/// The triangles selected by `keep`, as a one-element list, or no list where
/// none is selected.
pub open spec fn part(tris: Seq<usize>, keep: Seq<bool>) -> Seq<Seq<usize>> {
    if select(tris, keep).len() > 0 {
        seq![select(tris, keep)]
    } else {
        seq![]
    }
}

/// The non-empty parts of a split of `tris` by `left` and `right` flags, the
/// left part first.
pub open spec fn side_parts(tris: Seq<usize>, left: Seq<bool>, right: Seq<bool>) -> Seq<Seq<usize>> {
    part(tris, left) + part(tris, right)
}

/// Every bound that was split has its flags recorded, and its children so
/// far, followed by its parts still queued, hold in order the non-empty
/// parts of its split, the left part first.
pub open spec fn order_ok(
    b: Seq<BoundNode>,
    q: Seq<Option<BoundNode>>,
    m: usize,
    awaiting: Option<usize>,
    splits: Map<usize, (Seq<bool>, Seq<bool>)>,
) -> bool {
    forall|i: int|
        0 <= i < b.len() && !is_leaf(#[trigger] b[i], m) && awaiting != Some(i as usize) ==> {
            &&& splits.dom().contains(i as usize)
            &&& splits[i as usize].0.len() == b[i].tris@.len()
            &&& splits[i as usize].1.len() == b[i].tris@.len()
            &&& child_tris(b, b[i].children@) + pending_tris(q, i as usize) =~= side_parts(
                b[i].tris@,
                splits[i as usize].0,
                splits[i as usize].1,
            )
        }
}

impl BvhBuilder {
    /// A builder whose queue holds the root bound over the triangles
    /// `0..tri_count`, or nothing to build where there are none.
    pub fn new(tri_count: usize, max_depth: usize) -> (res: BvhBuilder)
        ensures
            res.wf(),
            res@.bounds.len() == 0,
            res@.tri_count == tri_count,
            res@.max_depth == max_depth,
            res@.awaiting is None,
            res@.exact,
            res@.covering,
            res@.splits == Map::<usize, (Seq<bool>, Seq<bool>)>::empty(),
            res@.queue.len() == 1,
            tri_count == 0 ==> res@.queue[0] is None,
            tri_count > 0 ==> (res@.queue[0] matches Some(e) && root_entry(e, tri_count) && e.parent_index == 0),
    {
        let mut tris: Vec<usize> = Vec::new();
        let mut i: usize = 0;
        while i < tri_count
            invariant
                i <= tri_count,
                tris@ == Seq::new(i as nat, |k: int| k as usize),
            decreases tri_count - i,
        {
            tris.push(i);
            i = i + 1;
            assert(tris@ =~= Seq::new(i as nat, |k: int| k as usize));
        }
        let root = if tri_count == 0 {
            None
        } else {
            Some(BoundNode { parent_index: 0, tris: tris, children: Vec::new(), depth: 0 })
        };
        let mut queue: VecDeque<Option<BoundNode>> = VecDeque::new();
        queue.push_back(root);
        let res = BvhBuilder {
            bounds: Vec::new(),
            queue: queue,
            tri_count: tri_count,
            max_depth: max_depth,
            awaiting: None,
            exact: Ghost(true),
            covering: Ghost(true),
            splits: Ghost(Map::empty()),
        };
        proof {
            let q = res@.queue;
            assert(q.drop_first() =~= Seq::<Option<BoundNode>>::empty());
            assert(queue_bag(q.drop_first()) =~= Multiset::empty());
            if tri_count == 0 {
                assert(all_tris(tri_count) =~= Seq::<usize>::empty());
                assert(all_tris(tri_count).to_multiset() =~= Multiset::empty());
            }
            assert(leaf_bag(res@.bounds, max_depth) =~= Multiset::empty());
            assert(leaf_bag(res@.bounds, max_depth).add(queue_bag(q)).add(awaiting_bag(res@.bounds, None))
                =~= all_tris(tri_count).to_multiset());
            assert(queue_cap(q.drop_first(), max_depth) == 0);
            assert(queue_tri_cap(q.drop_first(), max_depth) == 0);
            lemma_pow2_pos((max_depth + 1) as nat);
        }
        res
    }
}

/// Dropping an empty bound from the front of the queue keeps the state consistent.
proof fn pop_none_ok(b: Seq<BoundNode>, q: Seq<Option<BoundNode>>, n: usize, m: usize, exact: bool)
    requires
        state_ok(b, q, n, m, None, exact),
        q.len() > 0,
        q[0] is None,
    ensures
        state_ok(b, q.drop_first(), n, m, None, exact),
{
    let q2 = q.drop_first();
    assert forall|j: int| 0 <= j < q2.len() implies #[trigger] q2[j] == q[j + 1] by {}
    assert forall|i: int| 0 <= i < b.len() implies #[trigger] pending(q2, i as usize) == pending(q, i as usize) by {}
    if b.len() > 0 {
        assert forall|j: int| 0 <= j < q2.len() implies (#[trigger] q2[j] matches Some(e) ==> entry_ok(b, e, m)) by {
            assert(q[j + 1] matches Some(e) ==> entry_ok(b, e, m));
        }
    }
    assert forall|i: int| 0 <= i < b.len() implies (#[trigger] b[i]).children@.len() + pending(q2, i as usize) <= 2 by {
        assert(pending(q2, i as usize) == pending(q, i as usize));
    }
    assert(queue_bag(q2) == queue_bag(q));
}

/// Taking a bound from the front of the queue and appending it to the
/// bounds keeps the state consistent; a bound that is not a leaf then waits
/// to be split.
#[verifier::spinoff_prover]
proof fn pop_some_ok(
    b: Seq<BoundNode>,
    q: Seq<Option<BoundNode>>,
    n: usize,
    m: usize,
    exact: bool,
    e: BoundNode,
    b2: Seq<BoundNode>,
)
    requires
        state_ok(b, q, n, m, None, exact),
        q.len() > 0,
        q[0] == Some(e),
        appended(b, e, b2),
        b2.len() <= usize::MAX,
    ensures
        state_ok(b2, q.drop_first(), n, m, if is_leaf(e, m) { None } else { Some(b.len() as usize) }, exact),
{
    let q2 = q.drop_first();
    let i = b.len() as int;
    let aw: Option<usize> = if is_leaf(e, m) { None } else { Some(b.len() as usize) };
    assert forall|j: int| 0 <= j < q2.len() implies #[trigger] q2[j] == q[j + 1] by {}
    assert(b2[i] == e);
    if b.len() == 0 {
        assert(root_entry(e, n));
        assert(q2.len() == 0);
        assert forall|j: int| 0 <= j < b2.len() implies #[trigger] node_ok(b2, j, n, m) by {
            assert(j == 0);
            assert forall|k: int| 0 <= k < e.tris@.len() implies #[trigger] e.tris@[k] < n by {
                assert(e.tris@[k] == all_tris(n)[k]);
            }
        }
        assert(pending(q2, 0) == 0);
        assert(b2.drop_last() =~= b);
        assert(queue_bag(q) =~= e.tris@.to_multiset().add(queue_bag(q2)));
        assert(queue_bag(q2) =~= Multiset::empty());
        assert(leaf_bag(b, m) =~= Multiset::empty());
        if exact {
            assert(leaf_bag(b2, m).add(queue_bag(q2)).add(awaiting_bag(b2, aw)) =~= all_tris(n).to_multiset());
        }
    } else {
        let p = e.parent_index as int;
        assert(entry_ok(b, e, m));
        assert(node_ok(b, p, n, m));
        // pending counts after the pop
        assert(pending(q, p as usize) == 1 + pending(q2, p as usize));
        assert forall|j: int| 0 <= j < b.len() && j != p implies #[trigger] pending(q2, j as usize) == pending(
            q,
            j as usize,
        ) by {}
        assert forall|j: int| 0 <= j < q2.len() implies (#[trigger] q2[j] matches Some(f) ==> f.parent_index
            != i as usize) by {
            assert(q[j + 1] matches Some(f) ==> entry_ok(b, f, m));
        }
        pending_zero(q2, i as usize);
        // the hierarchy
        assert forall|j: int| 0 <= j < b2.len() implies #[trigger] node_ok(b2, j, n, m) by {
            if j == i {
                assert forall|k: int| 0 <= k < e.tris@.len() implies #[trigger] e.tris@[k] < n by {
                    assert(b[p].tris@.contains(e.tris@[k]));
                    let kk = choose|kk: int| 0 <= kk < b[p].tris@.len() && b[p].tris@[kk] == e.tris@[k];
                    assert(b[p].tris@[kk] < n);
                }
                assert(b2[p].children@.contains(i as usize)) by {
                    assert(b2[p].children@[b2[p].children@.len() - 1] == i as usize);
                }
            } else {
                assert(node_ok(b, j, n, m));
                let node = b2[j];
                assert(node.tris == b[j].tris);
                assert(node.depth == b[j].depth);
                if j > 0 {
                    let pj = node.parent_index as int;
                    assert(b2[pj].tris == b[pj].tris);
                    assert(b2[pj].depth == b[pj].depth);
                    assert(b2[pj].children@.contains(j as usize)) by {
                        let kk = choose|kk: int| 0 <= kk < b[pj].children@.len() && b[pj].children@[kk] == j as usize;
                        if pj == p {
                            assert(b2[pj].children@[kk] == j as usize);
                        }
                    }
                }
                assert forall|k: int| 0 <= k < node.children@.len() implies j < #[trigger] node.children@[k]
                    < b2.len() && b2[node.children@[k] as int].parent_index == j by {
                    if j == p && k == node.children@.len() - 1 {
                    } else {
                        let c = b[j].children@[k] as int;
                        assert(node.children@[k] == c);
                        assert(b2[c].parent_index == b[c].parent_index);
                    }
                }
                if j == p {
                    assert forall|k: int, l: int| 0 <= k < l < node.children@.len() implies #[trigger] node.children@[k]
                        < #[trigger] node.children@[l] by {
                        if l == node.children@.len() - 1 {
                            assert(b[j].children@[k] < b.len());
                        }
                    }
                }
            }
        }
        // queued bounds
        assert forall|j: int| 0 <= j < q2.len() implies (#[trigger] q2[j] matches Some(f) ==> entry_ok(b2, f, m)) by {
            if let Some(f) = q[j + 1] {
                assert(entry_ok(b, f, m));
                let pf = f.parent_index as int;
                assert(b2[pf].tris == b[pf].tris);
            }
        }
        assert forall|j: int| 0 <= j < b2.len() implies (#[trigger] b2[j]).children@.len() + pending(q2, j as usize)
            <= 2 by {
            if j < i && j != p {
                assert(b2[j] == b[j]);
            }
        }
        assert forall|j: int| 0 <= j < b2.len() && is_leaf(#[trigger] b2[j], m) implies pending(q2, j as usize)
            == 0 by {
            if j < i && j != p {
                assert(b2[j] == b[j]);
            }
        }
        // the triangles
        assert(b2.drop_last().len() == b.len());
        assert forall|j: int| 0 <= j < b.len() implies (#[trigger] b2.drop_last()[j]).tris@ == b[j].tris@
            && b2.drop_last()[j].depth == b[j].depth by {
            if j != p {
                assert(b2[j] == b[j]);
            }
        }
        leaf_bag_congruent(b2.drop_last(), b, m);
        assert(queue_bag(q) =~= e.tris@.to_multiset().add(queue_bag(q2)));
        if exact {
            assert(leaf_bag(b2, m).add(queue_bag(q2)).add(awaiting_bag(b2, aw)) =~= all_tris(n).to_multiset());
        }
    }
}

/// The triangles of a bound made by `bound_of`.
proof fn bound_of_bag(x: Option<BoundNode>, tris: Seq<usize>, keep: Seq<bool>, parent_index: usize, depth: usize)
    requires
        bound_of(x, tris, keep, parent_index, depth),
    ensures
        match x {
            Some(e) => e.tris@.to_multiset() == select(tris, keep).to_multiset(),
            None => select(tris, keep).to_multiset() =~= Multiset::empty(),
        },
{
    if x is None {
        assert(select(tris, keep) =~= Seq::<usize>::empty());
    }
}

/// Queueing the two parts of the bound waiting to be split keeps the state
/// consistent, and the split is exact where the flags are complementary.
#[verifier::spinoff_prover]
proof fn split_ok(
    b: Seq<BoundNode>,
    q: Seq<Option<BoundNode>>,
    n: usize,
    m: usize,
    exact: bool,
    i: usize,
    left: Seq<bool>,
    right: Seq<bool>,
    xl: Option<BoundNode>,
    xr: Option<BoundNode>,
)
    requires
        state_ok(b, q, n, m, Some(i), exact),
        left.len() == b[i as int].tris@.len(),
        right.len() == b[i as int].tris@.len(),
        bound_of(xl, b[i as int].tris@, left, i, (b[i as int].depth + 1) as usize),
        bound_of(xr, b[i as int].tris@, right, i, (b[i as int].depth + 1) as usize),
    ensures
        state_ok(
            b,
            q.push(xl).push(xr),
            n,
            m,
            None,
            exact && complementary(left, right, b[i as int].tris@.len()),
        ),
{
    let node = b[i as int];
    let q1 = q.push(xl);
    let q2 = q1.push(xr);
    assert(node_ok(b, i as int, n, m));
    assert(node.depth < m);
    select_subset(node.tris@, left);
    select_subset(node.tris@, right);
    assert forall|j: int| 0 <= j < q2.len() implies (#[trigger] q2[j] matches Some(f) ==> entry_ok(b, f, m)) by {
        if j < q.len() {
            assert(q2[j] == q[j]);
        } else if j == q.len() {
            assert(q2[j] == xl);
            if let Some(f) = xl {
                assert forall|k: int| 0 <= k < f.tris@.len() implies node.tris@.contains(#[trigger] f.tris@[k]) by {
                    assert(select(node.tris@, left).contains(f.tris@[k]));
                }
            }
        } else {
            assert(q2[j] == xr);
            if let Some(f) = xr {
                assert forall|k: int| 0 <= k < f.tris@.len() implies node.tris@.contains(#[trigger] f.tris@[k]) by {
                    assert(select(node.tris@, right).contains(f.tris@[k]));
                }
            }
        }
    }
    assert forall|j: int| 0 <= j < b.len() implies #[trigger] pending(q2, j as usize) == pending(q, j as usize)
        + (if xl matches Some(e) && e.parent_index == j as usize { 1nat } else { 0nat })
        + (if xr matches Some(e) && e.parent_index == j as usize { 1nat } else { 0nat }) by {
        pending_push(q, xl, j as usize);
        pending_push(q1, xr, j as usize);
    }
    assert forall|j: int| 0 <= j < b.len() implies (#[trigger] b[j]).children@.len() + pending(q2, j as usize) <= 2 by {
        assert(pending(q2, j as usize) == pending(q, j as usize)
            + (if xl matches Some(e) && e.parent_index == j as usize { 1nat } else { 0nat })
            + (if xr matches Some(e) && e.parent_index == j as usize { 1nat } else { 0nat }));
    }
    assert forall|j: int| 0 <= j < b.len() && is_leaf(#[trigger] b[j], m) implies pending(q2, j as usize) == 0 by {
        assert(pending(q2, j as usize) == pending(q, j as usize)
            + (if xl matches Some(e) && e.parent_index == j as usize { 1nat } else { 0nat })
            + (if xr matches Some(e) && e.parent_index == j as usize { 1nat } else { 0nat }));
    }
    queue_bag_push(q, xl);
    queue_bag_push(q1, xr);
    bound_of_bag(xl, node.tris@, left, i, (node.depth + 1) as usize);
    bound_of_bag(xr, node.tris@, right, i, (node.depth + 1) as usize);
    if exact && complementary(left, right, node.tris@.len()) {
        select_partition(node.tris@, left, right);
        assert(leaf_bag(b, m).add(queue_bag(q2)).add(awaiting_bag(b, None)) =~= all_tris(n).to_multiset());
    }
}

/// Four to the power `e`.
pub open spec fn pow4(e: nat) -> nat
    decreases e,
{
    if e == 0 {
        1
    } else {
        4 * pow4((e - 1) as nat)
    }
}

proof fn pow4_positive(e: nat)
    ensures
        pow4(e) >= 1,
    decreases e,
{
    if e > 0 {
        pow4_positive((e - 1) as nat);
    }
}

/// The work a queued bound may still cause: an empty one 1, a bound at
/// depth `d` four to the power `m - d + 1`.
pub open spec fn entry_weight(x: Option<BoundNode>, m: usize) -> nat {
    match x {
        Some(e) => pow4((m - e.depth + 1) as nat),
        None => 1,
    }
}

/// The work the queued bounds may still cause.
pub open spec fn queue_weight(q: Seq<Option<BoundNode>>, m: usize) -> nat
    decreases q.len(),
{
    if q.len() == 0 {
        0
    } else {
        entry_weight(q[0], m) + queue_weight(q.drop_first(), m)
    }
}

proof fn queue_weight_push(q: Seq<Option<BoundNode>>, x: Option<BoundNode>, m: usize)
    ensures
        queue_weight(q.push(x), m) == queue_weight(q, m) + entry_weight(x, m),
    decreases q.len(),
{
    if q.len() > 0 {
        assert(q.push(x).drop_first() =~= q.drop_first().push(x));
        assert(q.push(x)[0] == q[0]);
        queue_weight_push(q.drop_first(), x, m);
    } else {
        assert(q.push(x).drop_first() =~= Seq::<Option<BoundNode>>::empty());
        assert(q.push(x)[0] == x);
        assert(queue_weight(q.push(x).drop_first(), m) == 0);
    }
}

impl BvhBuilder {
    /// A bound on the steps the construction still takes: the work of the
    /// queued bounds, plus three times four to the power `m - d` for a bound
    /// at depth `d` waiting to be split.
    pub open spec fn remaining_work(&self) -> nat {
        queue_weight(self@.queue, self@.max_depth) + match self@.awaiting {
            Some(i) => 3 * pow4((self@.max_depth - self@.bounds[i as int].depth) as nat),
            None => 0,
        }
    }
}

/// Two flag sequences of length `n` of which at least one is set at every
/// position.
pub open spec fn covers(a: Seq<bool>, b: Seq<bool>, n: nat) -> bool {
    &&& a.len() == n
    &&& b.len() == n
    &&& forall|i: int| 0 <= i < n ==> #[trigger] a[i] || b[i]
}

/// A flag set for some triangle selects at least one triangle.
proof fn select_nonempty(tris: Seq<usize>, keep: Seq<bool>, k: int)
    requires
        0 <= k < tris.len(),
        keep[k],
    ensures
        select(tris, keep).len() > 0,
    decreases tris.len(),
{
    if k < tris.len() - 1 {
        select_nonempty(tris.drop_last(), keep, k);
    }
}

/// Dropping an empty bound keeps the rest of the invariant.
proof fn extra_pop_none(
    b: Seq<BoundNode>,
    q: Seq<Option<BoundNode>>,
    n: usize,
    m: usize,
    exact: bool,
    covering: bool,
)
    requires
        state_ok(b, q, n, m, None, exact),
        extra_ok(b, q, n, m, None, exact, covering),
        q.len() > 0,
        q[0] is None,
    ensures
        extra_ok(b, q.drop_first(), n, m, None, exact, covering),
{
    let q2 = q.drop_first();
    assert forall|i: int| 0 <= i < b.len() implies #[trigger] pending(q2, i as usize) == pending(q, i as usize)
        && pending_bag(q2, i as usize) == pending_bag(q, i as usize) by {}
}

/// Appending a bound taken from the queue keeps the rest of the invariant.
#[verifier::spinoff_prover]
proof fn extra_pop_some(
    b: Seq<BoundNode>,
    q: Seq<Option<BoundNode>>,
    n: usize,
    m: usize,
    exact: bool,
    covering: bool,
    e: BoundNode,
    b2: Seq<BoundNode>,
)
    requires
        state_ok(b, q, n, m, None, exact),
        extra_ok(b, q, n, m, None, exact, covering),
        q.len() > 0,
        q[0] == Some(e),
        appended(b, e, b2),
        b2.len() <= usize::MAX,
    ensures
        extra_ok(
            b2,
            q.drop_first(),
            n,
            m,
            if is_leaf(e, m) { None } else { Some(b.len() as usize) },
            exact,
            covering,
        ),
{
    let q2 = q.drop_first();
    let i = b.len() as int;
    let aw: Option<usize> = if is_leaf(e, m) { None } else { Some(b.len() as usize) };
    assert(b2[i] == e);
    let p = e.parent_index as int;
    if b.len() == 0 {
        assert(root_entry(e, n));
    } else {
        assert(entry_ok(b, e, m));
        assert(node_ok(b, p, n, m));
    }
    assert(e.depth <= m);
    assert(e.tris@.len() > 0) by {
        if b.len() == 0 {
            assert(all_tris(n).len() == n);
        }
    }
    // the capacities
    let k = (m - e.depth) as nat;
    lemma_pow2_unfold(k + 1);
    lemma_pow2_pos(k);
    assert(queue_cap(q, m) == entry_cap(Some(e), m) + queue_cap(q2, m));
    assert(queue_tri_cap(q, m) == entry_tri_cap(Some(e), m) + queue_tri_cap(q2, m));
    assert(entry_tri_cap(Some(e), m) >= 1) by (nonlinear_arith)
        requires
            entry_tri_cap(Some(e), m) == (m - e.depth + 1) * e.tris@.len(),
            e.depth <= m,
            e.tris@.len() > 0,
    ;
    if b.len() > 0 {
        // every bound before the new one keeps its triangles
        assert forall|j: int| 0 <= j < b.len() implies (#[trigger] b2[j]).tris@ == b[j].tris@ && b2[j].depth
            == b[j].depth by {
            if j != p {
                assert(b2[j] == b[j]);
            }
        }
        assert forall|j: int| 0 <= j < b.len() && j != p implies #[trigger] pending(q2, j as usize) == pending(
            q,
            j as usize,
        ) && pending_bag(q2, j as usize) == pending_bag(q, j as usize) by {}
        assert(pending(q, p as usize) == 1 + pending(q2, p as usize));
        assert(pending_bag(q, p as usize) == e.tris@.to_multiset().add(pending_bag(q2, p as usize)));
        if covering {
            assert forall|j: int|
                0 <= j < b2.len() && !is_leaf(#[trigger] b2[j], m) && aw != Some(j as usize) implies b2[j].children@.len()
                + pending(q2, j as usize) >= 1 by {
                assert(j < b.len());
                if j != p {
                    assert(b2[j] == b[j]);
                }
            }
        }
        if exact {
            assert forall|j: int|
                0 <= j < b2.len() && !is_leaf(#[trigger] b2[j], m) && aw != Some(j as usize) implies children_bag(
                b2,
                b2[j].children@,
            ).add(pending_bag(q2, j as usize)) =~= b2[j].tris@.to_multiset() by {
                assert(j < b.len());
                assert(node_ok(b, j, n, m));
                let cs = b[j].children@;
                assert forall|k: int| 0 <= k < cs.len() implies (#[trigger] b2[cs[k] as int]).tris@
                    == b[cs[k] as int].tris@ by {
                    assert(cs[k] < b.len());
                }
                children_bag_congruent(b2, b, cs);
                if j == p {
                    let cs2 = b2[j].children@;
                    assert(cs2 == cs.push(i as usize));
                    assert(cs2.drop_last() =~= cs);
                    assert(children_bag(b2, cs2) == children_bag(b2, cs).add(e.tris@.to_multiset()));
                } else {
                    assert(b2[j] == b[j]);
                }
            }
        }
    }
}

/// A part of a bound at depth `d < m` can give rise to at most half of what
/// that bound could, less one.
proof fn child_cap(x: Option<BoundNode>, m: usize, d: usize)
    requires
        d < m,
        x matches Some(e) ==> e.depth == d + 1,
    ensures
        entry_cap(x, m) <= pow2((m - d) as nat) - 1,
        2 * pow2((m - d) as nat) == pow2((m - d + 1) as nat),
{
    let k = (m - d) as nat;
    lemma_pow2_pos(k);
    lemma_pow2_unfold(k + 1);
    assert((m - d + 1) as nat == k + 1);
    if let Some(e) = x {
        assert((m - e.depth + 1) as nat == k);
    }
}

/// Queueing the two parts of the bound waiting to be split keeps the rest of
/// the invariant; the partition of its triangles holds where the split is
/// exact, and it has a child coming where every triangle goes to a side.
#[verifier::spinoff_prover]
proof fn extra_split(
    b: Seq<BoundNode>,
    q: Seq<Option<BoundNode>>,
    n: usize,
    m: usize,
    exact: bool,
    covering: bool,
    i: usize,
    left: Seq<bool>,
    right: Seq<bool>,
    xl: Option<BoundNode>,
    xr: Option<BoundNode>,
)
    requires
        state_ok(b, q, n, m, Some(i), exact),
        extra_ok(b, q, n, m, Some(i), exact, covering),
        left.len() == b[i as int].tris@.len(),
        right.len() == b[i as int].tris@.len(),
        bound_of(xl, b[i as int].tris@, left, i, (b[i as int].depth + 1) as usize),
        bound_of(xr, b[i as int].tris@, right, i, (b[i as int].depth + 1) as usize),
    ensures
        extra_ok(
            b,
            q.push(xl).push(xr),
            n,
            m,
            None,
            exact && complementary(left, right, b[i as int].tris@.len()),
            covering && covers(left, right, b[i as int].tris@.len()),
        ),
{
    let node = b[i as int];
    let t = node.tris@;
    let q1 = q.push(xl);
    let q2 = q1.push(xr);
    let d = node.depth;
    assert(node_ok(b, i as int, n, m));
    assert(d < m);
    let ex2 = exact && complementary(left, right, t.len());
    let cov2 = covering && covers(left, right, t.len());
    assert forall|j: int| 0 <= j < b.len() implies #[trigger] pending(q2, j as usize) == pending(q, j as usize)
        + (if xl matches Some(e) && e.parent_index == j as usize { 1nat } else { 0nat })
        + (if xr matches Some(e) && e.parent_index == j as usize { 1nat } else { 0nat }) by {
        pending_push(q, xl, j as usize);
        pending_push(q1, xr, j as usize);
    }
    assert forall|j: int| 0 <= j < b.len() && j != i implies #[trigger] pending_bag(q2, j as usize) =~= pending_bag(
        q,
        j as usize,
    ) by {
        pending_bag_push(q, xl, j as usize);
        pending_bag_push(q1, xr, j as usize);
    }
    pending_bag_push(q, xl, i);
    pending_bag_push(q1, xr, i);
    pending_bag_zero(q, i);
    bound_of_bag(xl, t, left, i, (d + 1) as usize);
    bound_of_bag(xr, t, right, i, (d + 1) as usize);
    if cov2 {
        assert(t.len() > 0);
        if left[0] {
            select_nonempty(t, left, 0);
        } else {
            select_nonempty(t, right, 0);
        }
        assert forall|j: int|
            0 <= j < b.len() && !is_leaf(#[trigger] b[j], m) implies b[j].children@.len() + pending(q2, j as usize)
            >= 1 by {
            assert(pending(q2, j as usize) == pending(q, j as usize)
                + (if xl matches Some(e) && e.parent_index == j as usize { 1nat } else { 0nat })
                + (if xr matches Some(e) && e.parent_index == j as usize { 1nat } else { 0nat }));
        }
    }
    if ex2 {
        select_partition(t, left, right);
        assert forall|j: int| 0 <= j < b.len() && !is_leaf(#[trigger] b[j], m) implies children_bag(
            b,
            b[j].children@,
        ).add(pending_bag(q2, j as usize)) =~= b[j].tris@.to_multiset() by {
            if j == i {
                assert(b[j].children@ =~= Seq::<usize>::empty());
                assert(children_bag(b, b[j].children@) =~= Multiset::empty());
            }
        }
    }
    // the capacities
    queue_cap_push(q, xl, m);
    queue_cap_push(q1, xr, m);
    queue_tri_cap_push(q, xl, m);
    queue_tri_cap_push(q1, xr, m);
    child_cap(xl, m, d);
    child_cap(xr, m, d);
    if ex2 {
        let tl = select(t, left).len();
        let tr = select(t, right).len();
        let ml = select(t, left).to_multiset();
        let mr = select(t, right).to_multiset();
        assert(ml.len() == tl);
        assert(mr.len() == tr);
        assert(ml.add(mr).len() == tl + tr);
        assert(ml.add(mr) == t.to_multiset());
        assert(tl + tr == t.len());
        assert(entry_tri_cap(xl, m) == (m - d) * tl);
        assert(entry_tri_cap(xr, m) == (m - d) * tr);
        assert((m - d) * tl + (m - d) * tr <= (m - d + 1) * t.len() - 1) by (nonlinear_arith)
            requires
                tl + tr == t.len(),
                t.len() >= 1,
                d < m,
        ;
    }
}

/// Dropping an empty bound from the front of the queue keeps the order of
/// the parts.
proof fn order_pop_none(
    b: Seq<BoundNode>,
    q: Seq<Option<BoundNode>>,
    m: usize,
    splits: Map<usize, (Seq<bool>, Seq<bool>)>,
)
    requires
        order_ok(b, q, m, None, splits),
        q.len() > 0,
        q[0] is None,
    ensures
        order_ok(b, q.drop_first(), m, None, splits),
{
    let q2 = q.drop_first();
    assert forall|i: int| 0 <= i < b.len() implies #[trigger] pending_tris(q2, i as usize) == pending_tris(
        q,
        i as usize,
    ) by {}
}

/// The triangle lists of the bounds `cs.push(c)`.
proof fn child_tris_push(b: Seq<BoundNode>, cs: Seq<usize>, c: usize)
    ensures
        child_tris(b, cs.push(c)) =~= child_tris(b, cs).push(b[c as int].tris@),
{
}

/// The triangle lists of bounds depend only on their triangles.
proof fn child_tris_congruent(b1: Seq<BoundNode>, b2: Seq<BoundNode>, cs: Seq<usize>)
    requires
        forall|k: int| 0 <= k < cs.len() ==> (#[trigger] b1[cs[k] as int]).tris@ == b2[cs[k] as int].tris@,
    ensures
        child_tris(b1, cs) =~= child_tris(b2, cs),
{
}

/// Appending a bound taken from the queue keeps the order of the parts: it
/// was the first of its parent's parts still queued and becomes its parent's
/// last child.
#[verifier::spinoff_prover]
proof fn order_pop_some(
    b: Seq<BoundNode>,
    q: Seq<Option<BoundNode>>,
    n: usize,
    m: usize,
    exact: bool,
    splits: Map<usize, (Seq<bool>, Seq<bool>)>,
    e: BoundNode,
    b2: Seq<BoundNode>,
)
    requires
        state_ok(b, q, n, m, None, exact),
        order_ok(b, q, m, None, splits),
        q.len() > 0,
        q[0] == Some(e),
        appended(b, e, b2),
    ensures
        order_ok(b2, q.drop_first(), m, if is_leaf(e, m) { None } else { Some(b.len() as usize) }, splits),
{
    let q2 = q.drop_first();
    let i = b.len() as int;
    let aw: Option<usize> = if is_leaf(e, m) { None } else { Some(b.len() as usize) };
    assert(b2[i] == e);
    if b.len() > 0 {
        let p = e.parent_index as int;
        assert(entry_ok(b, e, m));
        assert forall|j: int|
            0 <= j < b2.len() && !is_leaf(#[trigger] b2[j], m) && aw != Some(j as usize) implies {
            &&& splits.dom().contains(j as usize)
            &&& splits[j as usize].0.len() == b2[j].tris@.len()
            &&& splits[j as usize].1.len() == b2[j].tris@.len()
            &&& child_tris(b2, b2[j].children@) + pending_tris(q2, j as usize) =~= side_parts(
                b2[j].tris@,
                splits[j as usize].0,
                splits[j as usize].1,
            )
        } by {
            assert(j < i);
            assert(node_ok(b, j, n, m));
            let cs = b[j].children@;
            assert forall|k: int| 0 <= k < cs.len() implies (#[trigger] b2[cs[k] as int]).tris@ == b[cs[k] as int].tris@ by {
                assert(cs[k] < b.len());
                if cs[k] as int != p {
                    assert(b2[cs[k] as int] == b[cs[k] as int]);
                }
            }
            child_tris_congruent(b2, b, cs);
            if j == p {
                assert(b2[j].children@ == cs.push(i as usize));
                child_tris_push(b2, cs, i as usize);
                assert(pending_tris(q, j as usize) =~= seq![e.tris@] + pending_tris(q2, j as usize));
                assert(!is_leaf(b[j], m));
            } else {
                assert(b2[j] == b[j]);
                assert(pending_tris(q, j as usize) == pending_tris(q2, j as usize));
            }
        }
    }
}

/// Queueing the two parts of the bound waiting to be split records its
/// flags, and its parts, queued left first, are its parts in order.
#[verifier::spinoff_prover]
proof fn order_split(
    b: Seq<BoundNode>,
    q: Seq<Option<BoundNode>>,
    n: usize,
    m: usize,
    exact: bool,
    splits: Map<usize, (Seq<bool>, Seq<bool>)>,
    i: usize,
    left: Seq<bool>,
    right: Seq<bool>,
    xl: Option<BoundNode>,
    xr: Option<BoundNode>,
)
    requires
        state_ok(b, q, n, m, Some(i), exact),
        order_ok(b, q, m, Some(i), splits),
        left.len() == b[i as int].tris@.len(),
        right.len() == b[i as int].tris@.len(),
        bound_of(xl, b[i as int].tris@, left, i, (b[i as int].depth + 1) as usize),
        bound_of(xr, b[i as int].tris@, right, i, (b[i as int].depth + 1) as usize),
    ensures
        order_ok(b, q.push(xl).push(xr), m, None, splits.insert(i, (left, right))),
{
    let q1 = q.push(xl);
    let q2 = q1.push(xr);
    let s2 = splits.insert(i, (left, right));
    let t = b[i as int].tris@;
    assert forall|j: int| 0 <= j < b.len() implies #[trigger] pending_tris(q2, j as usize) =~= pending_tris(
        q,
        j as usize,
    ) + (if j == i as int { part(t, left) + part(t, right) } else { seq![] }) by {
        pending_tris_push(q, xl, j as usize);
        pending_tris_push(q1, xr, j as usize);
    }
    pending_tris_zero(q, i);
    assert(b[i as int].children@ =~= Seq::<usize>::empty());
    assert(child_tris(b, b[i as int].children@) =~= Seq::<Seq<usize>>::empty());
    assert forall|j: int| 0 <= j < b.len() && !is_leaf(#[trigger] b[j], m) implies {
        &&& s2.dom().contains(j as usize)
        &&& s2[j as usize].0.len() == b[j].tris@.len()
        &&& s2[j as usize].1.len() == b[j].tris@.len()
        &&& child_tris(b, b[j].children@) + pending_tris(q2, j as usize) =~= side_parts(
            b[j].tris@,
            s2[j as usize].0,
            s2[j as usize].1,
        )
    } by {
        if j != i as int {
            assert(s2[j as usize] == splits[j as usize]);
        }
    }
}

impl BvhBuilder {
    /// Takes the next bound from the queue. An empty one is dropped; any
    /// other is appended to the bounds and linked to its parent, and is then
    /// either a leaf or waits to be split.
    pub fn next_step(&mut self) -> (res: BuildStep)
        requires
            old(self).wf(),
            old(self)@.awaiting is None,
        ensures
            final(self).wf(),
            final(self)@.tri_count == old(self)@.tri_count,
            final(self)@.max_depth == old(self)@.max_depth,
            final(self)@.exact == old(self)@.exact,
            final(self)@.covering == old(self)@.covering,
            final(self)@.splits == old(self)@.splits,
            old(self)@.queue.len() == 0 ==> res == BuildStep::Finished && final(self)@ == old(self)@,
            old(self)@.queue.len() > 0 ==> final(self)@.queue == old(self)@.queue.drop_first(),
            old(self)@.queue.len() > 0 ==> final(self).remaining_work() < old(self).remaining_work(),
            old(self)@.queue.len() > 0 && old(self)@.queue[0] is None ==> {
                &&& res == BuildStep::Skipped
                &&& final(self)@.bounds == old(self)@.bounds
                &&& final(self)@.awaiting is None
            },
            old(self)@.queue.len() > 0 ==> (old(self)@.queue[0] matches Some(e) ==> {
                let i = old(self)@.bounds.len() as usize;
                &&& appended(old(self)@.bounds, e, final(self)@.bounds)
                &&& is_leaf(e, old(self)@.max_depth) ==> res == BuildStep::Leaf(i) && final(self)@.awaiting is None
                &&& !is_leaf(e, old(self)@.max_depth) ==> res == BuildStep::Split(i) && final(self)@.awaiting
                    == Some(i)
                &&& (e.depth >= old(self)@.max_depth || e.tris@.len() == 1) ==> res == BuildStep::Leaf(i)
                &&& (e.depth < old(self)@.max_depth && e.tris@.len() != 1) ==> res == BuildStep::Split(i)
            }),
    {
        let ghost b = self.bounds@;
        let ghost q = self.queue@;
        match self.queue.pop_front() {
            None => BuildStep::Finished,
            Some(None) => {
                proof {
                    pop_none_ok(b, q, self.tri_count, self.max_depth, self.exact@);
                    extra_pop_none(b, q, self.tri_count, self.max_depth, self.exact@, self.covering@);
                    order_pop_none(b, q, self.max_depth, self.splits@);
                }
                BuildStep::Skipped
            },
            Some(Some(bound)) => {
                let ghost e = bound;
                let parent_index = bound.parent_index;
                let leaf = is_leaf_bound(&bound, self.max_depth);
                self.bounds.push(bound);
                let cur_i = self.bounds.len() - 1;
                if self.bounds.len() != 1 {
                    proof {
                        assert(entry_ok(b, e, self.max_depth));
                    }
                    self.bounds[parent_index].children.push(cur_i);
                }
                proof {
                    assert(appended(b, e, self.bounds@));
                    pop_some_ok(b, q, self.tri_count, self.max_depth, self.exact@, e, self.bounds@);
                    extra_pop_some(b, q, self.tri_count, self.max_depth, self.exact@, self.covering@, e, self.bounds@);
                    order_pop_some(b, q, self.tri_count, self.max_depth, self.exact@, self.splits@, e, self.bounds@);
                    if b.len() == 0 {
                        assert(root_entry(e, self.tri_count));
                    } else {
                        assert(entry_ok(b, e, self.max_depth));
                        assert(node_ok(b, e.parent_index as int, self.tri_count, self.max_depth));
                    }
                    assert(e.depth <= self.max_depth);
                    pow4_positive((self.max_depth - e.depth) as nat);
                    assert(pow4((self.max_depth - e.depth + 1) as nat) == 4 * pow4((self.max_depth - e.depth) as nat));
                }
                if leaf {
                    BuildStep::Leaf(cur_i)
                } else {
                    self.awaiting = Some(cur_i);
                    BuildStep::Split(cur_i)
                }
            },
        }
    }
}

/// A split position to try, along axis 0 (x), 1 (y) or 2 (z): the middle of
/// the bound's box, or the centre of one of its triangles.
#[derive(Debug, Clone, Copy, PartialEq, Eq, Structural)]
pub enum SplitCandidate {
    Midpoint(u8),
    TriCenter(u8, usize),
}

/// The number of split positions tried per axis.
pub const CANDIDATES_PER_AXIS: usize = 11;

/// `c` are split positions to try for a bound holding the triangles `tris`:
/// per axis, first the middle of the bound's box, then the centres of ten of
/// its triangles.
pub open spec fn split_candidates_for(tris: Seq<usize>, c: Seq<SplitCandidate>) -> bool {
    &&& c.len() == 3 * CANDIDATES_PER_AXIS
    &&& forall|k: int|
        0 <= k < c.len() ==> {
            let axis = (k / CANDIDATES_PER_AXIS as int) as u8;
            if k % CANDIDATES_PER_AXIS as int == 0 {
                #[trigger] c[k] == SplitCandidate::Midpoint(axis)
            } else {
                c[k] matches SplitCandidate::TriCenter(a, t) && a == axis && tris.contains(t)
            }
        }
}

/// Calls `rand::Rng::gen_range(0..n)` on `rand::thread_rng()`. The crate
/// documents that the value drawn lies in the range and that an empty range
/// panics; which value is drawn is left open.
#[verifier::external_body]
fn random_index(n: usize) -> (res: usize)
    requires
        n > 0,
    ensures
        res < n,
{
    rand::thread_rng().gen_range(0..n)
}

impl BvhBuilder {
    /// The bounds made so far.
    pub fn bounds(&self) -> (res: &Vec<BoundNode>)
        ensures
            res@ == self@.bounds,
    {
        &self.bounds
    }

    /// The bound waiting to be split, if any.
    pub fn awaiting(&self) -> (res: Option<usize>)
        ensures
            res == self@.awaiting,
    {
        self.awaiting
    }

    /// Whether the queue is empty and no bound waits to be split.
    pub fn is_finished(&self) -> (res: bool)
        ensures
            res == (self@.queue.len() == 0 && self@.awaiting is None),
    {
        self.queue.len() == 0 && self.awaiting.is_none()
    }

    /// Gives up the builder for its bounds.
    pub fn into_bounds(self) -> (res: Vec<BoundNode>)
        ensures
            res@ == self@.bounds,
    {
        self.bounds
    }

    /// The split positions to try for the bound waiting to be split: per
    /// axis, first the middle of its box, then the centres of ten of its
    /// triangles drawn at random.
    pub fn split_candidates(&self) -> (res: Vec<SplitCandidate>)
        requires
            self.wf(),
            self@.awaiting is Some,
        ensures
            split_candidates_for(self@.bounds[self@.awaiting->0 as int].tris@, res@),
    {
        let i = match self.awaiting {
            Some(i) => i,
            None => 0,
        };
        proof {
            assert(node_ok(self@.bounds, i as int, self@.tri_count, self@.max_depth));
        }
        let tris = &self.bounds[i].tris;
        let mut out: Vec<SplitCandidate> = Vec::new();
        let mut axis: u8 = 0;
        while axis < 3
            invariant
                axis <= 3,
                tris@ == self@.bounds[i as int].tris@,
                tris@.len() > 0,
                out@.len() == axis * CANDIDATES_PER_AXIS,
                forall|k: int|
                    0 <= k < out@.len() ==> {
                        let ax = (k / CANDIDATES_PER_AXIS as int) as u8;
                        if k % CANDIDATES_PER_AXIS as int == 0 {
                            #[trigger] out@[k] == SplitCandidate::Midpoint(ax)
                        } else {
                            out@[k] matches SplitCandidate::TriCenter(a, t) && a == ax && tris@.contains(t)
                        }
                    },
            decreases 3 - axis,
        {
            let mut test: usize = 0;
            while test < CANDIDATES_PER_AXIS
                invariant
                    axis < 3,
                    test <= CANDIDATES_PER_AXIS,
                    tris@.len() > 0,
                    out@.len() == axis * CANDIDATES_PER_AXIS + test,
                    forall|k: int|
                        0 <= k < out@.len() ==> {
                            let ax = (k / CANDIDATES_PER_AXIS as int) as u8;
                            if k % CANDIDATES_PER_AXIS as int == 0 {
                                #[trigger] out@[k] == SplitCandidate::Midpoint(ax)
                            } else {
                                out@[k] matches SplitCandidate::TriCenter(a, t) && a == ax && tris@.contains(t)
                            }
                        },
                decreases CANDIDATES_PER_AXIS - test,
            {
                let c = if test == 0 {
                    SplitCandidate::Midpoint(axis)
                } else {
                    let t = tris[random_index(tris.len())];
                    SplitCandidate::TriCenter(axis, t)
                };
                out.push(c);
                proof {
                    let k = out@.len() - 1;
                    assert(k / CANDIDATES_PER_AXIS as int == axis as int && k % CANDIDATES_PER_AXIS as int
                        == test as int) by (nonlinear_arith)
                        requires
                            k == axis * CANDIDATES_PER_AXIS + test,
                            test < CANDIDATES_PER_AXIS,
                            CANDIDATES_PER_AXIS == 11,
                    ;
                }
                test = test + 1;
            }
            axis = axis + 1;
        }
        out
    }

    /// Splits the bound waiting to be split: the triangles flagged in `left`
    /// and those flagged in `right` (by position in the bound's list) become
    /// two new bounds one level down, queued in that order; a side with no
    /// triangle is queued as empty.
    pub fn split(&mut self, left: &Vec<bool>, right: &Vec<bool>)
        requires
            old(self).wf(),
            old(self)@.awaiting is Some,
            left@.len() == old(self)@.bounds[old(self)@.awaiting->0 as int].tris@.len(),
            right@.len() == old(self)@.bounds[old(self)@.awaiting->0 as int].tris@.len(),
        ensures
            final(self).wf(),
            ({
                let i = old(self)@.awaiting->0;
                let node = old(self)@.bounds[i as int];
                let q = old(self)@.queue;
                &&& final(self)@.queue.len() == q.len() + 2
                &&& final(self)@.queue.take(q.len() as int) == q
                &&& bound_of(final(self)@.queue[q.len() as int], node.tris@, left@, i, (node.depth + 1) as usize)
                &&& bound_of(final(self)@.queue[q.len() as int + 1], node.tris@, right@, i, (node.depth + 1) as usize)
                &&& final(self)@.exact == (old(self)@.exact && complementary(left@, right@, node.tris@.len()))
                &&& final(self)@.covering == (old(self)@.covering && covers(left@, right@, node.tris@.len()))
                &&& final(self)@.splits == old(self)@.splits.insert(i, (left@, right@))
            }),
            final(self)@.bounds == old(self)@.bounds,
            final(self)@.awaiting is None,
            final(self)@.tri_count == old(self)@.tri_count,
            final(self)@.max_depth == old(self)@.max_depth,
            final(self).remaining_work() < old(self).remaining_work(),
    {
        let ghost b = self.bounds@;
        let ghost q = self.queue@;
        let i = match self.awaiting {
            Some(i) => i,
            None => 0,
        };
        proof {
            assert(node_ok(b, i as int, self.tri_count, self.max_depth));
        }
        let depth = self.bounds[i].depth + 1;
        let b1 = make_bound(&self.bounds[i].tris, left, i, depth);
        let b2 = make_bound(&self.bounds[i].tris, right, i, depth);
        proof {
            split_ok(b, q, self.tri_count, self.max_depth, self.exact@, i, left@, right@, b1, b2);
            extra_split(b, q, self.tri_count, self.max_depth, self.exact@, self.covering@, i, left@, right@, b1, b2);
            order_split(b, q, self.tri_count, self.max_depth, self.exact@, self.splits@, i, left@, right@, b1, b2);
        }
        self.queue.push_back(b1);
        self.queue.push_back(b2);
        self.awaiting = None;
        let ghost ex = self.exact@ && complementary(left@, right@, b[i as int].tris@.len());
        self.exact = Ghost(ex);
        let ghost cov = self.covering@ && covers(left@, right@, b[i as int].tris@.len());
        self.covering = Ghost(cov);
        let ghost sp = self.splits@.insert(i, (left@, right@));
        self.splits = Ghost(sp);
        proof {
            assert(self.queue@ == q.push(b1).push(b2));
            assert(self.queue@.take(q.len() as int) =~= q);
            let m = self.max_depth;
            let d = b[i as int].depth;
            queue_weight_push(q, b1, m);
            queue_weight_push(q.push(b1), b2, m);
            pow4_positive((m - d) as nat);
            assert(d < m);
            assert(entry_weight(b1, m) <= pow4((m - d) as nat));
            assert(entry_weight(b2, m) <= pow4((m - d) as nat));
        }
    }
}

/// At every stage of the construction the bounds form a hierarchy: the root
/// holds every triangle, each other bound holds part of its parent's
/// triangles one level below it and is among its parent's children, no bound
/// is deeper than the depth limit, and a bound has at most two children and
/// none if it is a leaf.
pub proof fn bvh_is_tree(builder: &BvhBuilder)
    requires
        builder.wf(),
    ensures
        tree_ok(builder@.bounds, builder@.tri_count, builder@.max_depth),
{
}

/// Once the construction is finished, if every split sent each triangle to
/// exactly one side, every triangle of the mesh lies in exactly one leaf.
pub proof fn bvh_leaves_partition(builder: &BvhBuilder)
    requires
        builder.wf(),
        builder@.queue.len() == 0,
        builder@.awaiting is None,
        builder@.exact,
    ensures
        leaf_bag(builder@.bounds, builder@.max_depth) =~= all_tris(builder@.tri_count).to_multiset(),
        leaf_bag(builder@.bounds, builder@.max_depth).len() == builder@.tri_count,
{
    let b = builder@.bounds;
    let q = builder@.queue;
    assert(queue_bag(q) =~= Multiset::empty());
    assert(awaiting_bag(b, None) =~= Multiset::empty());
    assert(leaf_bag(b, builder@.max_depth).add(queue_bag(q)).add(awaiting_bag(b, None)) =~= leaf_bag(
        b,
        builder@.max_depth,
    ));
    assert(all_tris(builder@.tri_count).len() == builder@.tri_count);
}


/// Once the construction is finished, if every split sent each triangle to
/// at least one side (exactly one side, or both where no split position was
/// found), every bound that is not a leaf has a child: a search down the
/// hierarchy always ends in leaves. (It may have a single child: where all
/// triangles fall on one side, the other side is empty.)
pub proof fn bvh_inner_bounds_have_children(builder: &BvhBuilder)
    requires
        builder.wf(),
        builder@.queue.len() == 0,
        builder@.awaiting is None,
        builder@.covering,
    ensures
        forall|i: int|
            0 <= i < builder@.bounds.len() && !is_leaf(#[trigger] builder@.bounds[i], builder@.max_depth)
                ==> 1 <= builder@.bounds[i].children@.len() <= 2,
{
    let b = builder@.bounds;
    let q = builder@.queue;
    assert forall|i: int| 0 <= i < b.len() && !is_leaf(#[trigger] b[i], builder@.max_depth) implies 1
        <= b[i].children@.len() <= 2 by {
        assert(pending(q, i as usize) == 0);
        assert(node_ok(b, i, builder@.tri_count, builder@.max_depth));
    }
}

/// Once the construction is finished, if every split sent each triangle to
/// exactly one side, the children of every bound that is not a leaf together
/// hold its triangles, each exactly once.
pub proof fn bvh_children_partition(builder: &BvhBuilder)
    requires
        builder.wf(),
        builder@.queue.len() == 0,
        builder@.awaiting is None,
        builder@.exact,
    ensures
        forall|i: int|
            0 <= i < builder@.bounds.len() && !is_leaf(#[trigger] builder@.bounds[i], builder@.max_depth)
                ==> children_bag(builder@.bounds, builder@.bounds[i].children@)
                =~= builder@.bounds[i].tris@.to_multiset(),
{
    let b = builder@.bounds;
    let q = builder@.queue;
    assert forall|i: int| 0 <= i < b.len() && !is_leaf(#[trigger] b[i], builder@.max_depth) implies children_bag(
        b,
        b[i].children@,
    ) =~= b[i].tris@.to_multiset() by {
        assert(pending_bag(q, i as usize) =~= Multiset::empty());
    }
}

/// At every stage of the construction there are at most `2^(m + 1) - 1`
/// bounds for depth limit `m`: a bound has at most two children and none is
/// deeper than the limit.
pub proof fn bvh_bound_count(builder: &BvhBuilder)
    requires
        builder.wf(),
    ensures
        builder@.bounds.len() <= pow2((builder@.max_depth + 1) as nat) - 1,
{
    let b = builder@.bounds;
    let q = builder@.queue;
    let m = builder@.max_depth;
    queue_cap_nonnegative(q, m, b, builder@.tri_count);
    if let Some(i) = builder@.awaiting {
        assert(node_ok(b, i as int, builder@.tri_count, m));
        let k = (m - b[i as int].depth) as nat;
        lemma_pow2_pos(k);
        lemma_pow2_unfold(k + 1);
        assert((m - b[i as int].depth + 1) as nat == k + 1);
    }
}

/// At every stage of a construction whose splits all sent each triangle to
/// exactly one side, there are at most `(m + 1) * n` bounds for depth limit
/// `m` and `n` triangles: the bounds at one depth hold disjoint, non-empty
/// sets of triangles.
pub proof fn bvh_bound_count_exact(builder: &BvhBuilder)
    requires
        builder.wf(),
        builder@.exact,
    ensures
        builder@.bounds.len() <= (builder@.max_depth + 1) * builder@.tri_count,
{
    let b = builder@.bounds;
    let q = builder@.queue;
    let m = builder@.max_depth;
    queue_cap_nonnegative(q, m, b, builder@.tri_count);
    if let Some(i) = builder@.awaiting {
        assert(node_ok(b, i as int, builder@.tri_count, m));
        let d = b[i as int].depth;
        let t = b[i as int].tris@.len();
        assert((m - d + 1) * t >= 1) by (nonlinear_arith)
            requires
                d <= m,
                t >= 1,
        ;
    }
}

/// Queued bounds can give rise to no negative number of bounds.
proof fn queue_cap_nonnegative(q: Seq<Option<BoundNode>>, m: usize, b: Seq<BoundNode>, n: usize)
    requires
        b.len() > 0 ==> forall|j: int| 0 <= j < q.len() ==> (#[trigger] q[j] matches Some(e) ==> entry_ok(b, e, m)),
        b.len() == 0 ==> forall|j: int| 0 <= j < q.len() ==> (#[trigger] q[j] matches Some(e) ==> root_entry(e, n)),
        tree_ok(b, n, m),
    ensures
        queue_cap(q, m) >= 0,
        queue_tri_cap(q, m) >= 0,
    decreases q.len(),
{
    if q.len() > 0 {
        let rest = q.drop_first();
        assert forall|j: int| 0 <= j < rest.len() implies #[trigger] rest[j] == q[j + 1] by {}
        queue_cap_nonnegative(rest, m, b, n);
        if let Some(e) = q[0] {
            if b.len() > 0 {
                assert(entry_ok(b, e, m));
                assert(node_ok(b, e.parent_index as int, n, m));
            } else {
                assert(root_entry(e, n));
            }
            lemma_pow2_pos((m - e.depth + 1) as nat);
            assert((m - e.depth + 1) * e.tris@.len() >= 0) by (nonlinear_arith)
                requires
                    e.depth <= m,
            ;
        }
    }
}


/// Once the construction is finished, every bound that is not a leaf was
/// split, and its children hold, in order, the non-empty parts of that
/// split: first the triangles its left flags selected, then those its right
/// flags selected.
pub proof fn bvh_children_in_order(builder: &BvhBuilder)
    requires
        builder.wf(),
        builder@.queue.len() == 0,
        builder@.awaiting is None,
    ensures
        forall|i: int|
            0 <= i < builder@.bounds.len() && !is_leaf(#[trigger] builder@.bounds[i], builder@.max_depth) ==> {
                let s = builder@.splits[i as usize];
                &&& builder@.splits.dom().contains(i as usize)
                &&& s.0.len() == builder@.bounds[i].tris@.len()
                &&& s.1.len() == builder@.bounds[i].tris@.len()
                &&& child_tris(builder@.bounds, builder@.bounds[i].children@) == side_parts(
                    builder@.bounds[i].tris@,
                    s.0,
                    s.1,
                )
            },
{
    let b = builder@.bounds;
    let q = builder@.queue;
    assert forall|i: int| 0 <= i < b.len() && !is_leaf(#[trigger] b[i], builder@.max_depth) implies child_tris(
        b,
        b[i].children@,
    ) == side_parts(b[i].tris@, builder@.splits[i as usize].0, builder@.splits[i as usize].1) by {
        assert(pending_tris(q, i as usize) =~= Seq::<Seq<usize>>::empty());
        assert(child_tris(b, b[i].children@) + pending_tris(q, i as usize) =~= child_tris(b, b[i].children@));
    }
}

/// Every answer of `split_flags` sends each triangle to exactly one side.
pub open spec fn answers_exact<F>(split_flags: F) -> bool where
    F: Fn(&Vec<usize>, &Vec<SplitCandidate>) -> (Vec<bool>, Vec<bool>),
 {
    forall|t: &Vec<usize>, c: &Vec<SplitCandidate>, f: (Vec<bool>, Vec<bool>)|
        #[trigger] split_flags.ensures((t, c), f) ==> complementary(f.0@, f.1@, t@.len())
}

/// Every answer of `split_flags` sends each triangle to at least one side.
pub open spec fn answers_cover<F>(split_flags: F) -> bool where
    F: Fn(&Vec<usize>, &Vec<SplitCandidate>) -> (Vec<bool>, Vec<bool>),
 {
    forall|t: &Vec<usize>, c: &Vec<SplitCandidate>, f: (Vec<bool>, Vec<bool>)|
        #[trigger] split_flags.ensures((t, c), f) ==> covers(f.0@, f.1@, t@.len())
}

/// The flags `flags` are an answer of `split_flags` for a bound holding the
/// triangles `tris`, given that bound's triangles and split positions to try.
pub open spec fn answered<F>(split_flags: F, tris: Seq<usize>, flags: (Seq<bool>, Seq<bool>)) -> bool where
    F: Fn(&Vec<usize>, &Vec<SplitCandidate>) -> (Vec<bool>, Vec<bool>),
 {
    exists|t: &Vec<usize>, c: &Vec<SplitCandidate>, f: (Vec<bool>, Vec<bool>)|
        #[trigger] split_flags.ensures((t, c), f) && t@ == tris && split_candidates_for(tris, c@) && f.0@ == flags.0
            && f.1@ == flags.1
}

/// Builds the whole hierarchy over the triangles `0..tri_count`, breadth
/// first: `split_flags` is given the triangles of each bound to be split and
/// the split positions to try, and answers, for each of those triangles,
/// whether it goes to the left and whether it goes to the right part.
///
/// Where there are triangles, the first bound is the root over all of them.
/// Every bound that is not a leaf was split by an answer of `split_flags`
/// for its triangles, and its children are the non-empty parts of that
/// answer, left first. Where every answer sends each triangle to at least
/// one side, exactly the bounds that are not leaves have children; where
/// every answer sends each triangle to exactly one side, the children of a
/// bound partition its triangles, the leaves partition all triangles, and
/// there are at most `(max_depth + 1) * tri_count` bounds.
pub fn build_bvh<F>(tri_count: usize, max_depth: usize, split_flags: F) -> (res: BvhBuilder) where
    F: Fn(&Vec<usize>, &Vec<SplitCandidate>) -> (Vec<bool>, Vec<bool>),

    requires
        forall|tris: &Vec<usize>, candidates: &Vec<SplitCandidate>| #[trigger]
            split_flags.requires((tris, candidates)),
        forall|tris: &Vec<usize>, candidates: &Vec<SplitCandidate>, flags: (Vec<bool>, Vec<bool>)|
            #[trigger] split_flags.ensures((tris, candidates), flags) ==> flags.0@.len() == tris@.len()
                && flags.1@.len() == tris@.len(),
    ensures
        res.wf(),
        res@.queue.len() == 0,
        res@.awaiting is None,
        res@.tri_count == tri_count,
        res@.max_depth == max_depth,
        tree_ok(res@.bounds, tri_count, max_depth),
        tri_count == 0 ==> res@.bounds.len() == 0,
        tri_count > 0 ==> {
            &&& res@.bounds.len() >= 1
            &&& res@.bounds[0].tris@ == all_tris(tri_count)
            &&& res@.bounds[0].depth == 0
            &&& res@.bounds[0].parent_index == 0
        },
        max_depth == 0 ==> res@.bounds.len() <= 1,
        res@.bounds.len() <= pow2((max_depth + 1) as nat) - 1,
        forall|i: int|
            0 <= i < res@.bounds.len() && !is_leaf(#[trigger] res@.bounds[i], max_depth) ==> {
                let s = res@.splits[i as usize];
                &&& res@.splits.dom().contains(i as usize)
                &&& answered(split_flags, res@.bounds[i].tris@, s)
                &&& child_tris(res@.bounds, res@.bounds[i].children@) == side_parts(res@.bounds[i].tris@, s.0, s.1)
            },
        answers_exact(split_flags) ==> res@.exact,
        answers_cover(split_flags) ==> res@.covering,
        res@.covering ==> forall|i: int|
            0 <= i < res@.bounds.len() ==> (#[trigger] res@.bounds[i].children@.len() > 0 <==> !is_leaf(
                res@.bounds[i],
                max_depth,
            )),
        res@.exact ==> res@.bounds.len() <= (max_depth + 1) * tri_count,
        res@.exact ==> leaf_bag(res@.bounds, max_depth) =~= all_tris(tri_count).to_multiset(),
        res@.exact ==> forall|i: int|
            0 <= i < res@.bounds.len() && !is_leaf(#[trigger] res@.bounds[i], max_depth) ==> children_bag(
                res@.bounds,
                res@.bounds[i].children@,
            ) =~= res@.bounds[i].tris@.to_multiset(),
{
    let mut builder = BvhBuilder::new(tri_count, max_depth);
    loop
        invariant
            builder.wf(),
            builder@.awaiting is None,
            builder@.tri_count == tri_count,
            builder@.max_depth == max_depth,
            forall|tris: &Vec<usize>, candidates: &Vec<SplitCandidate>| #[trigger]
                split_flags.requires((tris, candidates)),
            forall|tris: &Vec<usize>, candidates: &Vec<SplitCandidate>, flags: (Vec<bool>, Vec<bool>)|
                #[trigger] split_flags.ensures((tris, candidates), flags) ==> flags.0@.len() == tris@.len()
                    && flags.1@.len() == tris@.len(),
            answers_exact(split_flags) ==> builder@.exact,
            answers_cover(split_flags) ==> builder@.covering,
            forall|k: usize|
                #[trigger] builder@.splits.dom().contains(k) ==> k < builder@.bounds.len() && answered(
                    split_flags,
                    builder@.bounds[k as int].tris@,
                    builder@.splits[k],
                ),
        ensures
            builder.wf(),
            builder@.queue.len() == 0,
            builder@.awaiting is None,
            builder@.tri_count == tri_count,
            builder@.max_depth == max_depth,
            answers_exact(split_flags) ==> builder@.exact,
            answers_cover(split_flags) ==> builder@.covering,
            forall|k: usize|
                #[trigger] builder@.splits.dom().contains(k) ==> k < builder@.bounds.len() && answered(
                    split_flags,
                    builder@.bounds[k as int].tris@,
                    builder@.splits[k],
                ),
        decreases builder.remaining_work(),
    {
        let ghost b0 = builder@.bounds;
        let ghost q0 = builder@.queue;
        let step = builder.next_step();
        proof {
            if q0.len() > 0 {
                if let Some(e) = q0[0] {
                    let b1 = builder@.bounds;
                    assert(appended(b0, e, b1));
                    assert forall|k: int| 0 <= k < b0.len() implies (#[trigger] b1[k]).tris@ == b0[k].tris@ by {
                        if k != e.parent_index as int {
                            assert(b1[k] == b0[k]);
                        }
                    }
                }
            }
            assert forall|k: usize| #[trigger] builder@.splits.dom().contains(k) implies k < builder@.bounds.len()
                && answered(split_flags, builder@.bounds[k as int].tris@, builder@.splits[k]) by {
                assert(builder@.bounds[k as int].tris@ == b0[k as int].tris@);
            }
        }
        match step {
            BuildStep::Finished => {
                break;
            },
            BuildStep::Split(i) => {
                let candidates = builder.split_candidates();
                let tris = &builder.bounds()[i].tris;
                let flags = split_flags(tris, &candidates);
                proof {
                    assert(split_flags.ensures((tris, &candidates), flags));
                    assert(answered(split_flags, tris@, (flags.0@, flags.1@)));
                }
                let ghost s0 = builder@.splits;
                builder.split(&flags.0, &flags.1);
                proof {
                    assert forall|k: usize| #[trigger] builder@.splits.dom().contains(k) implies k
                        < builder@.bounds.len() && answered(
                        split_flags,
                        builder@.bounds[k as int].tris@,
                        builder@.splits[k],
                    ) by {
                        if k != i {
                            assert(s0.dom().contains(k));
                            assert(builder@.splits[k] == s0[k]);
                        }
                    }
                }
            },
            _ => {},
        }
    }
    proof {
        let b = builder@.bounds;
        bvh_bound_count(&builder);
        bvh_children_in_order(&builder);
        if tri_count == 0 && b.len() > 0 {
            assert(node_ok(b, 0, tri_count, max_depth));
            assert(all_tris(tri_count).len() == 0);
        }
        if tri_count > 0 {
            assert(b.len() > 0);
            assert(node_ok(b, 0, tri_count, max_depth));
        }
        if max_depth == 0 && b.len() > 1 {
            assert(node_ok(b, 1, tri_count, max_depth));
        }
        if builder@.covering {
            bvh_inner_bounds_have_children(&builder);
            assert forall|i: int| 0 <= i < b.len() implies (#[trigger] b[i].children@.len() > 0 <==> !is_leaf(
                b[i],
                max_depth,
            )) by {
                assert(node_ok(b, i, tri_count, max_depth));
            }
        }
        if builder@.exact {
            bvh_bound_count_exact(&builder);
            bvh_leaves_partition(&builder);
            bvh_children_partition(&builder);
        }
    }
    builder
}

} // verus!
