//! The k-dimensional tree itself: an arena of nodes linked by indices, the
//! recursive builder over the sliding-midpoint partitioner, incremental
//! insertion with duplicate suppression and an automatic rebuild heuristic,
//! and the branch-and-bound query algorithms.

use vstd::prelude::*;
use vstd::multiset::Multiset;
use vstd::pervasive::VecAdditionalExecFns;
use vstd::set_lib::set_int_range;
use crate::bounds::Bounds;
use crate::bounds::spread;
use crate::distance::COORD_LIMIT;
use crate::distance::DistanceMetric;
use crate::distance::MAX_SQUARED_DIFF;
use crate::distance::within_limit;
use crate::distance::coords_in_range;
use crate::distance::lemma_sqdist_dim_bound;
use crate::distance::lemma_sqdist_prefix_nonneg;
use crate::distance::lemma_sqdist_self;
use crate::distance::lemma_sqdist_zero;
use crate::distance::sqdist;
use crate::distance::squared_euclidean;
use crate::partition::partition_sliding_midpoint;

verus! {

broadcast use {vstd::multiset::group_multiset_axioms, vstd::seq_lib::group_to_multiset_ensures};

/// Capability interface every stored point must provide: a fixed-length
/// integer coordinate vector, value equality, and cheap duplication.
pub trait KdtreePointTrait: Sized + Copy {
    /// The coordinate vector of the point, as mathematics sees it.
    spec fn coords(&self) -> Seq<i64>;

    /// Value equality of two points: coordinates and payload alike.
    spec fn same(&self, other: &Self) -> bool;

    /// Returns the coordinate vector of the point.
    fn dims(&self) -> (r: Vec<i64>)
        ensures
            r@ == self.coords(),
    ;

    /// Decides value equality of two points.
    fn eq_point(&self, other: &Self) -> (b: bool)
        ensures
            b == self.same(other),
    ;
}

/// A point fit for a tree over `k` dimensions: `k` coordinates, all within
/// the range that keeps distance arithmetic exact.
pub open spec fn point_wf<P: KdtreePointTrait>(p: P, k: int) -> bool {
    &&& p.coords().len() == k
    &&& coords_in_range(p.coords())
}

/// One entry of the arena. `split_on` is the threshold on coordinate
/// `dimension`: every point of the left subtree satisfies
/// `coords()[dimension] <= split_on`, every point of the right subtree lies
/// strictly above it. For nodes made by the builder `split_on` is the
/// partition pivot (not necessarily the node's own coordinate); for nodes
/// made by insertion it is the new point's own coordinate.
#[derive(Clone, Copy)]
pub struct KdtreeNode<T> {
    pub(crate) left_node: Option<usize>,
    pub(crate) right_node: Option<usize>,
    pub(crate) point: T,
    pub(crate) dimension: usize,
    pub(crate) split_on: i64,
}

impl<T: KdtreePointTrait> KdtreeNode<T> {
    fn new(p: T, splitting_dimension: usize, split_on_value: i64) -> (n: KdtreeNode<T>)
        ensures
            n.left_node is None,
            n.right_node is None,
            n.point == p,
            n.dimension == splitting_dimension,
            n.split_on == split_on_value,
    {
        KdtreeNode {
            left_node: None,
            right_node: None,
            point: p,
            dimension: splitting_dimension,
            split_on: split_on_value,
        }
    }
}

/// Reads one coordinate of a point.
pub(crate) fn coord_at<T: KdtreePointTrait>(p: &T, d: usize) -> (c: i64)
    requires
        d < p.coords().len(),
    ensures
        c == p.coords()[d as int],
{
    let v = p.dims();
    v[d]
}

/// Child links of node `i` point strictly forward in the arena and stay
/// within it. Every node is appended before its later-attached children, so
/// this holds of the whole arena and makes all recursions over subtrees
/// terminate.
pub(crate) open spec fn node_links_ok<P: KdtreePointTrait>(
    ns: Seq<KdtreeNode<P>>,
    i: int,
) -> bool {
    &&& (ns[i].left_node is Some ==> i < ns[i].left_node.unwrap() < ns.len())
    &&& (ns[i].right_node is Some ==> i < ns[i].right_node.unwrap() < ns.len())
}

pub(crate) open spec fn child_links_ok<P: KdtreePointTrait>(ns: Seq<KdtreeNode<P>>) -> bool {
    forall|i: int| 0 <= i < ns.len() ==> #[trigger] node_links_ok(ns, i)
}

/// The multiset of points stored in the subtree rooted at arena slot `i`.
pub(crate) open spec fn subtree_points_ms<P: KdtreePointTrait>(
    ns: Seq<KdtreeNode<P>>,
    i: int,
) -> Multiset<P>
    decreases ns.len() - i,
{
    if !(0 <= i < ns.len()) {
        Multiset::empty()
    } else {
        let lm = match ns[i].left_node {
            Some(l) => if i < l < ns.len() { subtree_points_ms(ns, l as int) } else { Multiset::empty() },
            None => Multiset::empty(),
        };
        let rm = match ns[i].right_node {
            Some(r) => if i < r < ns.len() { subtree_points_ms(ns, r as int) } else { Multiset::empty() },
            None => Multiset::empty(),
        };
        lm.add(rm).insert(ns[i].point)
    }
}

/// The points of the subtree rooted at slot `i`, in pre-order: the node's
/// own point, then the left subtree, then the right subtree.
pub(crate) open spec fn preorder_points<P: KdtreePointTrait>(
    ns: Seq<KdtreeNode<P>>,
    i: int,
) -> Seq<P>
    decreases ns.len() - i,
{
    if !(0 <= i < ns.len()) {
        Seq::empty()
    } else {
        let ls = match ns[i].left_node {
            Some(l) => if i < l < ns.len() { preorder_points(ns, l as int) } else { Seq::empty() },
            None => Seq::empty(),
        };
        let rs = match ns[i].right_node {
            Some(r) => if i < r < ns.len() { preorder_points(ns, r as int) } else { Seq::empty() },
            None => Seq::empty(),
        };
        seq![ns[i].point] + ls + rs
    }
}

/// The pre-order sequence of a subtree carries exactly the subtree's
/// multiset of points.
pub(crate) proof fn lemma_preorder_ms<P: KdtreePointTrait>(ns: Seq<KdtreeNode<P>>, i: int)
    requires
        0 <= i < ns.len(),
    ensures
        preorder_points(ns, i).to_multiset() == subtree_points_ms(ns, i),
        preorder_points(ns, i).len() == subtree_points_ms(ns, i).len(),
        preorder_points(ns, i)[0] == ns[i].point,
    decreases ns.len() - i,
{
    broadcast use vstd::seq_lib::lemma_multiset_commutative;

    let ls = match ns[i].left_node {
        Some(l) => if i < l < ns.len() { preorder_points(ns, l as int) } else { Seq::empty() },
        None => Seq::empty(),
    };
    let rs = match ns[i].right_node {
        Some(r) => if i < r < ns.len() { preorder_points(ns, r as int) } else { Seq::empty() },
        None => Seq::empty(),
    };
    if ns[i].left_node is Some {
        let l = ns[i].left_node.unwrap() as int;
        if i < l < ns.len() {
            lemma_preorder_ms(ns, l);
        }
    }
    if ns[i].right_node is Some {
        let r = ns[i].right_node.unwrap() as int;
        if i < r < ns.len() {
            lemma_preorder_ms(ns, r);
        }
    }
    assert(Seq::<P>::empty().to_multiset() =~= Multiset::<P>::empty());
    assert(preorder_points(ns, i) == seq![ns[i].point] + (ls + rs));
    assert(seq![ns[i].point] =~= Seq::empty().push(ns[i].point));
    assert(seq![ns[i].point].to_multiset() =~= Multiset::empty().insert(ns[i].point));
    assert(preorder_points(ns, i).to_multiset() =~= subtree_points_ms(ns, i));
    assert((seq![ns[i].point] + (ls + rs))[0] == ns[i].point);
}

/// The set of arena indices belonging to the subtree rooted at slot `i`.
pub(crate) open spec fn subtree_idx<P: KdtreePointTrait>(
    ns: Seq<KdtreeNode<P>>,
    i: int,
) -> Set<int>
    decreases ns.len() - i,
{
    if !(0 <= i < ns.len()) {
        Set::empty()
    } else {
        let ls = match ns[i].left_node {
            Some(l) => if i < l < ns.len() { subtree_idx(ns, l as int) } else { Set::empty() },
            None => Set::empty(),
        };
        let rs = match ns[i].right_node {
            Some(r) => if i < r < ns.len() { subtree_idx(ns, r as int) } else { Set::empty() },
            None => Set::empty(),
        };
        ls.union(rs).insert(i)
    }
}

/// The slot where the insertion walk for point `p` ends: descend from `i`,
/// comparing `p`'s coordinate on each node's splitting dimension against
/// its splitting value (`<=` goes left), until the walked side is empty.
pub(crate) open spec fn insertion_target<P: KdtreePointTrait>(
    ns: Seq<KdtreeNode<P>>,
    i: int,
    p: P,
) -> int
    decreases ns.len() - i,
{
    if !(0 <= i < ns.len()) {
        i
    } else {
        let child = if p.coords()[ns[i].dimension as int] <= ns[i].split_on {
            ns[i].left_node
        } else {
            ns[i].right_node
        };
        match child {
            Some(c) => if i < c < ns.len() { insertion_target(ns, c as int, p) } else { i },
            None => i,
        }
    }
}

/// The number of nodes the insertion walk for `p` visits from slot `i`.
pub(crate) open spec fn walk_depth<P: KdtreePointTrait>(ns: Seq<KdtreeNode<P>>, i: int, p: P) -> int
    decreases ns.len() - i,
{
    if !(0 <= i < ns.len()) {
        0
    } else {
        let child = if p.coords()[ns[i].dimension as int] <= ns[i].split_on {
            ns[i].left_node
        } else {
            ns[i].right_node
        };
        match child {
            Some(c) => if i < c < ns.len() { 1 + walk_depth(ns, c as int, p) } else { 1 },
            None => 1,
        }
    }
}

/// The depth of the subtree rooted at slot `i`; a single node has depth 1.
pub(crate) open spec fn subtree_depth<P: KdtreePointTrait>(ns: Seq<KdtreeNode<P>>, i: int) -> int
    decreases ns.len() - i,
{
    if !(0 <= i < ns.len()) {
        0
    } else {
        let ld = match ns[i].left_node {
            Some(l) => if i < l < ns.len() { subtree_depth(ns, l as int) } else { 0 },
            None => 0,
        };
        let rd = match ns[i].right_node {
            Some(r) => if i < r < ns.len() { subtree_depth(ns, r as int) } else { 0 },
            None => 0,
        };
        1 + if ld >= rd { ld } else { rd }
    }
}

/// The insertion walk stays within the subtree it starts from: it ends at
/// one of the subtree's slots, whose point the subtree holds, and it visits
/// at most one node per slot.
pub(crate) proof fn lemma_walk_props<P: KdtreePointTrait>(ns: Seq<KdtreeNode<P>>, i: int, p: P)
    requires
        child_links_ok(ns),
        0 <= i < ns.len(),
    ensures
        i <= insertion_target(ns, i, p) < ns.len(),
        1 <= walk_depth(ns, i, p) <= ns.len() - i,
        subtree_points_ms(ns, i).contains(ns[insertion_target(ns, i, p)].point),
        subtree_idx(ns, i).contains(insertion_target(ns, i, p)),
    decreases ns.len() - i,
{
    broadcast use vstd::multiset::group_multiset_axioms;

    assert(node_links_ok(ns, i));
    let go_left = p.coords()[ns[i].dimension as int] <= ns[i].split_on;
    let child = if go_left {
        ns[i].left_node
    } else {
        ns[i].right_node
    };
    let lm = match ns[i].left_node {
        Some(l) => if i < l < ns.len() {
            subtree_points_ms(ns, l as int)
        } else {
            Multiset::empty()
        },
        None => Multiset::empty(),
    };
    let rm = match ns[i].right_node {
        Some(r) => if i < r < ns.len() {
            subtree_points_ms(ns, r as int)
        } else {
            Multiset::empty()
        },
        None => Multiset::empty(),
    };
    assert(subtree_points_ms(ns, i) == lm.add(rm).insert(ns[i].point));
    if child is Some && i < child.unwrap() < ns.len() {
        let c = child.unwrap() as int;
        lemma_walk_props(ns, c, p);
        assert(subtree_points_ms(ns, c).contains(ns[insertion_target(ns, c, p)].point));
        assert(subtree_points_ms(ns, i).contains(ns[insertion_target(ns, i, p)].point));
        assert(subtree_idx(ns, c).contains(insertion_target(ns, c, p)));
    }
}

/// The depth of a subtree is positive and bounded by its slot count.
pub(crate) proof fn lemma_subtree_depth_bounds<P: KdtreePointTrait>(ns: Seq<KdtreeNode<P>>, i: int)
    requires
        0 <= i < ns.len(),
    ensures
        1 <= subtree_depth(ns, i) <= ns.len() - i,
    decreases ns.len() - i,
{
    if ns[i].left_node is Some {
        let l = ns[i].left_node.unwrap() as int;
        if i < l < ns.len() {
            lemma_subtree_depth_bounds(ns, l);
        }
    }
    if ns[i].right_node is Some {
        let r = ns[i].right_node.unwrap() as int;
        if i < r < ns.len() {
            lemma_subtree_depth_bounds(ns, r);
        }
    }
}

/// Well-formedness of the subtree rooted at slot `i` of a `k`-dimensional
/// tree: indices in bounds, points and split values in range, the splitting
/// plane separates the two subtrees, and the two subtrees occupy disjoint
/// arena slots.
pub(crate) open spec fn subtree_wf<P: KdtreePointTrait>(
    ns: Seq<KdtreeNode<P>>,
    i: int,
    k: int,
) -> bool
    decreases ns.len() - i,
{
    0 <= i < ns.len() && {
        let nd = ns[i];
        &&& nd.dimension < k
        &&& point_wf(nd.point, k)
        &&& -COORD_LIMIT <= nd.split_on <= COORD_LIMIT
        &&& match nd.left_node {
            Some(l) => i < l < ns.len() && subtree_wf(ns, l as int, k) && forall|q: P|
                #[trigger] subtree_points_ms(ns, l as int).contains(q)
                    ==> q.coords()[nd.dimension as int] <= nd.split_on,
            None => true,
        }
        &&& match nd.right_node {
            Some(r) => i < r < ns.len() && subtree_wf(ns, r as int, k) && forall|q: P|
                #[trigger] subtree_points_ms(ns, r as int).contains(q)
                    ==> q.coords()[nd.dimension as int] > nd.split_on,
            None => true,
        }
        &&& (nd.left_node is Some && nd.right_node is Some ==> subtree_idx(
            ns,
            nd.left_node.unwrap() as int,
        ).disjoint(subtree_idx(ns, nd.right_node.unwrap() as int)))
    }
}

/// A subtree's slots lie between its root and the end of the arena, and the
/// root is among them.
pub(crate) proof fn lemma_subtree_idx_range<P: KdtreePointTrait>(ns: Seq<KdtreeNode<P>>, i: int)
    requires
        0 <= i < ns.len(),
    ensures
        subtree_idx(ns, i).contains(i),
        forall|j: int| #[trigger] subtree_idx(ns, i).contains(j) ==> i <= j < ns.len(),
    decreases ns.len() - i,
{
    if ns[i].left_node is Some {
        let l = ns[i].left_node.unwrap() as int;
        if i < l < ns.len() {
            lemma_subtree_idx_range(ns, l);
        }
    }
    if ns[i].right_node is Some {
        let r = ns[i].right_node.unwrap() as int;
        if i < r < ns.len() {
            lemma_subtree_idx_range(ns, r);
        }
    }
}

/// Every point of a well-formed subtree is itself well-formed, and the
/// subtree holds at least its root's point.
pub(crate) proof fn lemma_subtree_points_wf<P: KdtreePointTrait>(
    ns: Seq<KdtreeNode<P>>,
    i: int,
    k: int,
)
    requires
        subtree_wf(ns, i, k),
    ensures
        forall|q: P| #[trigger] subtree_points_ms(ns, i).contains(q) ==> point_wf(q, k),
        subtree_points_ms(ns, i).contains(ns[i].point),
        subtree_points_ms(ns, i).len() >= 1,
    decreases ns.len() - i,
{
    if ns[i].left_node is Some {
        lemma_subtree_points_wf(ns, ns[i].left_node.unwrap() as int, k);
    }
    if ns[i].right_node is Some {
        lemma_subtree_points_wf(ns, ns[i].right_node.unwrap() as int, k);
    }
    let pt = ns[i].point;
    let lm = match ns[i].left_node {
        Some(l) => if i < l < ns.len() {
            subtree_points_ms(ns, l as int)
        } else {
            Multiset::empty()
        },
        None => Multiset::empty(),
    };
    let rm = match ns[i].right_node {
        Some(r) => if i < r < ns.len() {
            subtree_points_ms(ns, r as int)
        } else {
            Multiset::empty()
        },
        None => Multiset::empty(),
    };
    assert(subtree_points_ms(ns, i) == lm.add(rm).insert(pt));
    assert forall|q: P| #[trigger] subtree_points_ms(ns, i).contains(q) implies point_wf(
        q,
        k,
    ) by {
        if q != pt {
            assert(lm.contains(q) || rm.contains(q));
        }
    }
}

/// Frame rule: a subtree is untouched by any arena change that leaves its
/// own slots as they were, even if slots elsewhere changed or new slots were
/// appended.
pub(crate) proof fn lemma_subtree_frame<P: KdtreePointTrait>(
    ns: Seq<KdtreeNode<P>>,
    ns2: Seq<KdtreeNode<P>>,
    i: int,
    k: int,
)
    requires
        0 <= i < ns.len() <= ns2.len(),
        child_links_ok(ns),
        forall|j: int| #[trigger] subtree_idx(ns, i).contains(j) ==> ns2[j] == ns[j],
    ensures
        subtree_idx(ns2, i) == subtree_idx(ns, i),
        subtree_points_ms(ns2, i) == subtree_points_ms(ns, i),
        subtree_depth(ns2, i) == subtree_depth(ns, i),
        subtree_wf(ns, i, k) ==> subtree_wf(ns2, i, k),
    decreases ns.len() - i,
{
    lemma_subtree_idx_range(ns, i);
    assert(node_links_ok(ns, i));
    assert(ns2[i] == ns[i]);
    if ns[i].left_node is Some {
        let l = ns[i].left_node.unwrap() as int;
        if i < l < ns.len() {
            assert forall|j: int| #[trigger] subtree_idx(ns, l).contains(j) implies ns2[j]
                == ns[j] by {
                assert(subtree_idx(ns, i).contains(j));
            }
            lemma_subtree_frame(ns, ns2, l, k);
        }
    }
    if ns[i].right_node is Some {
        let r = ns[i].right_node.unwrap() as int;
        if i < r < ns.len() {
            assert forall|j: int| #[trigger] subtree_idx(ns, r).contains(j) implies ns2[j]
                == ns[j] by {
                assert(subtree_idx(ns, i).contains(j));
            }
            lemma_subtree_frame(ns, ns2, r, k);
        }
    }
    assert(subtree_idx(ns2, i) =~= subtree_idx(ns, i));
    assert(subtree_points_ms(ns2, i) =~= subtree_points_ms(ns, i));
}

/// Splitting a subrange at an inner position splits its multiset.
pub(crate) proof fn lemma_subrange_ms_split<P>(s: Seq<P>, lo: int, m: int, hi: int)
    requires
        0 <= lo <= m < hi <= s.len(),
    ensures
        s.subrange(lo, hi).to_multiset() == s.subrange(lo, m).to_multiset().add(
            s.subrange(m + 1, hi).to_multiset(),
        ).insert(s[m]),
{
    broadcast use {vstd::seq_lib::lemma_multiset_commutative};

    let a = s.subrange(lo, m);
    let b = seq![s[m]];
    let c = s.subrange(m + 1, hi);
    assert(s.subrange(lo, hi) =~= a + (b + c));
    assert(b =~= Seq::empty().push(s[m]));
    assert(b.to_multiset() =~= Multiset::empty().insert(s[m]));
    assert(a.to_multiset().add(Multiset::empty().insert(s[m]).add(c.to_multiset()))
        =~= a.to_multiset().add(c.to_multiset()).insert(s[m]));
}

/// Two sequences whose subranges carry the same multiset hold the same
/// values there: any entry of one appears somewhere in the other.
pub(crate) proof fn lemma_subrange_ms_index<P>(
    s1: Seq<P>,
    s2: Seq<P>,
    lo: int,
    hi: int,
    j: int,
) -> (x: int)
    requires
        0 <= lo <= j < hi <= s1.len(),
        hi <= s2.len(),
        s1.subrange(lo, hi).to_multiset() == s2.subrange(lo, hi).to_multiset(),
    ensures
        lo <= x < hi && s2[x] == s1[j],
{
    let sub1 = s1.subrange(lo, hi);
    let sub2 = s2.subrange(lo, hi);
    assert(sub1[j - lo] == s1[j]);
    assert(sub1.contains(s1[j]));
    assert(sub2.to_multiset().contains(s1[j]));
    assert(sub2.contains(s1[j]));
    let y = choose|y: int| 0 <= y < sub2.len() && sub2[y] == s1[j];
    lo + y
}

/// Pointwise well-formedness carries across a multiset-preserving
/// rearrangement of a subrange.
pub(crate) proof fn lemma_ms_pointwise_wf<P: KdtreePointTrait>(
    s1: Seq<P>,
    s2: Seq<P>,
    lo: int,
    hi: int,
    k: int,
)
    requires
        0 <= lo <= hi <= s1.len(),
        hi <= s2.len(),
        s1.subrange(lo, hi).to_multiset() == s2.subrange(lo, hi).to_multiset(),
        forall|j: int| lo <= j < hi ==> point_wf(#[trigger] s1[j], k),
    ensures
        forall|j: int| lo <= j < hi ==> point_wf(#[trigger] s2[j], k),
{
    assert forall|j: int| lo <= j < hi implies point_wf(#[trigger] s2[j], k) by {
        let x = lemma_subrange_ms_index(s2, s1, lo, hi, j);
    }
}

/// A bound that holds of every entry of a subrange holds of every member of
/// its multiset.
pub(crate) proof fn lemma_sep_le<P: KdtreePointTrait>(
    ms: Multiset<P>,
    s: Seq<P>,
    a: int,
    b: int,
    d: int,
    v: i64,
)
    requires
        0 <= a <= b <= s.len(),
        ms == s.subrange(a, b).to_multiset(),
        forall|j: int| a <= j < b ==> #[trigger] s[j].coords()[d] <= v,
    ensures
        forall|q: P| #[trigger] ms.contains(q) ==> q.coords()[d] <= v,
{
    assert forall|q: P| #[trigger] ms.contains(q) implies q.coords()[d] <= v by {
        let sub = s.subrange(a, b);
        assert(sub.contains(q));
        let y = choose|y: int| 0 <= y < sub.len() && sub[y] == q;
        assert(s[a + y] == q);
    }
}

/// The strict counterpart of `lemma_sep_le`.
pub(crate) proof fn lemma_sep_gt<P: KdtreePointTrait>(
    ms: Multiset<P>,
    s: Seq<P>,
    a: int,
    b: int,
    d: int,
    v: i64,
)
    requires
        0 <= a <= b <= s.len(),
        ms == s.subrange(a, b).to_multiset(),
        forall|j: int| a <= j < b ==> #[trigger] s[j].coords()[d] > v,
    ensures
        forall|q: P| #[trigger] ms.contains(q) ==> q.coords()[d] > v,
{
    assert forall|q: P| #[trigger] ms.contains(q) implies q.coords()[d] > v by {
        let sub = s.subrange(a, b);
        assert(sub.contains(q));
        let y = choose|y: int| 0 <= y < sub.len() && sub[y] == q;
        assert(s[a + y] == q);
    }
}

/// Containment in a bounding box survives a multiset-preserving
/// rearrangement of the slice.
pub(crate) proof fn lemma_perm_contains_points<P: KdtreePointTrait>(
    b: Bounds,
    s1: Seq<P>,
    s2: Seq<P>,
    lo: int,
    hi: int,
)
    requires
        0 <= lo <= hi <= s1.len(),
        hi <= s2.len(),
        s1.subrange(lo, hi).to_multiset() == s2.subrange(lo, hi).to_multiset(),
        b.contains_points(s1, lo, hi),
    ensures
        b.contains_points(s2, lo, hi),
{
    assert forall|j: int, d: int|
        lo <= j < hi && 0 <= d < b.bounds@.len() implies b.bounds@[d].0 <= #[trigger] s2[
        j].coords()[d] <= b.bounds@[d].1 by {
        let x = lemma_subrange_ms_index(s2, s1, lo, hi, j);
        assert(b.bounds@[d].0 <= s1[x].coords()[d] <= b.bounds@[d].1);
    }
}

/// Points below the pivot on the split dimension stay inside the bounds
/// whose max was moved down to the pivot.
pub(crate) proof fn lemma_move_max_contains<P: KdtreePointTrait>(
    b: Bounds,
    c: Bounds,
    s: Seq<P>,
    lo: int,
    hi: int,
    d: int,
    v: i64,
)
    requires
        0 <= lo <= hi <= s.len(),
        0 <= d < b.bounds@.len(),
        c.bounds@ =~= b.bounds@.update(d, (b.bounds@[d].0, v)),
        b.contains_points(s, lo, hi),
        forall|j: int| lo <= j < hi ==> #[trigger] s[j].coords()[d] <= v,
    ensures
        c.contains_points(s, lo, hi),
{
    assert forall|j: int, dd: int|
        lo <= j < hi && 0 <= dd < c.bounds@.len() implies c.bounds@[dd].0 <= #[trigger] s[
        j].coords()[dd] <= c.bounds@[dd].1 by {
        assert(b.bounds@[dd].0 <= s[j].coords()[dd] <= b.bounds@[dd].1);
    }
}

/// Points above the pivot on the split dimension stay inside the bounds
/// whose min was moved up to the pivot.
pub(crate) proof fn lemma_move_min_contains<P: KdtreePointTrait>(
    b: Bounds,
    c: Bounds,
    s: Seq<P>,
    lo: int,
    hi: int,
    d: int,
    v: i64,
)
    requires
        0 <= lo <= hi <= s.len(),
        0 <= d < b.bounds@.len(),
        c.bounds@ =~= b.bounds@.update(d, (v, b.bounds@[d].1)),
        b.contains_points(s, lo, hi),
        forall|j: int| lo <= j < hi ==> #[trigger] s[j].coords()[d] > v,
    ensures
        c.contains_points(s, lo, hi),
{
    assert forall|j: int, dd: int|
        lo <= j < hi && 0 <= dd < c.bounds@.len() implies c.bounds@[dd].0 <= #[trigger] s[
        j].coords()[dd] <= c.bounds@[dd].1 by {
        assert(b.bounds@[dd].0 <= s[j].coords()[dd] <= b.bounds@[dd].1);
    }
}

/// Assembles well-formedness of a freshly built node from the facts about
/// its two children: the node at `i`, a left subtree filling `(i, lend)`,
/// and a right subtree filling `[lend, ns.len())`.
pub(crate) proof fn lemma_build_assemble<P: KdtreePointTrait>(
    ns: Seq<KdtreeNode<P>>,
    i: int,
    k: int,
    lend: int,
)
    requires
        0 <= i < ns.len(),
        i + 1 <= lend <= ns.len(),
        ns[i].dimension < k,
        point_wf(ns[i].point, k),
        -COORD_LIMIT <= ns[i].split_on <= COORD_LIMIT,
        ns[i].left_node is Some <==> i + 1 < lend,
        ns[i].right_node is Some <==> lend < ns.len(),
        ns[i].left_node is Some ==> ns[i].left_node.unwrap() == i + 1 && subtree_wf(ns, i + 1, k)
            && subtree_idx(ns, i + 1) =~= set_int_range(i + 1, lend) && (forall|q: P|
            #[trigger] subtree_points_ms(ns, i + 1).contains(q) ==> q.coords()[
            ns[i].dimension as int] <= ns[i].split_on),
        ns[i].right_node is Some ==> ns[i].right_node.unwrap() == lend && subtree_wf(ns, lend, k)
            && subtree_idx(ns, lend) =~= set_int_range(lend, ns.len() as int) && (forall|q: P|
            #[trigger] subtree_points_ms(ns, lend).contains(q) ==> q.coords()[
            ns[i].dimension as int] > ns[i].split_on),
    ensures
        subtree_wf(ns, i, k),
        subtree_idx(ns, i) =~= set_int_range(i, ns.len() as int),
        subtree_points_ms(ns, i) == (if i + 1 < lend {
            subtree_points_ms(ns, i + 1)
        } else {
            Multiset::empty()
        }).add(
            if lend < ns.len() {
                subtree_points_ms(ns, lend)
            } else {
                Multiset::empty()
            },
        ).insert(ns[i].point),
{
    if ns[i].left_node is Some && ns[i].right_node is Some {
        assert(subtree_idx(ns, i + 1).disjoint(subtree_idx(ns, lend))) by {
            assert(set_int_range(i + 1, lend).disjoint(set_int_range(lend, ns.len() as int)));
        }
    }
    assert(subtree_wf(ns, i, k));
    let ls = if i + 1 < lend {
        subtree_idx(ns, i + 1)
    } else {
        Set::<int>::empty()
    };
    let rs = if lend < ns.len() {
        subtree_idx(ns, lend)
    } else {
        Set::<int>::empty()
    };
    assert(subtree_idx(ns, i) == ls.union(rs).insert(i));
    assert(ls.union(rs).insert(i) =~= set_int_range(i, ns.len() as int));
}

/// The point batch, rearranged first on `[lo, m)` and then on `(m, hi)`,
/// still carries the multiset it started with on `[lo, hi)`.
pub(crate) proof fn lemma_points_perm<P: KdtreePointTrait>(
    p0: Seq<P>,
    pp: Seq<P>,
    pl: Seq<P>,
    pf: Seq<P>,
    lo: int,
    m: int,
    hi: int,
)
    requires
        0 <= lo <= m < hi <= p0.len(),
        pp.len() == p0.len(),
        pl.len() == p0.len(),
        pf.len() == p0.len(),
        pp.subrange(lo, hi).to_multiset() == p0.subrange(lo, hi).to_multiset(),
        forall|j: int| 0 <= j < lo || m <= j < pl.len() ==> pl[j] == #[trigger] pp[j],
        pl.subrange(lo, m).to_multiset() == pp.subrange(lo, m).to_multiset(),
        forall|j: int| 0 <= j < m + 1 || hi <= j < pf.len() ==> pf[j] == #[trigger] pl[j],
        pf.subrange(m + 1, hi).to_multiset() == pl.subrange(m + 1, hi).to_multiset(),
    ensures
        pf.subrange(lo, hi).to_multiset() == p0.subrange(lo, hi).to_multiset(),
        pf.subrange(lo, m).to_multiset() == pp.subrange(lo, m).to_multiset(),
        pf[m] == pp[m],
        pf.subrange(m + 1, hi).to_multiset() == pp.subrange(m + 1, hi).to_multiset(),
{
    lemma_subrange_ms_split(pf, lo, m, hi);
    lemma_subrange_ms_split(pp, lo, m, hi);
    assert(pf.subrange(lo, m) =~= pl.subrange(lo, m));
    assert(pl.subrange(m + 1, hi) =~= pp.subrange(m + 1, hi));
    assert(pf[m] == pl[m]);
    assert(pl[m] == pp[m]);
}


/// Picks the split dimension and value for one builder step and partitions
/// the slice: the widest dimension of the bounds, its midpoint slid toward
/// the data by the partitioner. Returns `(pivot index, dimension, pivot
/// value)`.
fn partition_step<T: KdtreePointTrait>(
    points: &mut Vec<T>,
    lo: usize,
    hi: usize,
    bounds: &Bounds,
) -> (r: (usize, usize, i64))
    requires
        lo < hi <= old(points)@.len(),
        bounds.wf(),
        forall|j: int|
            lo <= j < hi ==> point_wf(#[trigger] old(points)@[j], bounds.bounds@.len() as int),
        bounds.contains_points(old(points)@, lo as int, hi as int),
    ensures
        lo <= r.0 < hi,
        r.1 < bounds.bounds@.len(),
        -COORD_LIMIT <= r.2 <= COORD_LIMIT,
        bounds.bounds@[r.1 as int].0 <= r.2 <= bounds.bounds@[r.1 as int].1,
        final(points)@.len() == old(points)@.len(),
        forall|j: int|
            0 <= j < lo || hi <= j < final(points)@.len() ==> final(points)@[j] == #[trigger] old(
                points,
            )@[j],
        final(points)@.subrange(lo as int, hi as int).to_multiset() == old(points)@.subrange(
            lo as int,
            hi as int,
        ).to_multiset(),
        forall|j: int|
            lo <= j < hi ==> point_wf(#[trigger] final(points)@[j], bounds.bounds@.len() as int),
        bounds.contains_points(final(points)@, lo as int, hi as int),
        forall|j: int|
            lo <= j <= r.0 ==> #[trigger] final(points)@[j].coords()[r.1 as int] <= r.2,
        forall|j: int| r.0 < j < hi ==> #[trigger] final(points)@[j].coords()[r.1 as int] > r.2,
        forall|i: int|
            0 <= i < bounds.bounds@.len() ==> spread(#[trigger] bounds.bounds@[i]) <= spread(
                bounds.bounds@[r.1 as int],
            ),
        forall|i: int|
            0 <= i < r.1 ==> spread(#[trigger] bounds.bounds@[i]) < spread(
                bounds.bounds@[r.1 as int],
            ),
{
    let ghost k = bounds.bounds@.len() as int;
    let ghost p0 = points@;
    let d = bounds.get_widest_dim();
    let mid = bounds.get_midvalue_of_widest_dim();
    proof {
        let bb = bounds.bounds@;
        let d2 = choose|d2: int|
            {
                &&& 0 <= d2 < bb.len()
                &&& (forall|i: int| 0 <= i < bb.len() ==> spread(#[trigger] bb[i]) <= spread(bb[d2]))
                &&& (forall|i: int| 0 <= i < d2 ==> spread(#[trigger] bb[i]) < spread(bb[d2]))
                &&& (#[trigger] bb[d2]).0 <= mid <= bb[d2].1
                &&& mid == bb[d2].0 + (bb[d2].1 - bb[d2].0) / 2
            };
        if d2 < d as int {
            assert(spread(bb[d2]) < spread(bb[d as int]));
            assert(spread(bb[d as int]) <= spread(bb[d2]));
        }
        if (d as int) < d2 {
            assert(spread(bb[d as int]) < spread(bb[d2]));
            assert(spread(bb[d2]) <= spread(bb[d as int]));
        }
        assert(bb[d as int].0 <= mid <= bb[d as int].1);
        assert forall|j: int| lo <= j < hi implies (d as int) < (#[trigger] p0[j].coords()).len()
            && coords_in_range(p0[j].coords()) by {
            assert(point_wf(p0[j], k));
        }
    }
    let r = partition_sliding_midpoint(points, lo, hi, mid, d);
    proof {
        let pp = points@;
        assert(bounds.bounds@[d as int].0 <= r.1 <= bounds.bounds@[d as int].1) by {
            if r.1 != mid {
                let x = choose|x: int| lo <= x < hi && #[trigger] p0[x].coords()[d as int] == r.1;
                assert(bounds.bounds@[d as int].0 <= p0[x].coords()[d as int]
                    <= bounds.bounds@[d as int].1);
            }
        }
        lemma_ms_pointwise_wf(p0, pp, lo as int, hi as int, k);
        lemma_perm_contains_points(*bounds, p0, pp, lo as int, hi as int);
    }
    (r.0, d, r.1)
}

/// Assembles the builder's postconditions for one node from the facts about
/// the slices and subtrees of its two children.
proof fn lemma_build_finish<P: KdtreePointTrait>(
    ns: Seq<KdtreeNode<P>>,
    node_id: int,
    k: int,
    lend: int,
    lr: int,
    rr: int,
    pp: Seq<P>,
    pl: Seq<P>,
    lo: int,
    m: int,
    hi: int,
    d: usize,
    v: i64,
)
    requires
        0 <= lo <= m < hi <= pp.len(),
        pl.len() == pp.len(),
        0 <= node_id < ns.len(),
        node_id + 1 <= lend <= ns.len(),
        ns[node_id].point == pp[m],
        ns[node_id].dimension == d,
        ns[node_id].split_on == v,
        (d as int) < k,
        point_wf(pp[m], k),
        -COORD_LIMIT <= v <= COORD_LIMIT,
        ns[node_id].left_node is Some <==> lo < m,
        ns[node_id].right_node is Some <==> m + 1 < hi,
        lend == node_id + 1 + (m - lo),
        ns.len() == lend + (hi - (m + 1)),
        lo < m ==> ns[node_id].left_node.unwrap() == lr && lr == node_id + 1 && subtree_wf(
            ns,
            lr,
            k,
        ) && subtree_idx(ns, lr) =~= set_int_range(lr, lend) && subtree_points_ms(ns, lr)
            == pp.subrange(lo, m).to_multiset(),
        m + 1 < hi ==> ns[node_id].right_node.unwrap() == rr && rr == lend && subtree_wf(
            ns,
            rr,
            k,
        ) && subtree_idx(ns, rr) =~= set_int_range(rr, ns.len() as int) && subtree_points_ms(
            ns,
            rr,
        ) == pl.subrange(m + 1, hi).to_multiset(),
        forall|j: int| lo <= j <= m ==> #[trigger] pp[j].coords()[d as int] <= v,
        forall|j: int| m < j < hi ==> #[trigger] pp[j].coords()[d as int] > v,
        forall|j: int| 0 <= j < lo || m <= j < pl.len() ==> pl[j] == #[trigger] pp[j],
    ensures
        subtree_wf(ns, node_id, k),
        subtree_idx(ns, node_id) =~= set_int_range(node_id, ns.len() as int),
        subtree_points_ms(ns, node_id) == pp.subrange(lo, hi).to_multiset(),
{
    if lo < m {
        lemma_sep_le(subtree_points_ms(ns, lr), pp, lo, m, d as int, v);
    }
    if m + 1 < hi {
        assert(pl.subrange(m + 1, hi) =~= pp.subrange(m + 1, hi));
        assert(subtree_points_ms(ns, rr) == pp.subrange(m + 1, hi).to_multiset());
        lemma_sep_gt(subtree_points_ms(ns, rr), pp, m + 1, hi, d as int, v);
    }
    lemma_build_assemble(ns, node_id, k, lend);
    lemma_subrange_ms_split(pp, lo, m, hi);
    if lo == m {
        assert(pp.subrange(lo, m).len() == 0);
        vstd::multiset::lemma_multiset_empty_len(pp.subrange(lo, m).to_multiset());
    }
    if m + 1 == hi {
        assert(pp.subrange(m + 1, hi).len() == 0);
        vstd::multiset::lemma_multiset_empty_len(pp.subrange(m + 1, hi).to_multiset());
    }
    assert(subtree_points_ms(ns, node_id) == pp.subrange(lo, hi).to_multiset());
}


/// Pruning rule of the branch-and-bound searches: when the query point lies
/// on the near side of a node's splitting plane, every point of the far
/// subtree is at least as far from the query as the plane itself.
proof fn lemma_prune<P: KdtreePointTrait>(
    ns: Seq<KdtreeNode<P>>,
    f: int,
    k: int,
    pc: Seq<i64>,
    d: usize,
    s: i64,
    dd: int,
    near_le: bool,
)
    requires
        0 <= f < ns.len(),
        subtree_wf(ns, f, k),
        pc.len() == k,
        (d as int) < k,
        dd == (s - pc[d as int]) * (s - pc[d as int]),
        near_le ==> pc[d as int] <= s && (forall|q: P|
            #[trigger] subtree_points_ms(ns, f).contains(q) ==> q.coords()[d as int] > s),
        !near_le ==> pc[d as int] > s && (forall|q: P|
            #[trigger] subtree_points_ms(ns, f).contains(q) ==> q.coords()[d as int] <= s),
    ensures
        forall|q: P|
            #[trigger] subtree_points_ms(ns, f).contains(q) ==> sqdist(pc, q.coords()) >= dd,
{
    lemma_subtree_points_wf(ns, f, k);
    assert forall|q: P| #[trigger] subtree_points_ms(ns, f).contains(q) implies sqdist(
        pc,
        q.coords(),
    ) >= dd by {
        let qc = q.coords();
        assert(point_wf(q, k));
        lemma_sqdist_dim_bound(pc, qc, d as int, k);
        let pd = pc[d as int];
        let qd = qc[d as int];
        if near_le {
            assert((pd - qd) * (pd - qd) >= (s - pd) * (s - pd)) by (nonlinear_arith)
                requires qd > s >= pd,
            {}
        } else {
            assert((pd - qd) * (pd - qd) >= (s - pd) * (s - pd)) by (nonlinear_arith)
                requires qd <= s < pd,
            {}
        }
    }
}

/// The predicate a range query selects by: squared distance to `qc` of at
/// most `limit`.
pub open spec fn in_range_of<P: KdtreePointTrait>(qc: Seq<i64>, limit: int) -> spec_fn(P) -> bool {
    |q: P| sqdist(qc, q.coords()) <= limit
}

/// Attaching a fresh childless node to an empty child slot of `cur` grows
/// that subtree by exactly the new point and leaves everything outside the
/// subtree alone.
proof fn lemma_attach<P: KdtreePointTrait>(
    ns0: Seq<KdtreeNode<P>>,
    ns2: Seq<KdtreeNode<P>>,
    cur: int,
    ni: usize,
    k: int,
    p: P,
    dim_new: usize,
    go_left: bool,
)
    requires
        child_links_ok(ns0),
        0 <= cur < ns0.len(),
        subtree_wf(ns0, cur, k),
        point_wf(p, k),
        (dim_new as int) < k,
        ni as int == ns0.len(),
        ns2.len() == ns0.len() + 1,
        ns2[ni as int].left_node is None,
        ns2[ni as int].right_node is None,
        ns2[ni as int].point == p,
        ns2[ni as int].dimension == dim_new,
        ns2[ni as int].split_on == p.coords()[dim_new as int],
        forall|j: int| 0 <= j < ns0.len() && j != cur ==> ns2[j] == #[trigger] ns0[j],
        ns2[cur].point == ns0[cur].point,
        ns2[cur].dimension == ns0[cur].dimension,
        ns2[cur].split_on == ns0[cur].split_on,
        go_left ==> ns0[cur].left_node is None && p.coords()[ns0[cur].dimension as int]
            <= ns0[cur].split_on && ns2[cur].left_node == Some(ni)
            && ns2[cur].right_node == ns0[cur].right_node,
        !go_left ==> ns0[cur].right_node is None && p.coords()[ns0[cur].dimension as int]
            > ns0[cur].split_on && ns2[cur].right_node == Some(ni)
            && ns2[cur].left_node == ns0[cur].left_node,
    ensures
        child_links_ok(ns2),
        subtree_wf(ns2, cur, k),
        subtree_idx(ns2, cur) =~= subtree_idx(ns0, cur).insert(ni as int),
        subtree_points_ms(ns2, cur) == subtree_points_ms(ns0, cur).insert(p),
        forall|j: int|
            0 <= j < ns0.len() && !subtree_idx(ns0, cur).contains(j) ==> ns2[j]
                == #[trigger] ns0[j],
{
    assert(child_links_ok(ns2)) by {
        assert forall|i: int| 0 <= i < ns2.len() implies node_links_ok(ns2, i) by {
            if i < ns0.len() {
                assert(node_links_ok(ns0, i));
            }
        }
    }
    // the fresh leaf is a well-formed one-point subtree
    assert(coords_in_range(p.coords()));
    assert(-COORD_LIMIT <= p.coords()[dim_new as int] <= COORD_LIMIT);
    assert(subtree_wf(ns2, ni as int, k));
    assert(subtree_points_ms(ns2, ni as int) =~= Multiset::empty().insert(p));
    assert(subtree_idx(ns2, ni as int) =~= Set::empty().insert(ni as int));
    // the untouched sibling subtree is unaffected
    let sib = if go_left {
        ns0[cur].right_node
    } else {
        ns0[cur].left_node
    };
    if sib is Some {
        let sb = sib.unwrap() as int;
        assert(node_links_ok(ns0, cur));
        lemma_subtree_idx_range(ns0, sb);
        lemma_subtree_frame(ns0, ns2, sb, k);
    }
    lemma_subtree_idx_range(ns0, cur);
    assert(subtree_wf(ns2, cur, k));
    assert(subtree_idx(ns2, cur) =~= subtree_idx(ns0, cur).insert(ni as int));
    assert(subtree_points_ms(ns2, cur) =~= subtree_points_ms(ns0, cur).insert(p));
}

/// Lifts the effect of an insertion in one child subtree to its parent:
/// the parent's subtree also grows by exactly the new point, the sibling
/// subtree and everything outside are untouched.
proof fn lemma_insert_up<P: KdtreePointTrait>(
    ns0: Seq<KdtreeNode<P>>,
    ns2: Seq<KdtreeNode<P>>,
    cur: int,
    child: int,
    ni: int,
    k: int,
    p: P,
    go_left: bool,
)
    requires
        child_links_ok(ns0),
        child_links_ok(ns2),
        0 <= cur < ns0.len(),
        ni == ns0.len(),
        ns2.len() == ns0.len() + 1,
        subtree_wf(ns0, cur, k),
        cur < child < ns0.len(),
        go_left ==> ns0[cur].left_node is Some && ns0[cur].left_node.unwrap() == child
            && p.coords()[ns0[cur].dimension as int] <= ns0[cur].split_on,
        !go_left ==> ns0[cur].right_node is Some && ns0[cur].right_node.unwrap() == child
            && p.coords()[ns0[cur].dimension as int] > ns0[cur].split_on,
        subtree_wf(ns2, child, k),
        subtree_idx(ns2, child) =~= subtree_idx(ns0, child).insert(ni),
        subtree_points_ms(ns2, child) == subtree_points_ms(ns0, child).insert(p),
        forall|j: int|
            0 <= j < ns0.len() && !subtree_idx(ns0, child).contains(j) ==> ns2[j]
                == #[trigger] ns0[j],
    ensures
        subtree_wf(ns2, cur, k),
        subtree_idx(ns2, cur) =~= subtree_idx(ns0, cur).insert(ni),
        subtree_points_ms(ns2, cur) == subtree_points_ms(ns0, cur).insert(p),
        forall|j: int|
            0 <= j < ns0.len() && !subtree_idx(ns0, cur).contains(j) ==> ns2[j]
                == #[trigger] ns0[j],
{
    assert(node_links_ok(ns0, cur));
    lemma_subtree_idx_range(ns0, cur);
    lemma_subtree_idx_range(ns0, child);
    assert(ns2[cur] == ns0[cur]);
    let sib = if go_left {
        ns0[cur].right_node
    } else {
        ns0[cur].left_node
    };
    if sib is Some {
        let sb = sib.unwrap() as int;
        lemma_subtree_idx_range(ns0, sb);
        // the two child subtrees are disjoint, so the sibling was untouched
        assert forall|j: int| #[trigger] subtree_idx(ns0, sb).contains(j) implies ns2[j]
            == ns0[j] by {
            assert(!subtree_idx(ns0, child).contains(j));
        }
        lemma_subtree_frame(ns0, ns2, sb, k);
    }
    // separation at cur still holds: the child's multiset gained only p
    assert(subtree_wf(ns2, cur, k)) by {
        if go_left {
            assert forall|q: P| #[trigger] subtree_points_ms(ns2, child).contains(q) implies
                q.coords()[ns0[cur].dimension as int] <= ns0[cur].split_on by {
                if q != p {
                    assert(subtree_points_ms(ns0, child).contains(q));
                }
            }
        } else {
            assert forall|q: P| #[trigger] subtree_points_ms(ns2, child).contains(q) implies
                q.coords()[ns0[cur].dimension as int] > ns0[cur].split_on by {
                if q != p {
                    assert(subtree_points_ms(ns0, child).contains(q));
                }
            }
        }
    }
    assert(subtree_idx(ns2, cur) =~= subtree_idx(ns0, cur).insert(ni));
    assert(subtree_points_ms(ns2, cur) =~= subtree_points_ms(ns0, cur).insert(p));
    assert forall|j: int|
        0 <= j < ns0.len() && !subtree_idx(ns0, cur).contains(j) implies ns2[j]
        == #[trigger] ns0[j] by {
        assert(!subtree_idx(ns0, child).contains(j));
    }
}

/// The k-dimensional tree: an arena of nodes (slot 0 is the root), the
/// round-robin dimension counter used by incremental insertion, and the
/// depth bookkeeping that drives the automatic-rebuild heuristic.
pub struct Kdtree<KdtreePoint> {
    nodes: Vec<KdtreeNode<KdtreePoint>>,
    node_adding_dimension: usize,
    node_depth_during_last_rebuild: usize,
    current_node_depth: usize,
}

impl<KdtreePoint: KdtreePointTrait> Kdtree<KdtreePoint> {
    /// Number of dimensions of this tree.
    pub closed spec fn k(&self) -> int {
        self.nodes@[0].point.coords().len() as int
    }

    /// The multiset of points the tree stores: what every contract speaks of.
    pub closed spec fn points_ms(&self) -> Multiset<KdtreePoint> {
        subtree_points_ms(self.nodes@, 0)
    }

    /// The dimension the next incremental insertion will split on.
    pub closed spec fn adding_dim(&self) -> int {
        self.node_adding_dimension as int
    }

    /// The maximum tree depth observed at the most recent build or rebuild.
    pub closed spec fn last_rebuild_depth(&self) -> int {
        self.node_depth_during_last_rebuild as int
    }

    /// The depth of the tree: the longest root-to-leaf chain of nodes.
    pub closed spec fn tree_depth(&self) -> int {
        subtree_depth(self.nodes@, 0)
    }

    /// The arena slot where the insertion walk for `p` ends: from the root,
    /// descend left when `p`'s coordinate on a node's splitting dimension is
    /// at most its splitting value and right otherwise, until the walked
    /// side is empty.
    pub closed spec fn insert_target(&self, p: KdtreePoint) -> int {
        insertion_target(self.nodes@, 0, p)
    }

    /// The duplicate rule: inserting `p` is suppressed exactly when the node
    /// where the insertion walk ends equals `p` by value.
    pub closed spec fn insert_suppressed(&self, p: KdtreePoint) -> bool {
        self.nodes@[self.insert_target(p)].point.same(&p)
    }

    /// The number of nodes the insertion walk for `p` visits.
    pub closed spec fn insert_walk_depth(&self, p: KdtreePoint) -> int {
        walk_depth(self.nodes@, 0, p)
    }

    /// Whether inserting `p` triggers the automatic rebuild: the walked path
    /// is longer than four times the depth recorded at the last rebuild.
    pub closed spec fn insert_rebuilds(&self, p: KdtreePoint) -> bool {
        4 * self.last_rebuild_depth() < self.insert_walk_depth(p)
    }

    /// Well-formedness: a non-empty arena whose root sits in slot 0, forward
    /// child links, a well-formed root subtree, and exactly as many reachable
    /// points as arena slots.
    pub closed spec fn wf(&self) -> bool {
        &&& self.nodes@.len() > 0
        &&& self.k() >= 1
        &&& child_links_ok(self.nodes@)
        &&& subtree_wf(self.nodes@, 0, self.k())
        &&& subtree_points_ms(self.nodes@, 0).len() == self.nodes@.len()
        &&& 0 <= self.node_adding_dimension < self.k()
    }

    /// Appends a fresh, childless node to the arena and returns its slot.
    fn add_node(&mut self, p: KdtreePoint, dimension: usize, split_on: i64) -> (idx: usize)
        ensures
            final(self).nodes@ == old(self).nodes@.push(
                (KdtreeNode {
                    left_node: None,
                    right_node: None,
                    point: p,
                    dimension: dimension,
                    split_on: split_on,
                }),
            ),
            idx == old(self).nodes@.len(),
            final(self).node_adding_dimension == old(self).node_adding_dimension,
            final(self).node_depth_during_last_rebuild == old(self).node_depth_during_last_rebuild,
            final(self).current_node_depth == old(self).current_node_depth,
    {
        let node = KdtreeNode::new(p, dimension, split_on);
        self.nodes.push(node);
        proof {
            assert(node == (KdtreeNode {
                left_node: None::<usize>,
                right_node: None::<usize>,
                point: p,
                dimension: dimension,
                split_on: split_on,
            }));
        }
        self.nodes.len() - 1
    }

    /// Recursively partitions `points[lo..hi)` and appends the resulting
    /// subtree to the arena, returning the slot of its root. The new subtree
    /// occupies exactly the appended slots and holds exactly the points of
    /// the slice.
    fn build_tree(
        &mut self,
        points: &mut Vec<KdtreePoint>,
        lo: usize,
        hi: usize,
        bounds: &Bounds,
        depth: usize,
    ) -> (root: usize)
        requires
            lo < hi <= old(points)@.len(),
            bounds.wf(),
            forall|j: int|
                lo <= j < hi ==> point_wf(#[trigger] old(points)@[j], bounds.bounds@.len() as int),
            bounds.contains_points(old(points)@, lo as int, hi as int),
            child_links_ok(old(self).nodes@),
            depth >= 1,
            depth + (hi - lo) <= usize::MAX as int + 1,
        ensures
            final(self).node_depth_during_last_rebuild as int == vstd::math::max(
                old(self).node_depth_during_last_rebuild as int,
                depth - 1 + subtree_depth(final(self).nodes@, root as int),
            ),
            hi - lo == 1 ==> ({
                let nd = final(self).nodes@[root as int];
                &&& nd.point == old(points)@[lo as int]
                &&& nd.left_node is None
                &&& nd.right_node is None
                &&& (forall|i2: int|
                    0 <= i2 < bounds.bounds@.len() ==> spread(#[trigger] bounds.bounds@[i2])
                        <= spread(bounds.bounds@[nd.dimension as int]))
                &&& (forall|i2: int|
                    0 <= i2 < nd.dimension ==> spread(#[trigger] bounds.bounds@[i2]) < spread(
                        bounds.bounds@[nd.dimension as int],
                    ))
                &&& bounds.bounds@[nd.dimension as int].0 <= nd.split_on <= bounds.bounds@[
                    nd.dimension as int].1
            }),
            final(self).nodes@.len() == old(self).nodes@.len() + (hi - lo),
            root == old(self).nodes@.len(),
            forall|j: int|
                0 <= j < old(self).nodes@.len() ==> final(self).nodes@[j] == #[trigger] old(self).nodes@[j],
            child_links_ok(final(self).nodes@),
            subtree_wf(final(self).nodes@, root as int, bounds.bounds@.len() as int),
            subtree_idx(final(self).nodes@, root as int) =~= set_int_range(
                root as int,
                final(self).nodes@.len() as int,
            ),
            subtree_points_ms(final(self).nodes@, root as int) == old(points)@.subrange(
                lo as int,
                hi as int,
            ).to_multiset(),
            final(points)@.len() == old(points)@.len(),
            forall|j: int|
                0 <= j < lo || hi <= j < final(points)@.len() ==> final(points)@[j]
                    == #[trigger] old(points)@[j],
            final(points)@.subrange(lo as int, hi as int).to_multiset() == old(points)@.subrange(
                lo as int,
                hi as int,
            ).to_multiset(),
            final(self).node_adding_dimension == old(self).node_adding_dimension,
            final(self).current_node_depth == old(self).current_node_depth,
        decreases hi - lo,
    {
        let ghost k = bounds.bounds@.len() as int;
        let ghost n0 = self.nodes@;
        let ghost p0 = points@;
        let step = partition_step(points, lo, hi, bounds);
        let m = step.0;
        let d = step.1;
        let v = step.2;
        let ghost pp = points@;
        let pm = points[m];
        let node_id = self.add_node(pm, d, v);
        let ghost n1 = self.nodes@;
        proof {
            assert(child_links_ok(n1)) by {
                assert forall|i: int| 0 <= i < n1.len() implies node_links_ok(n1, i) by {
                    if i < n0.len() {
                        assert(node_links_ok(n0, i));
                    }
                }
            }
        }
        let ghost fd0 = self.node_depth_during_last_rebuild as int;
        let ghost mut lr: int = 0;
        let ghost mut lend: int = n1.len() as int;
        let ghost mut n3 = n1;
        let ghost mut ldep: int = 0;
        let ghost mut fdl: int = fd0;
        if m > lo {
            let left_rect = bounds.clone_moving_max(v, d);
            proof {
                lemma_move_max_contains(*bounds, left_rect, pp, lo as int, m as int, d as int, v);
            }
            let left_root = self.build_tree(points, lo, m, &left_rect, depth + 1);
            let ghost n2 = self.nodes@;
            let mut nd = self.nodes[node_id];
            nd.left_node = Some(left_root);
            self.nodes.set(node_id, nd);
            proof {
                lr = left_root as int;
                lend = n2.len() as int;
                n3 = self.nodes@;
                assert(n2[node_id as int] == n1[node_id as int]);
                assert(child_links_ok(n3)) by {
                    assert forall|i: int| 0 <= i < n3.len() implies node_links_ok(n3, i) by {
                        assert(node_links_ok(n2, i));
                    }
                }
                lemma_subtree_idx_range(n2, lr);
                lemma_subtree_frame(n2, n3, lr, k);
                ldep = subtree_depth(n3, lr);
                fdl = self.node_depth_during_last_rebuild as int;
                assert(fdl == vstd::math::max(fd0, depth + ldep));
            }
        }
        let ghost pl = points@;
        let ghost mut rr: int = 0;
        let ghost mut rend: int = lend;
        let ghost mut n5 = n3;
        let ghost mut rdep: int = 0;
        let ghost mut fdr: int = fdl;
        if m + 1 < hi {
            let right_rect = bounds.clone_moving_min(v, d);
            proof {
                assert forall|j: int| m + 1 <= j < hi implies point_wf(#[trigger] pl[j], k) by {
                    assert(pl[j] == pp[j]);
                    assert(point_wf(pp[j], k));
                }
                assert forall|j: int| m + 1 <= j < hi implies #[trigger] pl[j].coords()[d as int]
                    > v by {
                    assert(pl[j] == pp[j]);
                }
                assert(pl.subrange(m as int + 1, hi as int) =~= pp.subrange(
                    m as int + 1,
                    hi as int,
                ));
                assert forall|j: int, dd: int|
                    m + 1 <= j < hi && 0 <= dd < bounds.bounds@.len() implies bounds.bounds@[
                    dd].0 <= #[trigger] pl[j].coords()[dd] <= bounds.bounds@[dd].1 by {
                    assert(pl[j] == pp[j]);
                    assert(bounds.bounds@[dd].0 <= pp[j].coords()[dd] <= bounds.bounds@[dd].1);
                }
                lemma_move_min_contains(
                    *bounds,
                    right_rect,
                    pl,
                    m as int + 1,
                    hi as int,
                    d as int,
                    v,
                );
            }
            let right_root = self.build_tree(points, m + 1, hi, &right_rect, depth + 1);
            let ghost n4 = self.nodes@;
            let mut nd = self.nodes[node_id];
            nd.right_node = Some(right_root);
            self.nodes.set(node_id, nd);
            proof {
                rr = right_root as int;
                rend = n4.len() as int;
                n5 = self.nodes@;
                assert(n4[node_id as int] == n3[node_id as int]);
                assert(child_links_ok(n5)) by {
                    assert forall|i: int| 0 <= i < n5.len() implies node_links_ok(n5, i) by {
                        assert(node_links_ok(n4, i));
                    }
                }
                if m > lo {
                    lemma_subtree_idx_range(n3, lr);
                    lemma_subtree_frame(n3, n4, lr, k);
                    lemma_subtree_idx_range(n4, lr);
                    lemma_subtree_frame(n4, n5, lr, k);
                }
                lemma_subtree_idx_range(n4, rr);
                lemma_subtree_frame(n4, n5, rr, k);
                rdep = subtree_depth(n5, rr);
                fdr = self.node_depth_during_last_rebuild as int;
                assert(fdr == vstd::math::max(fdl, depth + rdep));
            }
        }
        if depth > self.node_depth_during_last_rebuild {
            self.node_depth_during_last_rebuild = depth;
        }
        proof {
            let nsf = self.nodes@;
            assert(nsf == n5);
            assert(nsf.len() == rend);
            assert(n5[node_id as int].point == pm);
            assert(n5[node_id as int].dimension == d);
            assert(n5[node_id as int].split_on == v);
            assert(lend == node_id + 1 + (m - lo));
            assert(rend == lend + (hi - (m + 1)));
            lemma_build_finish(
                nsf,
                node_id as int,
                k,
                lend,
                lr,
                rr,
                pp,
                pl,
                lo as int,
                m as int,
                hi as int,
                d,
                v,
            );
            let pf = points@;
            lemma_points_perm(p0, pp, pl, pf, lo as int, m as int, hi as int);
            assert forall|j: int| 0 <= j < n0.len() implies nsf[j] == #[trigger] n0[j] by {
                assert(n1[j] == n0[j]);
                assert(n3[j] == n1[j]);
                assert(n5[j] == n3[j]);
            }
            // depth bookkeeping: the recorded depth becomes the maximum of
            // what it was and the depth this subtree reaches
            let ldf = if m > lo {
                subtree_depth(nsf, lr)
            } else {
                0
            };
            let rdf = if m + 1 < hi {
                subtree_depth(nsf, rr)
            } else {
                0
            };
            if m > lo {
                assert(ldf == ldep);
                lemma_subtree_depth_bounds(nsf, lr);
            }
            if m + 1 < hi {
                assert(rdf == rdep);
                lemma_subtree_depth_bounds(nsf, rr);
            }
            assert(subtree_depth(nsf, node_id as int) == 1 + if ldf >= rdf {
                ldf
            } else {
                rdf
            });
            assert(self.node_depth_during_last_rebuild as int == vstd::math::max(
                fd0,
                depth - 1 + subtree_depth(nsf, node_id as int),
            ));
            // a single-point slice builds a childless node holding that
            // point, split on the widest dimension within its bounds
            if hi - lo == 1 {
                let x = lemma_subrange_ms_index(pp, p0, lo as int, hi as int, lo as int);
                assert(p0[lo as int] == pp[lo as int]);
                assert(nsf[node_id as int].point == old(points)@[lo as int]);
            }
        }
        node_id
    }

    /// Clears the arena and all depth bookkeeping, recomputes the bounds of
    /// the batch, and rebuilds the whole tree from it. The batch is
    /// reordered in place.
    pub fn rebuild_tree(&mut self, points: &mut Vec<KdtreePoint>)
        requires
            old(points)@.len() > 0,
            old(points)@[0].coords().len() >= 1,
            forall|j: int|
                0 <= j < old(points)@.len() ==> point_wf(
                    #[trigger] old(points)@[j],
                    old(points)@[0].coords().len() as int,
                ),
            old(self).adding_dim() < old(points)@[0].coords().len(),
        ensures
            final(self).wf(),
            final(self).k() == old(points)@[0].coords().len(),
            final(self).points_ms() == old(points)@.to_multiset(),
            final(self).adding_dim() == old(self).adding_dim(),
            final(self).last_rebuild_depth() == final(self).tree_depth(),
            old(points)@.len() == 1 ==> ({
                &&& final(self).spec_node_point(0) == old(points)@[0]
                &&& final(self).spec_node_dimension(0) == 0
                &&& final(self).spec_node_split_on(0) == old(points)@[0].coords()[0]
                &&& final(self).spec_node_left(0) is None
                &&& final(self).spec_node_right(0) is None
                &&& final(self).last_rebuild_depth() == 1
            }),
            final(points)@.len() == old(points)@.len(),
            final(points)@.to_multiset() == old(points)@.to_multiset(),
    {
        self.nodes.clear();
        self.node_depth_during_last_rebuild = 0;
        self.current_node_depth = 0;
        let rect = Bounds::new_from_points(points);
        let ghost k = rect.bounds@.len() as int;
        let root = self.build_tree(points, 0, points.len(), &rect, 1);
        proof {
            let ns = self.nodes@;
            let p0 = old(points)@;
            assert(p0.subrange(0, p0.len() as int) =~= p0);
            assert(points@.subrange(0, points@.len() as int) =~= points@);
            assert(subtree_points_ms(ns, 0) == p0.to_multiset());
            assert(subtree_points_ms(ns, 0).len() == p0.len());
            assert(point_wf(ns[0].point, k));
            lemma_subtree_depth_bounds(ns, 0);
            assert(self.node_depth_during_last_rebuild as int == subtree_depth(ns, 0));
            if p0.len() == 1 {
                // one point, zero spread on every dimension: the widest
                // dimension defaults to the first, and the split value can
                // only be that point's coordinate there
                let nd = ns[0];
                assert(rect.bounds@[0].0 == p0[0].coords()[0] && rect.bounds@[0].1
                    == p0[0].coords()[0]) by {
                    let j1 = choose|j: int|
                        0 <= j < p0.len() && p0[j].coords()[0] == (#[trigger] rect.bounds@[0]).0;
                    let j2 = choose|j: int|
                        0 <= j < p0.len() && p0[j].coords()[0] == (#[trigger] rect.bounds@[0]).1;
                }
                assert forall|d2: int| 0 <= d2 < rect.bounds@.len() implies spread(
                    #[trigger] rect.bounds@[d2],
                ) == 0 by {
                    let ja = choose|j: int|
                        0 <= j < p0.len() && p0[j].coords()[d2] == (#[trigger] rect.bounds@[d2]).0;
                    let jb = choose|j: int|
                        0 <= j < p0.len() && p0[j].coords()[d2] == (#[trigger] rect.bounds@[d2]).1;
                }
                assert(nd.dimension == 0) by {
                    if nd.dimension > 0 {
                        assert(spread(rect.bounds@[0]) < spread(rect.bounds@[nd.dimension as int]));
                    }
                }
                assert(nd.split_on == p0[0].coords()[0]);
                assert(subtree_depth(ns, 0) == 1);
            }
        }
    }

    /// Builds a tree from a non-empty point batch. The batch is reordered
    /// in place; every point must have the same positive number of
    /// dimensions, with coordinates in range.
    pub fn new(points: &mut Vec<KdtreePoint>) -> (tree: Kdtree<KdtreePoint>)
        requires
            old(points)@.len() > 0,
            old(points)@[0].coords().len() >= 1,
            forall|j: int|
                0 <= j < old(points)@.len() ==> point_wf(
                    #[trigger] old(points)@[j],
                    old(points)@[0].coords().len() as int,
                ),
        ensures
            tree.wf(),
            tree.k() == old(points)@[0].coords().len(),
            tree.points_ms() == old(points)@.to_multiset(),
            tree.adding_dim() == 0,
            tree.last_rebuild_depth() == tree.tree_depth(),
            old(points)@.len() == 1 ==> ({
                &&& tree.spec_node_point(0) == old(points)@[0]
                &&& tree.spec_node_dimension(0) == 0
                &&& tree.spec_node_split_on(0) == old(points)@[0].coords()[0]
                &&& tree.spec_node_left(0) is None
                &&& tree.spec_node_right(0) is None
                &&& tree.last_rebuild_depth() == 1
            }),
            final(points)@.len() == old(points)@.len(),
            final(points)@.to_multiset() == old(points)@.to_multiset(),
    {
        let mut tree = Kdtree {
            nodes: Vec::new(),
            node_adding_dimension: 0,
            node_depth_during_last_rebuild: 0,
            current_node_depth: 0,
        };
        tree.rebuild_tree(points);
        tree
    }

    /// Pre-order traversal: appends the points of the subtree at
    /// `current_index` to `points` — the node's own point first, then the
    /// left subtree, then the right subtree.
    fn gather_points(&self, current_index: usize, points: &mut Vec<KdtreePoint>)
        requires
            child_links_ok(self.nodes@),
            current_index < self.nodes@.len(),
        ensures
            final(points)@ == old(points)@ + preorder_points(
                self.nodes@,
                current_index as int,
            ),
        decreases self.nodes@.len() - current_index,
    {
        let ghost base = old(points)@;
        let node = self.nodes[current_index];
        points.push(node.point);
        let ghost mid1 = points@;
        proof {
            assert(node_links_ok(self.nodes@, current_index as int));
            assert(mid1 =~= base + seq![node.point]);
        }
        if let Some(left_index) = node.left_node {
            self.gather_points(left_index, points);
        }
        let ghost mid2 = points@;
        if let Some(right_index) = node.right_node {
            self.gather_points(right_index, points);
        }
        proof {
            let ns = self.nodes@;
            let i = current_index as int;
            let ls = match ns[i].left_node {
                Some(l) => if i < l < ns.len() {
                    preorder_points(ns, l as int)
                } else {
                    Seq::empty()
                },
                None => Seq::empty(),
            };
            let rs = match ns[i].right_node {
                Some(r) => if i < r < ns.len() {
                    preorder_points(ns, r as int)
                } else {
                    Seq::empty()
                },
                None => Seq::empty(),
            };
            assert(preorder_points(ns, i) == seq![ns[i].point] + ls + rs);
            assert(mid2 == mid1 + ls);
            assert(points@ == mid2 + rs);
            assert(points@ =~= base + preorder_points(ns, i));
        }
    }

    /// Recovers the exact stored point set by a full pre-order traversal
    /// and rebuilds the tree from scratch. The stored points, their number
    /// and the dimension count are all preserved.
    pub fn gather_points_and_rebuild(&mut self)
        requires
            old(self).wf(),
        ensures
            final(self).wf(),
            final(self).k() == old(self).k(),
            final(self).points_ms() == old(self).points_ms(),
            final(self).adding_dim() == old(self).adding_dim(),
            final(self).last_rebuild_depth() == final(self).tree_depth(),
    {
        let mut points: Vec<KdtreePoint> = Vec::new();
        self.gather_points(0, &mut points);
        proof {
            let ps = points@;
            let k = self.k();
            lemma_preorder_ms(self.nodes@, 0);
            assert(ps =~= preorder_points(self.nodes@, 0));
            assert(ps.subrange(0, ps.len() as int) =~= ps);
            assert(ps.to_multiset() == self.points_ms());
            assert(ps[0] == self.nodes@[0].point);
            lemma_subtree_points_wf(self.nodes@, 0, k);
            assert forall|j: int| 0 <= j < ps.len() implies point_wf(#[trigger] ps[j], k) by {
                assert(ps.contains(ps[j]));
                assert(ps.to_multiset().contains(ps[j]));
            }
            assert(ps[0].coords().len() == k);
        }
        self.rebuild_tree(&mut points);
    }

    /// Branch-and-bound descent: improves `best_leaf_found` and
    /// `best_distance_squared` so that they beat every point of the subtree
    /// at `searched_index`, visiting the closer child first and the farther
    /// child only when the splitting plane is nearer than the current best.
    fn nearest_search_impl(
        &self,
        p: &KdtreePoint,
        searched_index: usize,
        best_distance_squared: &mut u128,
        best_leaf_found: &mut usize,
    )
        requires
            child_links_ok(self.nodes@),
            searched_index < self.nodes@.len(),
            subtree_wf(self.nodes@, searched_index as int, self.k()),
            point_wf(*p, self.k()),
            *old(best_leaf_found) < self.nodes@.len(),
            point_wf(self.nodes@[*old(best_leaf_found) as int].point, self.k()),
            *old(best_distance_squared) as int == sqdist(
                p.coords(),
                self.nodes@[*old(best_leaf_found) as int].point.coords(),
            ),
        ensures
            *final(best_leaf_found) < self.nodes@.len(),
            point_wf(self.nodes@[*final(best_leaf_found) as int].point, self.k()),
            *final(best_distance_squared) as int == sqdist(
                p.coords(),
                self.nodes@[*final(best_leaf_found) as int].point.coords(),
            ),
            *final(best_distance_squared) <= *old(best_distance_squared),
            forall|q: KdtreePoint|
                #[trigger] subtree_points_ms(self.nodes@, searched_index as int).contains(q)
                    ==> *final(best_distance_squared) as int <= sqdist(p.coords(), q.coords()),
            *final(best_leaf_found) == *old(best_leaf_found) || subtree_points_ms(
                self.nodes@,
                searched_index as int,
            ).contains(self.nodes@[*final(best_leaf_found) as int].point),
            *final(best_leaf_found) != *old(best_leaf_found) ==> *final(best_distance_squared)
                < *old(best_distance_squared),
        decreases self.nodes@.len() - searched_index,
    {
        let ghost k = self.k();
        let ghost ns = self.nodes@;
        let ghost i = searched_index as int;
        let ghost best0 = *best_distance_squared;
        let ghost leaf0 = *best_leaf_found;
        let node = self.nodes[searched_index];
        let splitting_value = node.split_on;
        let point_splitting_dim_value = coord_at(p, node.dimension);
        let near_le = point_splitting_dim_value <= splitting_value;
        let (closer_node, farther_node) = if near_le {
            (node.left_node, node.right_node)
        } else {
            (node.right_node, node.left_node)
        };
        proof {
            assert(node_links_ok(ns, i));
            lemma_subtree_points_wf(ns, i, k);
        }
        if let Some(closer) = closer_node {
            proof {
                assert(subtree_wf(ns, closer as int, k));
            }
            self.nearest_search_impl(p, closer, best_distance_squared, best_leaf_found);
        }
        let ghost best1 = *best_distance_squared;
        let ghost leaf1 = *best_leaf_found;
        let pdims = p.dims();
        let ndims = node.point.dims();
        let distance = squared_euclidean(&pdims, &ndims);
        if distance < *best_distance_squared {
            *best_distance_squared = distance;
            *best_leaf_found = searched_index;
        }
        let ghost best2 = *best_distance_squared;
        let ghost leaf2 = *best_leaf_found;
        let ghost mut far_done = false;
        if let Some(farther) = farther_node {
            let diff: i128 = (splitting_value as i128) - (point_splitting_dim_value as i128);
            proof {
                assert(0 <= diff * diff <= MAX_SQUARED_DIFF as int) by (nonlinear_arith)
                    requires
                        -2 * (COORD_LIMIT as i128) <= diff <= 2 * (COORD_LIMIT as i128),
                {}
            }
            let distance_on_single_dimension: u128 = (diff * diff) as u128;
            if distance_on_single_dimension <= *best_distance_squared {
                proof {
                    assert(subtree_wf(ns, farther as int, k));
                    far_done = true;
                }
                self.nearest_search_impl(p, farther, best_distance_squared, best_leaf_found);
            } else {
                proof {
                    lemma_prune(
                        ns,
                        farther as int,
                        k,
                        p.coords(),
                        node.dimension,
                        splitting_value,
                        diff * diff,
                        near_le,
                    );
                }
            }
        }
        proof {
            let bf = *best_distance_squared;
            let lm = match ns[i].left_node {
                Some(l) => if i < l < ns.len() {
                    subtree_points_ms(ns, l as int)
                } else {
                    Multiset::empty()
                },
                None => Multiset::empty(),
            };
            let rm = match ns[i].right_node {
                Some(r) => if i < r < ns.len() {
                    subtree_points_ms(ns, r as int)
                } else {
                    Multiset::empty()
                },
                None => Multiset::empty(),
            };
            assert(subtree_points_ms(ns, i) == lm.add(rm).insert(ns[i].point));
            assert(bf as int <= sqdist(p.coords(), ns[i].point.coords()));
            assert forall|q: KdtreePoint|
                #[trigger] subtree_points_ms(ns, i).contains(q) implies bf as int <= sqdist(
                p.coords(),
                q.coords(),
            ) by {
                if q != ns[i].point {
                    assert(lm.contains(q) || rm.contains(q));
                }
            }
        }
    }

    /// Returns the stored point nearest to `node` under the squared
    /// Euclidean distance: a member of the tree that no other stored point
    /// beats. A query equal in coordinates to a stored point comes back
    /// with exactly those coordinates.
    pub fn nearest_search(&self, node: &KdtreePoint) -> (r: KdtreePoint)
        requires
            self.wf(),
            point_wf(*node, self.k()),
        ensures
            self.points_ms().contains(r),
            forall|q: KdtreePoint|
                #[trigger] self.points_ms().contains(q) ==> sqdist(node.coords(), r.coords())
                    <= sqdist(node.coords(), q.coords()),
            (exists|q: KdtreePoint|
                #[trigger] self.points_ms().contains(q) && q.coords() == node.coords())
                ==> r.coords() == node.coords(),
    {
        let ghost k = self.k();
        let root_point = self.nodes[0].point;
        proof {
            lemma_subtree_points_wf(self.nodes@, 0, k);
        }
        let qdims = node.dims();
        let rdims = root_point.dims();
        let mut best_distance = squared_euclidean(&qdims, &rdims);
        let mut nearest_neighbor = 0usize;
        self.nearest_search_impl(node, 0usize, &mut best_distance, &mut nearest_neighbor);
        let res = self.nodes[nearest_neighbor].point;
        proof {
            assert(self.points_ms().contains(res));
            if exists|q: KdtreePoint|
                #[trigger] self.points_ms().contains(q) && q.coords() == node.coords() {
                let q = choose|q: KdtreePoint|
                    #[trigger] self.points_ms().contains(q) && q.coords() == node.coords();
                lemma_sqdist_self(node.coords(), q.coords());
                lemma_sqdist_prefix_nonneg(node.coords(), res.coords(), node.coords().len() as int);
                assert(sqdist(node.coords(), res.coords()) == 0);
                lemma_subtree_points_wf(self.nodes@, 0, k);
                assert(point_wf(res, k));
                lemma_sqdist_zero(node.coords(), res.coords());
                assert(res.coords() =~= node.coords());
            }
        }
        res
    }

    /// True exactly when some stored point lies within linear distance
    /// `range` of the query point, i.e. within squared distance
    /// `range * range`.
    pub fn has_neighbor_in_range(&self, node: &KdtreePoint, range: i64) -> (r: bool)
        requires
            self.wf(),
            point_wf(*node, self.k()),
        ensures
            r == exists|q: KdtreePoint|
                #[trigger] self.points_ms().contains(q) && sqdist(node.coords(), q.coords())
                    <= (range as int) * (range as int),
    {
        let rr: i128 = range as i128;
        proof {
            assert(0 <= rr * rr <= 0x4000_0000_0000_0000_0000_0000_0000_0000i128)
                by (nonlinear_arith)
                requires -0x8000_0000_0000_0000i128 <= rr <= 0x7fff_ffff_ffff_ffffi128,
            {}
        }
        let squared_range: i128 = rr * rr;
        let nearest = self.nearest_search(node);
        proof {
            lemma_subtree_points_wf(self.nodes@, 0, self.k());
            assert(point_wf(nearest, self.k()));
        }
        let qdims = node.dims();
        let ndims = nearest.dims();
        let d = squared_euclidean(&qdims, &ndims);
        let r = d <= (squared_range as u128);
        proof {
            if r {
                assert(self.points_ms().contains(nearest) && sqdist(node.coords(), nearest.coords())
                    <= (range as int) * (range as int));
            } else {
                assert forall|q: KdtreePoint|
                    #[trigger] self.points_ms().contains(q) implies sqdist(
                    node.coords(),
                    q.coords(),
                ) > (range as int) * (range as int) by {
                    assert(sqdist(node.coords(), nearest.coords()) <= sqdist(
                        node.coords(),
                        q.coords(),
                    ));
                }
            }
        }
        r
    }

    /// Walks from `current` along the split planes toward the slot where
    /// `p` belongs. At the first empty slot the point is attached as a new
    /// node splitting on `dim_new` at its own coordinate — unless the node
    /// guarding that slot equals `p` by value, in which case the tree is
    /// left untouched. Returns whether a node was attached, and the length
    /// of the walked path.
    fn insert_walk(&mut self, current: usize, p: KdtreePoint, dim_new: usize) -> (res: (
        bool,
        usize,
    ))
        requires
            child_links_ok(old(self).nodes@),
            current < old(self).nodes@.len(),
            subtree_wf(old(self).nodes@, current as int, old(self).k()),
            point_wf(p, old(self).k()),
            (dim_new as int) < old(self).k(),
        ensures
            child_links_ok(final(self).nodes@),
            subtree_wf(final(self).nodes@, current as int, old(self).k()),
            forall|j: int|
                0 <= j < old(self).nodes@.len() ==> (#[trigger] final(self).nodes@[j]).point
                    == old(self).nodes@[j].point && final(self).nodes@[j].dimension
                    == old(self).nodes@[j].dimension && final(self).nodes@[j].split_on
                    == old(self).nodes@[j].split_on,
            res.0 ==> final(self).nodes@.len() == old(self).nodes@.len() + 1 && subtree_idx(
                final(self).nodes@,
                current as int,
            ) =~= subtree_idx(old(self).nodes@, current as int).insert(old(self).nodes@.len() as int)
                && subtree_points_ms(final(self).nodes@, current as int) == subtree_points_ms(
                old(self).nodes@,
                current as int,
            ).insert(p) && (forall|j: int|
                0 <= j < old(self).nodes@.len() && !subtree_idx(
                    old(self).nodes@,
                    current as int,
                ).contains(j) ==> final(self).nodes@[j] == #[trigger] old(self).nodes@[j]),
            !res.0 ==> final(self).nodes@ == old(self).nodes@ && (exists|q: KdtreePoint|
                #[trigger] subtree_points_ms(old(self).nodes@, current as int).contains(q)
                    && q.same(&p)),
            res.0 == !(old(self).nodes@[insertion_target(
                old(self).nodes@,
                current as int,
                p,
            )].point.same(&p)),
            res.1 as int == walk_depth(old(self).nodes@, current as int, p),
            res.0 ==> ({
                let n0s = old(self).nodes@;
                let t = insertion_target(n0s, current as int, p);
                let len0 = n0s.len() as int;
                &&& final(self).nodes@.len() == len0 + 1
                &&& (forall|j: int|
                    0 <= j < len0 && j != t ==> final(self).nodes@[j] == #[trigger] n0s[j])
                &&& final(self).nodes@[t].point == n0s[t].point
                &&& final(self).nodes@[t].dimension == n0s[t].dimension
                &&& final(self).nodes@[t].split_on == n0s[t].split_on
                &&& (p.coords()[n0s[t].dimension as int] <= n0s[t].split_on
                    ==> final(self).nodes@[t].left_node == Some(len0 as usize)
                    && final(self).nodes@[t].right_node == n0s[t].right_node)
                &&& (p.coords()[n0s[t].dimension as int] > n0s[t].split_on
                    ==> final(self).nodes@[t].right_node == Some(len0 as usize)
                    && final(self).nodes@[t].left_node == n0s[t].left_node)
                &&& final(self).nodes@[len0] == (KdtreeNode {
                    left_node: None,
                    right_node: None,
                    point: p,
                    dimension: dim_new,
                    split_on: p.coords()[dim_new as int],
                })
            }),
            res.1 >= 1,
            final(self).node_adding_dimension == old(self).node_adding_dimension,
            final(self).node_depth_during_last_rebuild == old(self).node_depth_during_last_rebuild,
            final(self).current_node_depth == old(self).current_node_depth,
        decreases old(self).nodes@.len() - current,
    {
        let ghost k = old(self).k();
        let ghost ns0 = self.nodes@;
        let node = self.nodes[current];
        proof {
            assert(node_links_ok(ns0, current as int));
        }
        let c = coord_at(&p, node.dimension);
        let go_left = c <= node.split_on;
        let walked = if go_left {
            node.left_node
        } else {
            node.right_node
        };
        if let Some(child) = walked {
            proof {
                assert(subtree_wf(ns0, child as int, k));
            }
            let res = self.insert_walk(child, p, dim_new);
            proof {
                if res.0 {
                    lemma_insert_up(
                        ns0,
                        self.nodes@,
                        current as int,
                        child as int,
                        ns0.len() as int,
                        k,
                        p,
                        go_left,
                    );
                } else {
                    let q = choose|q: KdtreePoint|
                        #[trigger] subtree_points_ms(ns0, child as int).contains(q) && q.same(&p);
                    let lm = match ns0[current as int].left_node {
                        Some(l) => if current < l < ns0.len() {
                            subtree_points_ms(ns0, l as int)
                        } else {
                            Multiset::empty()
                        },
                        None => Multiset::empty(),
                    };
                    let rm = match ns0[current as int].right_node {
                        Some(r) => if current < r < ns0.len() {
                            subtree_points_ms(ns0, r as int)
                        } else {
                            Multiset::empty()
                        },
                        None => Multiset::empty(),
                    };
                    assert(subtree_points_ms(ns0, current as int) == lm.add(rm).insert(
                        ns0[current as int].point,
                    ));
                    assert(subtree_points_ms(ns0, current as int).contains(q));
                }
            }
            proof {
                assert(insertion_target(ns0, current as int, p) == insertion_target(
                    ns0,
                    child as int,
                    p,
                ));
                assert(walk_depth(ns0, current as int, p) == 1 + walk_depth(
                    ns0,
                    child as int,
                    p,
                ));
                lemma_walk_props(ns0, child as int, p);
            }
            let total_nodes = self.nodes.len();
            proof {
                assert(res.1 + 1 <= total_nodes);
            }
            (res.0, res.1 + 1)
        } else {
            if node.point.eq_point(&p) {
                proof {
                    lemma_subtree_points_wf(ns0, current as int, k);
                    assert(subtree_points_ms(ns0, current as int).contains(ns0[current as int].point)
                        && ns0[current as int].point.same(&p));
                    assert(insertion_target(ns0, current as int, p) == current as int);
                    assert(walk_depth(ns0, current as int, p) == 1);
                }
                (false, 1)
            } else {
                let new_index = self.nodes.len();
                let split_value = coord_at(&p, dim_new);
                let new_node = KdtreeNode::new(p, dim_new, split_value);
                self.nodes.push(new_node);
                let mut nd = self.nodes[current];
                if go_left {
                    nd.left_node = Some(new_index);
                } else {
                    nd.right_node = Some(new_index);
                }
                self.nodes.set(current, nd);
                proof {
                    assert(insertion_target(ns0, current as int, p) == current as int);
                    assert(walk_depth(ns0, current as int, p) == 1);
                    assert(new_node == (KdtreeNode {
                        left_node: None::<usize>,
                        right_node: None::<usize>,
                        point: p,
                        dimension: dim_new,
                        split_on: p.coords()[dim_new as int],
                    }));
                    lemma_attach(
                        ns0,
                        self.nodes@,
                        current as int,
                        new_index,
                        k,
                        p,
                        dim_new,
                        go_left,
                    );
                }
                (true, 1)
            }
        }
    }

    /// Inserts one point. The new node splits on the round-robin dimension
    /// at the point's own coordinate. The walk from the root descends by the
    /// `<=` rule to the first empty child slot; insertion is suppressed
    /// exactly when the node guarding that slot equals the point by value,
    /// so a point the tree does not yet hold is always added, and a
    /// suppressed insertion means an equal point was already stored. When
    /// the walked path grows to more than four times the depth recorded at
    /// the last rebuild, the whole tree is rebuilt from its current
    /// contents; otherwise the arena changes only by the appended node and
    /// one filled child slot.
    pub fn insert_node(&mut self, node_to_add: KdtreePoint)
        requires
            old(self).wf(),
            point_wf(node_to_add, old(self).k()),
        ensures
            final(self).wf(),
            final(self).k() == old(self).k(),
            final(self).adding_dim() == (old(self).adding_dim() + 1) % old(self).k(),
            old(self).insert_suppressed(node_to_add) ==> final(self).points_ms() == old(self).points_ms(),
            !old(self).insert_suppressed(node_to_add) ==> final(self).points_ms() == old(self).points_ms().insert(node_to_add),
            old(self).insert_suppressed(node_to_add) ==> (exists|q: KdtreePoint|
                #[trigger] old(self).points_ms().contains(q) && q.same(&node_to_add)),
            (forall|q: KdtreePoint|
                #[trigger] old(self).points_ms().contains(q) ==> !q.same(&node_to_add))
                ==> final(self).points_ms() == old(self).points_ms().insert(node_to_add),
            old(self).insert_rebuilds(node_to_add) ==> final(self).last_rebuild_depth() == final(self).tree_depth(),
            !old(self).insert_rebuilds(node_to_add) ==> ({
                let t = old(self).insert_target(node_to_add);
                let cnt = old(self).points_ms().len() as int;
                &&& final(self).last_rebuild_depth() == old(self).last_rebuild_depth()
                &&& (old(self).insert_suppressed(node_to_add) ==> (forall|j: int|
                    0 <= j < cnt ==> #[trigger] final(self).spec_node_point(j) == old(self).spec_node_point(j) && final(self).spec_node_dimension(j) == old(self).spec_node_dimension(j) && final(self).spec_node_split_on(j) == old(self).spec_node_split_on(j) && final(self).spec_node_left(j) == old(self).spec_node_left(j) && final(self).spec_node_right(j) == old(self).spec_node_right(j)))
                &&& (!old(self).insert_suppressed(node_to_add) ==> ({
                    &&& (forall|j: int|
                        0 <= j < cnt && j != t ==> #[trigger] final(self).spec_node_point(j)
                            == old(self).spec_node_point(j) && final(self).spec_node_dimension(j)
                            == old(self).spec_node_dimension(j) && final(self).spec_node_split_on(
                            j,
                        ) == old(self).spec_node_split_on(j) && final(self).spec_node_left(j)
                            == old(self).spec_node_left(j) && final(self).spec_node_right(j)
                            == old(self).spec_node_right(j))
                    &&& final(self).spec_node_point(t) == old(self).spec_node_point(t)
                    &&& final(self).spec_node_dimension(t) == old(self).spec_node_dimension(t)
                    &&& final(self).spec_node_split_on(t) == old(self).spec_node_split_on(t)
                    &&& (node_to_add.coords()[old(self).spec_node_dimension(t) as int] <= old(self).spec_node_split_on(t) ==> final(self).spec_node_left(t) == Some(
                        cnt as usize,
                    ) && final(self).spec_node_right(t) == old(self).spec_node_right(t))
                    &&& (node_to_add.coords()[old(self).spec_node_dimension(t) as int] > old(self).spec_node_split_on(t) ==> final(self).spec_node_right(t) == Some(
                        cnt as usize,
                    ) && final(self).spec_node_left(t) == old(self).spec_node_left(t))
                    &&& final(self).spec_node_point(cnt) == node_to_add
                    &&& final(self).spec_node_dimension(cnt) as int == old(self).adding_dim()
                    &&& final(self).spec_node_split_on(cnt) == node_to_add.coords()[old(self).adding_dim()]
                    &&& final(self).spec_node_left(cnt) is None
                    &&& final(self).spec_node_right(cnt) is None
                }))
            }),
    {
        let ghost k = old(self).k();
        let ghost ns0 = old(self).nodes@;
        let dimension = self.node_adding_dimension;
        let res = self.insert_walk(0, node_to_add, dimension);
        let dims_len = node_to_add.dims().len();
        self.node_adding_dimension = (dimension + 1) % dims_len;
        proof {
            assert(self.nodes@[0].point == old(self).nodes@[0].point);
            assert(self.k() == k);
            lemma_walk_props(ns0, 0, node_to_add);
            if res.0 {
                assert(self.points_ms() == old(self).points_ms().insert(node_to_add));
                assert(self.points_ms().len() == old(self).points_ms().len() + 1);
            }
            assert(self.wf());
            assert(res.0 == !old(self).insert_suppressed(node_to_add));
            assert(res.1 as int == old(self).insert_walk_depth(node_to_add));
        }
        let depth = res.1;
        if (self.node_depth_during_last_rebuild as u128) * 4 < (depth as u128) {
            proof {
                assert(old(self).insert_rebuilds(node_to_add));
            }
            self.gather_points_and_rebuild();
        } else {
            proof {
                assert(!old(self).insert_rebuilds(node_to_add));
            }
        }
    }

    /// Same traversal shape as the nearest-neighbour search, but without
    /// early termination: appends to `out` exactly the points of the
    /// subtree whose squared distance to `p` is at most `limit`.
    fn within_impl(
        &self,
        p: &KdtreePoint,
        searched_index: usize,
        limit: u128,
        out: &mut Vec<KdtreePoint>,
    )
        requires
            child_links_ok(self.nodes@),
            searched_index < self.nodes@.len(),
            subtree_wf(self.nodes@, searched_index as int, self.k()),
            point_wf(*p, self.k()),
        ensures
            final(out)@.to_multiset() == old(out)@.to_multiset().add(
                subtree_points_ms(self.nodes@, searched_index as int).filter(
                    in_range_of(p.coords(), limit as int),
                ),
            ),
        decreases self.nodes@.len() - searched_index,
    {
        let ghost k = self.k();
        let ghost ns = self.nodes@;
        let ghost i = searched_index as int;
        let ghost f = in_range_of::<KdtreePoint>(p.coords(), limit as int);
        let ghost out0 = out@;
        let node = self.nodes[searched_index];
        let splitting_value = node.split_on;
        let point_splitting_dim_value = coord_at(p, node.dimension);
        let near_le = point_splitting_dim_value <= splitting_value;
        let (closer_node, farther_node) = if near_le {
            (node.left_node, node.right_node)
        } else {
            (node.right_node, node.left_node)
        };
        proof {
            assert(node_links_ok(ns, i));
            lemma_subtree_points_wf(ns, i, k);
        }
        if let Some(closer) = closer_node {
            proof {
                assert(subtree_wf(ns, closer as int, k));
            }
            self.within_impl(p, closer, limit, out);
        }
        let ghost out1 = out@;
        let pdims = p.dims();
        let ndims = node.point.dims();
        let distance = squared_euclidean(&pdims, &ndims);
        if distance <= limit {
            out.push(node.point);
        }
        let ghost out2 = out@;
        if let Some(farther) = farther_node {
            let diff: i128 = (splitting_value as i128) - (point_splitting_dim_value as i128);
            proof {
                assert(0 <= diff * diff <= MAX_SQUARED_DIFF as int) by (nonlinear_arith)
                    requires
                        -2 * (COORD_LIMIT as i128) <= diff <= 2 * (COORD_LIMIT as i128),
                {}
            }
            let distance_on_single_dimension: u128 = (diff * diff) as u128;
            if distance_on_single_dimension <= limit {
                proof {
                    assert(subtree_wf(ns, farther as int, k));
                }
                self.within_impl(p, farther, limit, out);
            } else {
                proof {
                    lemma_prune(
                        ns,
                        farther as int,
                        k,
                        p.coords(),
                        node.dimension,
                        splitting_value,
                        diff * diff,
                        near_le,
                    );
                    assert(subtree_points_ms(ns, farther as int).filter(f)
                        =~= Multiset::<KdtreePoint>::empty()) by {
                        assert forall|x: KdtreePoint|
                            #[trigger] subtree_points_ms(ns, farther as int).filter(f).count(x)
                                == 0 by {
                            if subtree_points_ms(ns, farther as int).contains(x) {
                                assert(sqdist(p.coords(), x.coords()) > limit as int);
                                assert(!f(x));
                            }
                        }
                    }
                }
            }
        }
        proof {
            let lm = match ns[i].left_node {
                Some(l) => if i < l < ns.len() {
                    subtree_points_ms(ns, l as int)
                } else {
                    Multiset::empty()
                },
                None => Multiset::empty(),
            };
            let rm = match ns[i].right_node {
                Some(r) => if i < r < ns.len() {
                    subtree_points_ms(ns, r as int)
                } else {
                    Multiset::empty()
                },
                None => Multiset::empty(),
            };
            assert(subtree_points_ms(ns, i) == lm.add(rm).insert(ns[i].point));
            if distance <= limit {
                assert(out2.to_multiset() == out1.to_multiset().insert(ns[i].point));
            } else {
                assert(out2 == out1);
            }
            assert(f(ns[i].point) <==> sqdist(p.coords(), ns[i].point.coords()) <= limit as int);
            assert forall|x: KdtreePoint|
                out@.to_multiset().count(x) == #[trigger] out0.to_multiset().add(
                    subtree_points_ms(ns, i).filter(f),
                ).count(x) by {
                assert(subtree_points_ms(ns, i).count(x) == lm.count(x) + rm.count(x) + (
                if x == ns[i].point {
                    1int
                } else {
                    0
                }));
                assert(subtree_points_ms(ns, i).filter(f).count(x) == (if f(x) {
                    subtree_points_ms(ns, i).count(x)
                } else {
                    0
                }));
                assert(lm.filter(f).count(x) == (if f(x) {
                    lm.count(x)
                } else {
                    0
                }));
                assert(rm.filter(f).count(x) == (if f(x) {
                    rm.count(x)
                } else {
                    0
                }));
            }
            assert(out@.to_multiset() =~= out0.to_multiset().add(
                subtree_points_ms(ns, i).filter(f),
            ));
        }
    }

    /// Collects every stored point whose distance to `node` under the given
    /// metric is at most `radius`: with the Euclidean metric, the points at
    /// squared distance up to `radius * radius`; with the squared metric,
    /// those at squared distance up to `radius` itself, so the radius must
    /// be pre-squared by the caller. The order of the result is
    /// unspecified.
    pub fn within(&self, node: &KdtreePoint, radius: u128, metric: DistanceMetric) -> (r: Vec<
        KdtreePoint,
    >)
        requires
            self.wf(),
            point_wf(*node, self.k()),
        ensures
            r@.to_multiset() == self.points_ms().filter(
                in_range_of(node.coords(), within_limit(metric, radius)),
            ),
    {
        let node_dims = node.dims();
        let limit: u128 = match metric {
            DistanceMetric::Euclidean => {
                if radius > 0xffff_ffff_ffff_ffffu128 {
                    // the exact square would overflow; saturate, which below
                    // is shown to select every stored point, exactly as the
                    // oversized radius does
                    u128::MAX
                } else {
                    proof {
                        assert(0 <= radius * radius <= 0xffff_ffff_ffff_ffffu128
                            * 0xffff_ffff_ffff_ffffu128) by (nonlinear_arith)
                            requires 0 <= radius <= 0xffff_ffff_ffff_ffffu128,
                        {}
                    }
                    radius * radius
                }
            },
            DistanceMetric::SquaredEuclidean => radius,
        };
        let mut out: Vec<KdtreePoint> = Vec::new();
        self.within_impl(node, 0, limit, &mut out);
        proof {
            if limit as int == within_limit(metric, radius) {
                assert(out@.to_multiset() =~= self.points_ms().filter(
                    in_range_of(node.coords(), within_limit(metric, radius)),
                ));
            } else {
                let nc = node.coords();
                let k = self.k();
                lemma_subtree_points_wf(self.nodes@, 0, k);
                assert(k == node_dims@.len());
                assert(k <= usize::MAX as int) by {
                    assert(node_dims.len() == node_dims@.len());
                }
                assert forall|q: KdtreePoint| #[trigger] self.points_ms().contains(q) implies sqdist(
                    nc,
                    q.coords(),
                ) <= limit as int && sqdist(nc, q.coords()) <= within_limit(metric, radius) by {
                    assert(point_wf(q, k));
                    crate::distance::lemma_sqdist_prefix_bound(nc, q.coords(), k);
                    assert(k * (MAX_SQUARED_DIFF as int) < (radius as int) * (radius as int)
                        && k * (MAX_SQUARED_DIFF as int) <= u128::MAX as int) by (nonlinear_arith)
                        requires
                            0 <= k <= 0xffff_ffff_ffff_ffffint,
                            (radius as int) >= 0x1_0000_0000_0000_0000int,
                    {}
                }
                assert forall|q: KdtreePoint|
                    self.points_ms().filter(in_range_of(nc, limit as int)).count(q) == #[trigger] self.points_ms().filter(
                        in_range_of(nc, within_limit(metric, radius)),
                    ).count(q) by {
                    if self.points_ms().contains(q) {
                        assert(in_range_of(nc, limit as int)(q));
                        assert(in_range_of(nc, within_limit(metric, radius))(q));
                    } else {
                        assert(self.points_ms().count(q) == 0);
                    }
                }
                assert(self.points_ms().filter(in_range_of(nc, limit as int))
                    =~= self.points_ms().filter(in_range_of(nc, within_limit(metric, radius))));
                assert(out@.to_multiset() =~= self.points_ms().filter(
                    in_range_of(node.coords(), within_limit(metric, radius)),
                ));
            }
        }
        out
    }

    /// The point stored at arena slot `i`, as the getters below report it.
    pub closed spec fn spec_node_point(&self, i: int) -> KdtreePoint {
        self.nodes@[i].point
    }

    /// The splitting dimension stored at arena slot `i`.
    pub closed spec fn spec_node_dimension(&self, i: int) -> usize {
        self.nodes@[i].dimension
    }

    /// The splitting value stored at arena slot `i`.
    pub closed spec fn spec_node_split_on(&self, i: int) -> i64 {
        self.nodes@[i].split_on
    }

    /// The left child slot stored at arena slot `i`.
    pub closed spec fn spec_node_left(&self, i: int) -> Option<usize> {
        self.nodes@[i].left_node
    }

    /// The right child slot stored at arena slot `i`.
    pub closed spec fn spec_node_right(&self, i: int) -> Option<usize> {
        self.nodes@[i].right_node
    }

    /// Number of nodes in the arena: by the tree's invariant, exactly the
    /// number of stored points reachable from the root.
    pub fn node_count(&self) -> (n: usize)
        requires
            self.wf(),
        ensures
            n == self.points_ms().len(),
    {
        self.nodes.len()
    }

    /// The point stored at arena slot `i`.
    pub fn node_point(&self, i: usize) -> (p: KdtreePoint)
        requires
            self.wf(),
            i < self.points_ms().len(),
        ensures
            p == self.spec_node_point(i as int),
    {
        self.nodes[i].point
    }

    /// The splitting dimension of the node at arena slot `i`.
    pub fn node_dimension(&self, i: usize) -> (d: usize)
        requires
            self.wf(),
            i < self.points_ms().len(),
        ensures
            d == self.spec_node_dimension(i as int),
    {
        self.nodes[i].dimension
    }

    /// The splitting value of the node at arena slot `i`.
    pub fn node_split_on(&self, i: usize) -> (v: i64)
        requires
            self.wf(),
            i < self.points_ms().len(),
        ensures
            v == self.spec_node_split_on(i as int),
    {
        self.nodes[i].split_on
    }

    /// The left child slot of the node at arena slot `i`, if any; child
    /// slots always point forward in the arena.
    pub fn node_left(&self, i: usize) -> (r: Option<usize>)
        requires
            self.wf(),
            i < self.points_ms().len(),
        ensures
            r == self.spec_node_left(i as int),
            r is Some ==> i < r.unwrap() && (r.unwrap() as int) < self.points_ms().len(),
    {
        proof {
            assert(node_links_ok(self.nodes@, i as int));
        }
        self.nodes[i].left_node
    }

    /// The right child slot of the node at arena slot `i`, if any.
    pub fn node_right(&self, i: usize) -> (r: Option<usize>)
        requires
            self.wf(),
            i < self.points_ms().len(),
        ensures
            r == self.spec_node_right(i as int),
            r is Some ==> i < r.unwrap() && (r.unwrap() as int) < self.points_ms().len(),
    {
        proof {
            assert(node_links_ok(self.nodes@, i as int));
        }
        self.nodes[i].right_node
    }
}

/// Cardinality: a tree holding exactly the multiset of a point batch — as
/// every tree built or rebuilt from a batch does — stores exactly as many
/// points as the batch has entries, and its arena has exactly one reachable
/// node per stored point.
pub proof fn lemma_build_cardinality<P: KdtreePointTrait>(t: Kdtree<P>, batch: Seq<P>)
    requires
        t.points_ms() == batch.to_multiset(),
    ensures
        t.points_ms().len() == batch.len(),
{
}

/// Range monotonicity: with the query point fixed, a larger limit never
/// selects fewer points — the result of a range query can only grow with
/// its radius.
pub proof fn lemma_within_monotonic<P: KdtreePointTrait>(
    ms: Multiset<P>,
    qc: Seq<i64>,
    l1: int,
    l2: int,
)
    requires
        l1 <= l2,
    ensures
        ms.filter(in_range_of(qc, l1)).len() <= ms.filter(in_range_of(qc, l2)).len(),
{
    let m1 = ms.filter(in_range_of(qc, l1));
    let m2 = ms.filter(in_range_of(qc, l2));
    assert forall|x: P| #[trigger] m1.count(x) <= m2.count(x) by {
        assert(m1.count(x) == if in_range_of(qc, l1)(x) {
            ms.count(x)
        } else {
            0
        });
        assert(m2.count(x) == if in_range_of(qc, l2)(x) {
            ms.count(x)
        } else {
            0
        });
    }
    assert(m1.subset_of(m2));
    assert(m2.sub(m1).len() == m2.len() - m1.len());
}

/// A stored point within the limit — the nearest neighbour in particular,
/// whenever the limit admits its distance — is always part of the range
/// query's result.
pub proof fn lemma_nearest_in_within<P: KdtreePointTrait>(
    ms: Multiset<P>,
    qc: Seq<i64>,
    r: P,
    limit: int,
)
    requires
        ms.contains(r),
        sqdist(qc, r.coords()) <= limit,
    ensures
        ms.filter(in_range_of(qc, limit)).contains(r),
{
    assert(in_range_of(qc, limit)(r));
    assert(ms.filter(in_range_of(qc, limit)).count(r) == ms.count(r));
}

} // verus!
