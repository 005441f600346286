use crate::node::{
    all_indices, coord, greater, indices_below, lesser, max_along, min_along, BBox, Nodes,
};
use vstd::arithmetic::power2::{lemma2_to64, lemma_pow2_strictly_increases, lemma_pow2_unfold, pow2};
use vstd::prelude::*;
use vstd::seq_lib::{lemma_multiset_commutative, to_multiset_contains, to_multiset_len};

verus! {

/// The coordinates along `axis` of the points that `s` selects never decrease.
pub open spec fn sorted_along<const D: usize>(points: Seq<[i32; D]>, s: Seq<usize>, axis: int) -> bool {
    forall|k1: int, k2: int|
        0 <= k1 <= k2 < s.len() ==> coord(points, #[trigger] s[k1], axis) <= coord(
            points,
            #[trigger] s[k2],
            axis,
        )
}

/// The indices of `s` whose point has coordinate `v` along `axis`, in order.
pub open spec fn with_coord<const D: usize>(points: Seq<[i32; D]>, s: Seq<usize>, axis: int, v: int) -> Seq<usize> {
    s.filter(|i: usize| coord(points, i, axis) == v)
}

/// `output` is `input` sorted along `axis` by a stable sort: its
/// coordinates never decrease, and the indices of each coordinate value
/// come in the order that `input` gives them.
pub open spec fn stable_sort_of<const D: usize>(
    points: Seq<[i32; D]>,
    input: Seq<usize>,
    output: Seq<usize>,
    axis: int,
) -> bool {
    &&& sorted_along(points, output, axis)
    &&& forall|v: int|
        #[trigger] with_coord(points, output, axis, v) == with_coord(points, input, axis, v)
}

/// The extent of a box along axis `d`.
pub open spec fn extent<const D: usize>(b: BBox<D>, d: int) -> int {
    b.max@[d] - b.min@[d]
}

/// Among the first `n` axes, the first one of largest extent.
pub open spec fn longest_axis<const D: usize>(b: BBox<D>, n: int) -> int
    decreases n,
{
    if n <= 1 {
        0
    } else {
        let p = longest_axis(b, n - 1);
        if extent(b, n - 1) > extent(b, p) {
            n - 1
        } else {
            p
        }
    }
}

/// Relies on slice::sort_by_key, which is stable: the indices are put in
/// order of their coordinate along `axis`, and indices of equal coordinate
/// keep their relative order.
#[verifier::external_body]
fn sort_along<const D: usize>(indices: &mut Vec<usize>, nodes: &Nodes<D>, axis: usize)
    requires
        axis < D,
        indices_below(old(indices)@, nodes.points@.len() as int),
    ensures
        final(indices)@.to_multiset() == old(indices)@.to_multiset(),
        stable_sort_of(nodes.points@, old(indices)@, final(indices)@, axis as int),
{
    indices.sort_by_key(|&i| nodes.coordinate(i, axis));
}

/// One cluster: a bounding box, the indices of the points it covers and,
/// unless it is a leaf, the positions of its two children in the tree.
pub struct ClusterNode<const D: usize> {
    pub bbox: BBox<D>,
    pub indices: Vec<usize>,
    pub children: Option<[usize; 2]>,
    pub level: u32,
}

/// A binary tree of clusters stored in one array; children come before
/// their parent and the root, at position `id`, comes last.
pub struct ClusterTree<const D: usize> {
    pub nodes: Vec<ClusterNode<D>>,
    pub id: usize,
}

/// Node `i` covers some points, and an inner node covers exactly what its
/// two children, which stand before it, cover together.
pub open spec fn node_shape<const D: usize>(nodes: Seq<ClusterNode<D>>, i: int) -> bool {
    &&& nodes[i].indices@.len() > 0
    &&& match nodes[i].children {
        None => true,
        Some(ch) => {
            &&& 0 <= ch[0] < ch[1] < i
            &&& nodes[i].indices@.to_multiset() == nodes[ch[0] as int].indices@.to_multiset().add(
                nodes[ch[1] as int].indices@.to_multiset(),
            )
        },
    }
}

/// Node `i` holds what the construction makes of the list `input`: a leaf
/// keeps it as it is, an inner node sorts it stably along the longest axis
/// of its box.
pub open spec fn arranged<const D: usize>(
    nodes: Seq<ClusterNode<D>>,
    points: Seq<[i32; D]>,
    i: int,
    input: Seq<usize>,
) -> bool {
    match nodes[i].children {
        None => nodes[i].indices@ == input,
        Some(_) => stable_sort_of(points, input, nodes[i].indices@, longest_axis(nodes[i].bbox, D as int)),
    }
}

/// Node `i` is what the construction makes of its points: its box spans
/// them, a leaf holds at most `leaf_size` of them, and an inner node holds
/// them sorted along the longest axis of its box, the lower half
/// (`len / 2` of them) covered by its first child and the rest by its
/// second, both one level deeper.
pub open spec fn node_built<const D: usize>(
    nodes: Seq<ClusterNode<D>>,
    points: Seq<[i32; D]>,
    leaf_size: int,
    i: int,
) -> bool {
    let n = nodes[i];
    let len = n.indices@.len() as int;
    &&& len > 0
    &&& indices_below(n.indices@, points.len() as int)
    &&& n.bbox.spans(points, n.indices@)
    &&& match n.children {
        None => len <= leaf_size,
        Some(ch) => {
            &&& len > leaf_size
            &&& 0 <= ch[0] < ch[1] < i
            &&& sorted_along(points, n.indices@, longest_axis(n.bbox, D as int))
            &&& nodes[ch[0] as int].indices@.to_multiset() == n.indices@.take(
                len / 2,
            ).to_multiset()
            &&& nodes[ch[1] as int].indices@.to_multiset() == n.indices@.skip(
                len / 2,
            ).to_multiset()
            &&& arranged(nodes, points, ch[0] as int, n.indices@.take(len / 2))
            &&& arranged(nodes, points, ch[1] as int, n.indices@.skip(len / 2))
            &&& nodes[ch[0] as int].level == n.level + 1
            &&& nodes[ch[1] as int].level == n.level + 1
        },
    }
}

/// The index lists of the leaves among `nodes[a..b]`, one after the other.
pub open spec fn leaf_indices<const D: usize>(nodes: Seq<ClusterNode<D>>, a: int, b: int) -> Seq<
    usize,
>
    decreases b - a,
{
    if b <= a {
        Seq::empty()
    } else {
        leaf_indices(nodes, a, b - 1) + if nodes[b - 1].children is None {
            nodes[b - 1].indices@
        } else {
            Seq::empty()
        }
    }
}

/// Splitting the range of `leaf_indices` splits its result.
proof fn lemma_leaf_indices_split<const D: usize>(
    nodes: Seq<ClusterNode<D>>,
    a: int,
    b: int,
    c: int,
)
    requires
        a <= b <= c,
    ensures
        leaf_indices(nodes, a, c) =~= leaf_indices(nodes, a, b) + leaf_indices(nodes, b, c),
    decreases c - b,
{
    if c > b {
        lemma_leaf_indices_split(nodes, a, b, c - 1);
    }
}

/// `leaf_indices` over a range reads only the nodes in it.
proof fn lemma_leaf_indices_prefix<const D: usize>(
    n1: Seq<ClusterNode<D>>,
    n2: Seq<ClusterNode<D>>,
    a: int,
    b: int,
)
    requires
        0 <= a,
        b <= n1.len() <= n2.len(),
        forall|j: int| 0 <= j < n1.len() ==> n2[j] == n1[j],
    ensures
        leaf_indices(n1, a, b) == leaf_indices(n2, a, b),
    decreases b - a,
{
    if b > a {
        lemma_leaf_indices_prefix(n1, n2, a, b - 1);
        assert(n2[b - 1] == n1[b - 1]);
    }
}

/// The lowest coordinate is at most every coordinate and is one of them;
/// likewise the highest.
proof fn lemma_min_max_attained<const D: usize>(points: Seq<[i32; D]>, s: Seq<usize>, d: int)
    requires
        s.len() > 0,
    ensures
        forall|k: int|
            0 <= k < s.len() ==> min_along(points, s, d) <= coord(points, #[trigger] s[k], d)
                <= max_along(points, s, d),
        exists|k: int| 0 <= k < s.len() && min_along(points, s, d) == coord(points, s[k], d),
        exists|k: int| 0 <= k < s.len() && max_along(points, s, d) == coord(points, s[k], d),
    decreases s.len(),
{
    if s.len() > 1 {
        let t = s.drop_last();
        lemma_min_max_attained(points, t, d);
        assert forall|k: int| 0 <= k < s.len() implies min_along(points, s, d) <= coord(
            points,
            #[trigger] s[k],
            d,
        ) <= max_along(points, s, d) by {
            if k < s.len() - 1 {
                assert(s[k] == t[k]);
            }
        }
        let k1 = choose|k: int| 0 <= k < t.len() && min_along(points, t, d) == coord(points, t[k], d);
        let k2 = choose|k: int| 0 <= k < t.len() && max_along(points, t, d) == coord(points, t[k], d);
        assert(s[k1] == t[k1]);
        assert(s[k2] == t[k2]);
        let l = s.len() - 1;
        if min_along(points, s, d) == min_along(points, t, d) {
            assert(min_along(points, s, d) == coord(points, s[k1], d));
        } else {
            assert(min_along(points, s, d) == coord(points, s[l], d));
        }
        if max_along(points, s, d) == max_along(points, t, d) {
            assert(max_along(points, s, d) == coord(points, s[k2], d));
        } else {
            assert(max_along(points, s, d) == coord(points, s[l], d));
        }
    } else {
        assert(min_along(points, s, d) == coord(points, s[0], d));
    }
}

/// Two index lists with the same elements have the same extreme coordinates.
proof fn lemma_min_max_same_elements<const D: usize>(
    points: Seq<[i32; D]>,
    s1: Seq<usize>,
    s2: Seq<usize>,
    d: int,
)
    requires
        s1.len() > 0,
        s2.len() > 0,
        forall|x: usize| s1.contains(x) <==> s2.contains(x),
    ensures
        min_along(points, s1, d) == min_along(points, s2, d),
        max_along(points, s1, d) == max_along(points, s2, d),
{
    lemma_min_max_attained(points, s1, d);
    lemma_min_max_attained(points, s2, d);
    let a1 = choose|k: int| 0 <= k < s1.len() && min_along(points, s1, d) == coord(points, s1[k], d);
    let a2 = choose|k: int| 0 <= k < s2.len() && min_along(points, s2, d) == coord(points, s2[k], d);
    let b1 = choose|k: int| 0 <= k < s1.len() && max_along(points, s1, d) == coord(points, s1[k], d);
    let b2 = choose|k: int| 0 <= k < s2.len() && max_along(points, s2, d) == coord(points, s2[k], d);
    assert(s2.contains(s1[a1]));
    assert(s1.contains(s2[a2]));
    assert(s2.contains(s1[b1]));
    assert(s1.contains(s2[b2]));
}

/// The extreme coordinates of a concatenation.
proof fn lemma_min_max_concat<const D: usize>(
    points: Seq<[i32; D]>,
    s1: Seq<usize>,
    s2: Seq<usize>,
    d: int,
)
    requires
        s1.len() > 0,
        s2.len() > 0,
    ensures
        min_along(points, s1 + s2, d) == lesser(min_along(points, s1, d), min_along(points, s2, d)),
        max_along(points, s1 + s2, d) == greater(max_along(points, s1, d), max_along(points, s2, d)),
{
    let s = s1 + s2;
    lemma_min_max_attained(points, s1, d);
    lemma_min_max_attained(points, s2, d);
    lemma_min_max_attained(points, s, d);
    assert forall|k: int| 0 <= k < s1.len() implies s[k] == s1[k] by {}
    assert forall|k: int| 0 <= k < s2.len() implies s[s1.len() + k] == s2[k] by {}
    let a1 = choose|k: int| 0 <= k < s1.len() && min_along(points, s1, d) == coord(points, s1[k], d);
    let a2 = choose|k: int| 0 <= k < s2.len() && min_along(points, s2, d) == coord(points, s2[k], d);
    let b1 = choose|k: int| 0 <= k < s1.len() && max_along(points, s1, d) == coord(points, s1[k], d);
    let b2 = choose|k: int| 0 <= k < s2.len() && max_along(points, s2, d) == coord(points, s2[k], d);
    assert(s[a1] == s1[a1]);
    assert(s[s1.len() + a2] == s2[a2]);
    assert(s[b1] == s1[b1]);
    assert(s[s1.len() + b2] == s2[b2]);
    let m = choose|k: int| 0 <= k < s.len() && min_along(points, s, d) == coord(points, s[k], d);
    let n = choose|k: int| 0 <= k < s.len() && max_along(points, s, d) == coord(points, s[k], d);
    if m >= s1.len() {
        assert(s[m] == s2[m - s1.len()]);
    }
    if n >= s1.len() {
        assert(s[n] == s2[n - s1.len()]);
    }
}

/// Two lists with the same multiset have the same elements.
proof fn lemma_same_elements(s1: Seq<usize>, s2: Seq<usize>)
    requires
        s1.to_multiset() == s2.to_multiset(),
    ensures
        forall|x: usize| s1.contains(x) <==> s2.contains(x),
        s1.len() == s2.len(),
{
    to_multiset_len(s1);
    to_multiset_len(s2);
    assert forall|x: usize| s1.contains(x) <==> s2.contains(x) by {
        to_multiset_contains(s1, x);
        to_multiset_contains(s2, x);
    }
}

/// A box that spans a list spans every list with the same multiset.
proof fn lemma_spans_permutation<const D: usize>(
    points: Seq<[i32; D]>,
    b: BBox<D>,
    s1: Seq<usize>,
    s2: Seq<usize>,
)
    requires
        s1.len() > 0,
        s1.to_multiset() == s2.to_multiset(),
        b.spans(points, s1),
    ensures
        b.spans(points, s2),
{
    lemma_same_elements(s1, s2);
    assert forall|d: int| 0 <= d < D implies b.min@[d] == min_along(points, s2, d) && b.max@[d]
        == max_along(points, s2, d) by {
        lemma_min_max_same_elements(points, s1, s2, d);
    }
}

/// Indices below `n` stay below `n` under a permutation.
proof fn lemma_below_permutation(s1: Seq<usize>, s2: Seq<usize>, n: int)
    requires
        s1.to_multiset() == s2.to_multiset(),
        indices_below(s1, n),
    ensures
        indices_below(s2, n),
{
    lemma_same_elements(s1, s2);
    assert forall|k: int| 0 <= k < s2.len() implies s2[k] < n by {
        assert(s2.contains(s2[k]));
        let j = choose|j: int| 0 <= j < s1.len() && s1[j] == s2[k];
    }
}

/// `node_built` of a node survives appending nodes after it.
proof fn lemma_node_built_prefix<const D: usize>(
    n1: Seq<ClusterNode<D>>,
    n2: Seq<ClusterNode<D>>,
    points: Seq<[i32; D]>,
    leaf_size: int,
    i: int,
)
    requires
        0 <= i < n1.len() <= n2.len(),
        forall|j: int| 0 <= j < n1.len() ==> n2[j] == n1[j],
        node_built(n1, points, leaf_size, i),
    ensures
        node_built(n2, points, leaf_size, i),
{
    assert(n2[i] == n1[i]);
    if let Some(ch) = n1[i].children {
        assert(n2[ch[0] as int] == n1[ch[0] as int]);
        assert(n2[ch[1] as int] == n1[ch[1] as int]);
    }
}

impl<const D: usize> ClusterTree<D> {
    /// The tree's shape: it has nodes, the root is the last one, every node
    /// is shaped as `node_shape` says, and the leaves together cover what
    /// the root covers.
    pub open spec fn wf(&self) -> bool {
        &&& self.nodes@.len() > 0
        &&& self.id == self.nodes@.len() - 1
        &&& forall|i: int| 0 <= i < self.nodes@.len() ==> node_shape(self.nodes@, i)
        &&& leaf_indices(self.nodes@, 0, self.nodes@.len() as int).to_multiset()
            == self.nodes@[self.id as int].indices@.to_multiset()
    }

    /// Every index list of the tree selects among `n` points.
    pub open spec fn indexes_within(&self, n: int) -> bool {
        forall|i: int| 0 <= i < self.nodes@.len() ==> indices_below(#[trigger] self.nodes@[i].indices@, n)
    }

    /// The root covers each of the `n` points exactly once.
    pub open spec fn covers(&self, n: int) -> bool {
        self.nodes@[self.id as int].indices@.to_multiset() == all_indices(n).to_multiset()
    }

    /// The tree is the one built over `points` with leaves of at most
    /// `leaf_size` points, starting from the indices `0..points.len()` in
    /// order at level 0.
    pub open spec fn built_from(&self, points: Seq<[i32; D]>, leaf_size: int) -> bool {
        &&& self.wf()
        &&& self.covers(points.len() as int)
        &&& arranged(self.nodes@, points, self.id as int, all_indices(points.len() as int))
        &&& self.nodes@[self.id as int].level == 0
        &&& forall|i: int| 0 <= i < self.nodes@.len() ==> node_built(self.nodes@, points, leaf_size, i)
    }
}

/// In a tree built over `points` with leaf size `leaf_size`, no leaf holds
/// more than `leaf_size` indices, and the index lists of all the leaves
/// together hold each index of `0..points.len()` exactly once.
pub proof fn lemma_leaves_partition<const D: usize>(
    tree: &ClusterTree<D>,
    points: Seq<[i32; D]>,
    leaf_size: int,
)
    requires
        tree.built_from(points, leaf_size),
    ensures
        forall|i: int|
            0 <= i < tree.nodes@.len() && tree.nodes@[i].children is None
                ==> tree.nodes@[i].indices@.len() <= leaf_size,
        leaf_indices(tree.nodes@, 0, tree.nodes@.len() as int).to_multiset() == all_indices(
            points.len() as int,
        ).to_multiset(),
{
    assert forall|i: int|
        0 <= i < tree.nodes@.len() && tree.nodes@[i].children is None implies tree.nodes@[i].indices@.len()
        <= leaf_size by {
        assert(node_built(tree.nodes@, points, leaf_size, i));
    }
}

/// In a tree built over `points`, the box of every inner node is the
/// union of the boxes of its two children.
pub proof fn lemma_bbox_union<const D: usize>(
    tree: &ClusterTree<D>,
    points: Seq<[i32; D]>,
    leaf_size: int,
    i: int,
)
    requires
        tree.built_from(points, leaf_size),
        0 <= i < tree.nodes@.len(),
        tree.nodes@[i].children is Some,
    ensures
        tree.nodes@[i].bbox.is_union(
            tree.nodes@[tree.nodes@[i].children->0[0] as int].bbox,
            tree.nodes@[tree.nodes@[i].children->0[1] as int].bbox,
        ),
{
    let ns = tree.nodes@;
    let ch = ns[i].children->0;
    let l = ns[ch[0] as int];
    let r = ns[ch[1] as int];
    assert(node_built(ns, points, leaf_size, i));
    assert(node_built(ns, points, leaf_size, ch[0] as int));
    assert(node_built(ns, points, leaf_size, ch[1] as int));
    assert(node_shape(ns, i));
    lemma_multiset_commutative(l.indices@, r.indices@);
    lemma_same_elements(ns[i].indices@, l.indices@ + r.indices@);
    assert forall|d: int| 0 <= d < D implies ns[i].bbox.min@[d] == lesser(
        l.bbox.min@[d] as int,
        r.bbox.min@[d] as int,
    ) && ns[i].bbox.max@[d] == greater(l.bbox.max@[d] as int, r.bbox.max@[d] as int) by {
        lemma_min_max_same_elements(points, ns[i].indices@, l.indices@ + r.indices@, d);
        lemma_min_max_concat(points, l.indices@, r.indices@, d);
    }
}

impl<const D: usize> ClusterTree<D> {
    /// Appends the subtree over `indices` at depth `level` and returns the
    /// position of its root, which is the last node appended.
    fn build_nodes(&mut self, nodes: &Nodes<D>, indices: Vec<usize>, level: u32, leaf_size: usize) -> (id: usize)
        requires
            D >= 1,
            leaf_size >= 1,
            indices@.len() > 0,
            indices_below(indices@, nodes.points@.len() as int),
            (indices@.len() - 1) * pow2(level as nat) <= usize::MAX,
        ensures
            old(self).nodes@.len() <= id,
            id + 1 == final(self).nodes@.len(),
            forall|j: int|
                0 <= j < old(self).nodes@.len() ==> final(self).nodes@[j] == old(self).nodes@[j],
            forall|i: int|
                old(self).nodes@.len() <= i < final(self).nodes@.len() ==> node_built(
                    final(self).nodes@,
                    nodes.points@,
                    leaf_size as int,
                    i,
                ),
            final(self).nodes@[id as int].indices@.to_multiset() == indices@.to_multiset(),
            final(self).nodes@[id as int].level == level,
            arranged(final(self).nodes@, nodes.points@, id as int, indices@),
            leaf_indices(
                final(self).nodes@,
                old(self).nodes@.len() as int,
                final(self).nodes@.len() as int,
            ).to_multiset() == indices@.to_multiset(),
            final(self).id == old(self).id,
        decreases indices@.len(),
    {
        let ghost a = self.nodes@.len() as int;
        let ghost pts = nodes.points@;
        let bbox: BBox<D> = nodes.bbox_from_indices(indices.as_slice());

        if indices.len() <= leaf_size {
            let id: usize = self.nodes.len();
            let ghost iv = indices@;
            self.nodes.push(ClusterNode { bbox, indices, children: None, level });
            proof {
                assert(self.nodes@[a].indices@ == iv);
                assert(leaf_indices(self.nodes@, a, a) =~= Seq::<usize>::empty());
                assert(leaf_indices(self.nodes@, a, a + 1) =~= iv);
            }
            return id;
        }

        // the axis of largest extent, the first one among equals
        let mut longest_dim: usize = 0;
        let mut longest_len: i64 = bbox.max[0] as i64 - bbox.min[0] as i64;
        let mut d: usize = 1;
        while d < D
            invariant
                1 <= d <= D,
                longest_dim < d,
                longest_dim == longest_axis(bbox, d as int),
                longest_len == extent(bbox, longest_dim as int),
            decreases D - d,
        {
            let len: i64 = bbox.max[d] as i64 - bbox.min[d] as i64;
            if len > longest_len {
                longest_len = len;
                longest_dim = d;
            }
            d = d + 1;
        }

        let mut sorted: Vec<usize> = indices;
        sort_along(&mut sorted, nodes, longest_dim);
        assert(longest_dim == longest_axis(bbox, D as int));

        // bisect: the lower half gets len / 2 indices
        let mid: usize = sorted.len() / 2;
        let mut left_indices: Vec<usize> = sorted.clone();
        assert(left_indices@ =~= sorted@);
        let right_indices: Vec<usize> = left_indices.split_off(mid);

        proof {
            let len = indices@.len() as int;
            lemma_same_elements(indices@, sorted@);
            lemma_below_permutation(indices@, sorted@, pts.len() as int);
            lemma_spans_permutation(pts, bbox, indices@, sorted@);
            assert(pow2(level as nat) <= usize::MAX) by (nonlinear_arith)
                requires
                    (len - 1) * pow2(level as nat) <= usize::MAX,
                    len >= 2,
            ;
            lemma2_to64();
            if level > 64 {
                lemma_pow2_strictly_increases(64, level as nat);
            }
            lemma_pow2_unfold(level as nat + 1);
            let p = pow2(level as nat) as int;
            let m = mid as int;
            assert((m - 1) * (2 * p) <= (len - 1) * p) by (nonlinear_arith)
                requires
                    2 * m <= len,
                    p >= 0,
            ;
            assert((len - m - 1) * (2 * p) <= (len - 1) * p) by (nonlinear_arith)
                requires
                    2 * m + 1 >= len,
                    p >= 0,
            ;
            assert forall|k: int| 0 <= k < left_indices@.len() implies left_indices@[k] < pts.len() by {
                assert(left_indices@[k] == sorted@[k]);
            }
            assert forall|k: int| 0 <= k < right_indices@.len() implies right_indices@[k] < pts.len() by {
                assert(right_indices@[k] == sorted@[m + k]);
            }
        }

        let left_id: usize = self.build_nodes(nodes, left_indices, level + 1, leaf_size);
        let ghost after_left = self.nodes@;
        let right_id: usize = self.build_nodes(nodes, right_indices, level + 1, leaf_size);
        let ghost after_right = self.nodes@;

        let id: usize = self.nodes.len();
        self.nodes.push(
            ClusterNode { bbox, indices: sorted, children: Some([left_id, right_id]), level },
        );

        proof {
            let fin = self.nodes@;
            let b = after_left.len() as int;
            assert(fin[id as int] == ClusterNode::<D> {
                bbox,
                indices: sorted,
                children: Some([left_id, right_id]),
                level,
            });
            assert forall|j: int| 0 <= j < after_right.len() implies fin[j] == after_right[j] by {}
            assert forall|j: int| 0 <= j < after_left.len() implies fin[j] == after_left[j] by {}
            assert(sorted@.take(mid as int) =~= left_indices@);
            assert(sorted@.skip(mid as int) =~= right_indices@);
            assert forall|i: int| a <= i < fin.len() implies node_built(
                fin,
                pts,
                leaf_size as int,
                i,
            ) by {
                if i < b {
                    lemma_node_built_prefix(after_left, after_right, pts, leaf_size as int, i);
                    lemma_node_built_prefix(after_right, fin, pts, leaf_size as int, i);
                } else if i < id {
                    lemma_node_built_prefix(after_right, fin, pts, leaf_size as int, i);
                }
            }
            lemma_leaf_indices_split(fin, a, b, id as int);
            lemma_leaf_indices_split(fin, a, id as int, id as int + 1);
            lemma_leaf_indices_prefix(after_left, fin, a, b);
            lemma_leaf_indices_prefix(after_right, fin, b, id as int);
            assert(leaf_indices(fin, id as int, id as int + 1) =~= Seq::<usize>::empty());
            assert(leaf_indices(fin, a, id as int) =~= leaf_indices(fin, a, id as int + 1));
            lemma_multiset_commutative(left_indices@, right_indices@);
            lemma_multiset_commutative(leaf_indices(fin, a, b), leaf_indices(fin, b, id as int));
            assert(left_indices@ + right_indices@ =~= sorted@);
        }
        id
    }

    /// Builds the cluster tree of `nodes`: a cluster with more than
    /// `leaf_size` points is split in two along the longest axis of its
    /// box, at the median of the points sorted along that axis.
    pub fn build_tree(nodes: &Nodes<D>, leaf_size: usize) -> (tree: Self)
        requires
            D >= 1,
            leaf_size >= 1,
            nodes.wf(),
        ensures
            tree.built_from(nodes.points@, leaf_size as int),
            tree.indexes_within(nodes.points@.len() as int),
    {
        let mut tree: ClusterTree<D> = ClusterTree { nodes: Vec::new(), id: 0 };

        let n: usize = nodes.points.len();
        let mut all: Vec<usize> = Vec::new();
        let mut i: usize = 0;
        while i < n
            invariant
                i <= n,
                all@ =~= all_indices(i as int),
            decreases n - i,
        {
            all.push(i);
            i = i + 1;
        }
        proof {
            assert(pow2(0) == 1) by {
                lemma2_to64();
            }
        }
        let ghost all_view = all@;
        let id: usize = tree.build_nodes(nodes, all, 0, leaf_size);
        tree.id = id;
        proof {
            let ns = tree.nodes@;
            assert forall|i: int| 0 <= i < ns.len() implies node_shape(ns, i) by {
                assert(node_built(ns, nodes.points@, leaf_size as int, i));
                if let Some(ch) = ns[i].children {
                    let len = ns[i].indices@.len() as int;
                    assert(ns[i].indices@ =~= ns[i].indices@.take(len / 2) + ns[i].indices@.skip(
                        len / 2,
                    ));
                    lemma_multiset_commutative(
                        ns[i].indices@.take(len / 2),
                        ns[i].indices@.skip(len / 2),
                    );
                }
            }
            assert forall|i: int| 0 <= i < ns.len() implies indices_below(
                #[trigger] ns[i].indices@,
                nodes.points@.len() as int,
            ) by {
                assert(node_built(ns, nodes.points@, leaf_size as int, i));
            }
        }
        tree
    }
}

} // verus!
