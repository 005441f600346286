use crate::cluster::{ClusterTree, node_shape};
use crate::node::{all_indices, sq_dist, BBox, MAX_DIM};
use vstd::prelude::*;
use vstd::seq_lib::{to_multiset_build, to_multiset_contains};

verus! {

/// How a leaf block is stored: densely (`Near`) or compressed (`Far`).
#[derive(PartialEq, Eq, Structural, Clone, Copy, Debug)]
pub enum BlockType {
    Near,
    Far,
}

/// One block: a target cluster and a source cluster (positions in the two
/// cluster trees), its child blocks unless it is a leaf, and its type.
pub struct BlockNode {
    pub target_index: usize,
    pub source_index: usize,
    pub children: Option<Vec<usize>>,
    pub block_type: BlockType,
}

/// A tree of blocks stored in one array; children come before their
/// parent and the root, at position `id`, comes last.
pub struct BlockTree {
    pub nodes: Vec<BlockNode>,
    pub id: usize,
}

/// The centres of the two boxes are more than `max_dist` apart: the
/// squared distance of the doubled centres exceeds `(2 * max_dist)^2`.
pub open spec fn far_apart<const D: usize>(source_bbox: BBox<D>, target_bbox: BBox<D>, max_dist: u32) -> bool {
    sq_dist(source_bbox.centre_spec(), target_bbox.centre_spec()) > 4 * (max_dist * max_dist)
}

/// Whether two clusters are far enough apart for their block to be
/// compressed: their centres are more than `max_dist` apart.
pub fn is_far<const D: usize>(source_bbox: &BBox<D>, target_bbox: &BBox<D>, max_dist: u32) -> (r: bool)
    requires
        D <= MAX_DIM,
    ensures
        r == far_apart(*source_bbox, *target_bbox, max_dist),
{
    let dist: i128 = BBox::bbox_distance(source_bbox, target_bbox);
    let m: i128 = max_dist as i128;
    assert(m * m <= 0xFFFF_FFFF * 0xFFFF_FFFF) by (nonlinear_arith)
        requires
            0 <= m <= 0xFFFF_FFFF,
    ;
    let bound: i128 = 4 * (m * m);
    dist > bound
}

/// How many times the index list of cluster `i` holds `x`.
pub open spec fn count_in<const D: usize>(tree: ClusterTree<D>, i: int, x: usize) -> int {
    tree.nodes@[i].indices@.to_multiset().count(x) as int
}

/// The (target, source) cluster pairs that the block of `ti` and `si`
/// splits into: every child of an inner cluster with every child of the
/// other, or with the other cluster itself where that one is a leaf.
pub open spec fn child_pairs<const D: usize>(
    target_tree: ClusterTree<D>,
    source_tree: ClusterTree<D>,
    ti: usize,
    si: usize,
) -> Seq<(usize, usize)> {
    match (target_tree.nodes@[ti as int].children, source_tree.nodes@[si as int].children) {
        (Some(tc), Some(sc)) => seq![(tc[0], sc[0]), (tc[0], sc[1]), (tc[1], sc[0]), (tc[1], sc[1])],
        (Some(tc), None) => seq![(tc[0], si), (tc[1], si)],
        (None, Some(sc)) => seq![(ti, sc[0]), (ti, sc[1])],
        (None, None) => seq![],
    }
}

/// Block `k` is what the construction makes of its cluster pair: a far
/// pair is a `Far` leaf; a near pair of two leaf clusters is a `Near` leaf;
/// any other near pair is a `Near` block whose children, placed before it,
/// are the blocks of `child_pairs` in that order.
pub open spec fn block_built<const D: usize>(
    blocks: Seq<BlockNode>,
    target_tree: ClusterTree<D>,
    source_tree: ClusterTree<D>,
    max_dist: u32,
    k: int,
) -> bool {
    let b = blocks[k];
    let t = target_tree.nodes@[b.target_index as int];
    let s = source_tree.nodes@[b.source_index as int];
    &&& b.target_index < target_tree.nodes@.len()
    &&& b.source_index < source_tree.nodes@.len()
    &&& match b.block_type {
        BlockType::Far => far_apart(s.bbox, t.bbox, max_dist) && b.children is None,
        BlockType::Near => {
            &&& !far_apart(s.bbox, t.bbox, max_dist)
            &&& match b.children {
                None => t.children is None && s.children is None,
                Some(ch) => {
                    let ps = child_pairs(target_tree, source_tree, b.target_index, b.source_index);
                    &&& !(t.children is None && s.children is None)
                    &&& ch@.len() == ps.len()
                    &&& forall|j: int|
                        0 <= j < ch@.len() ==> ch@[j] < k && blocks[ch@[j] as int].target_index
                            == ps[j].0 && blocks[ch@[j] as int].source_index == ps[j].1
                },
            }
        },
    }
}

/// How many times the leaves among `blocks[lo..hi]` cover the (row,
/// column) pair `(r, c)`, counting repeated indices as often as they occur.
pub open spec fn leaf_cover<const D: usize>(
    blocks: Seq<BlockNode>,
    target_tree: ClusterTree<D>,
    source_tree: ClusterTree<D>,
    lo: int,
    hi: int,
    r: usize,
    c: usize,
) -> int
    decreases hi - lo,
{
    if hi <= lo {
        0
    } else {
        leaf_cover(blocks, target_tree, source_tree, lo, hi - 1, r, c) + if blocks[hi
            - 1].children is None {
            count_in(target_tree, blocks[hi - 1].target_index as int, r) * count_in(
                source_tree,
                blocks[hi - 1].source_index as int,
                c,
            )
        } else {
            0
        }
    }
}

/// How many times the blocks of the cluster pairs `ps` would cover `(r, c)`.
pub open spec fn pair_cover<const D: usize>(
    target_tree: ClusterTree<D>,
    source_tree: ClusterTree<D>,
    ps: Seq<(usize, usize)>,
    r: usize,
    c: usize,
) -> int
    decreases ps.len(),
{
    if ps.len() == 0 {
        0
    } else {
        pair_cover(target_tree, source_tree, ps.drop_last(), r, c) + count_in(
            target_tree,
            ps.last().0 as int,
            r,
        ) * count_in(source_tree, ps.last().1 as int, c)
    }
}

/// Splitting the range of `leaf_cover` splits its sum.
proof fn lemma_leaf_cover_split<const D: usize>(
    blocks: Seq<BlockNode>,
    target_tree: ClusterTree<D>,
    source_tree: ClusterTree<D>,
    a: int,
    b: int,
    c: int,
    r: usize,
    col: usize,
)
    requires
        a <= b <= c,
    ensures
        leaf_cover(blocks, target_tree, source_tree, a, c, r, col) == leaf_cover(
            blocks,
            target_tree,
            source_tree,
            a,
            b,
            r,
            col,
        ) + leaf_cover(blocks, target_tree, source_tree, b, c, r, col),
    decreases c - b,
{
    if c > b {
        lemma_leaf_cover_split(blocks, target_tree, source_tree, a, b, c - 1, r, col);
    }
}

/// `leaf_cover` over a range reads only the blocks in it.
proof fn lemma_leaf_cover_prefix<const D: usize>(
    n1: Seq<BlockNode>,
    n2: Seq<BlockNode>,
    target_tree: ClusterTree<D>,
    source_tree: ClusterTree<D>,
    a: int,
    b: int,
    r: usize,
    c: usize,
)
    requires
        0 <= a,
        b <= n1.len() <= n2.len(),
        forall|j: int| 0 <= j < n1.len() ==> n2[j] == n1[j],
    ensures
        leaf_cover(n1, target_tree, source_tree, a, b, r, c) == leaf_cover(
            n2,
            target_tree,
            source_tree,
            a,
            b,
            r,
            c,
        ),
    decreases b - a,
{
    if b > a {
        lemma_leaf_cover_prefix(n1, n2, target_tree, source_tree, a, b - 1, r, c);
        assert(n2[b - 1] == n1[b - 1]);
    }
}

/// `block_built` of a block survives appending blocks after it.
proof fn lemma_block_built_prefix<const D: usize>(
    n1: Seq<BlockNode>,
    n2: Seq<BlockNode>,
    target_tree: ClusterTree<D>,
    source_tree: ClusterTree<D>,
    max_dist: u32,
    k: int,
)
    requires
        0 <= k < n1.len() <= n2.len(),
        forall|j: int| 0 <= j < n1.len() ==> n2[j] == n1[j],
        block_built(n1, target_tree, source_tree, max_dist, k),
    ensures
        block_built(n2, target_tree, source_tree, max_dist, k),
{
    assert(n2[k] == n1[k]);
    if let Some(ch) = n1[k].children {
        assert forall|j: int| 0 <= j < ch@.len() implies n2[ch@[j] as int] == n1[ch@[j] as int] by {}
    }
}

/// The blocks of the child pairs of an inner pair cover together what the
/// pair's own block would.
proof fn lemma_child_pairs_cover<const D: usize>(
    target_tree: ClusterTree<D>,
    source_tree: ClusterTree<D>,
    ti: usize,
    si: usize,
    r: usize,
    c: usize,
)
    requires
        target_tree.wf(),
        source_tree.wf(),
        ti < target_tree.nodes@.len(),
        si < source_tree.nodes@.len(),
        !(target_tree.nodes@[ti as int].children is None && source_tree.nodes@[si as int].children is None),
    ensures
        pair_cover(target_tree, source_tree, child_pairs(target_tree, source_tree, ti, si), r, c)
            == count_in(target_tree, ti as int, r) * count_in(source_tree, si as int, c),
{
    let ps = child_pairs(target_tree, source_tree, ti, si);
    reveal_with_fuel(pair_cover, 5);
    assert(node_shape(target_tree.nodes@, ti as int));
    assert(node_shape(source_tree.nodes@, si as int));
    let t = count_in(target_tree, ti as int, r);
    let s = count_in(source_tree, si as int, c);
    match (target_tree.nodes@[ti as int].children, source_tree.nodes@[si as int].children) {
        (Some(tc), Some(sc)) => {
            let t0 = count_in(target_tree, tc[0] as int, r);
            let t1 = count_in(target_tree, tc[1] as int, r);
            let s0 = count_in(source_tree, sc[0] as int, c);
            let s1 = count_in(source_tree, sc[1] as int, c);
            assert(ps.drop_last().drop_last().drop_last().drop_last() =~= Seq::<(usize, usize)>::empty());
            assert(t == t0 + t1);
            assert(s == s0 + s1);
            assert(t * s == t0 * s0 + t0 * s1 + t1 * s0 + t1 * s1) by (nonlinear_arith)
                requires
                    t == t0 + t1,
                    s == s0 + s1,
            ;
        },
        (Some(tc), None) => {
            let t0 = count_in(target_tree, tc[0] as int, r);
            let t1 = count_in(target_tree, tc[1] as int, r);
            assert(ps.drop_last().drop_last() =~= Seq::<(usize, usize)>::empty());
            assert(t == t0 + t1);
            assert(t * s == t0 * s + t1 * s) by (nonlinear_arith)
                requires
                    t == t0 + t1,
            ;
        },
        (None, Some(sc)) => {
            let s0 = count_in(source_tree, sc[0] as int, c);
            let s1 = count_in(source_tree, sc[1] as int, c);
            assert(ps.drop_last().drop_last() =~= Seq::<(usize, usize)>::empty());
            assert(s == s0 + s1);
            assert(t * s == t * s0 + t * s1) by (nonlinear_arith)
                requires
                    s == s0 + s1,
            ;
        },
        (None, None) => {},
    }
}

/// The positions of the leaves among the first `hi` blocks, in order.
pub open spec fn leaf_positions(blocks: Seq<BlockNode>, hi: int) -> Seq<int>
    decreases hi,
{
    if hi <= 0 {
        Seq::empty()
    } else if blocks[hi - 1].children is None {
        leaf_positions(blocks, hi - 1).push(hi - 1)
    } else {
        leaf_positions(blocks, hi - 1)
    }
}

/// The positions of leaves below `hi` lie below `hi` and are leaves.
pub proof fn lemma_leaf_positions(blocks: Seq<BlockNode>, hi: int)
    ensures
        forall|m: int|
            0 <= m < leaf_positions(blocks, hi).len() ==> 0 <= #[trigger] leaf_positions(blocks, hi)[m]
                < hi && blocks[leaf_positions(blocks, hi)[m]].children is None,
    decreases hi,
{
    if hi > 0 {
        lemma_leaf_positions(blocks, hi - 1);
    }
}

/// A leaf block resolved to point indices: its rows are the indices of
/// its target cluster, its columns those of its source cluster.
pub struct LeafBlock {
    pub rows: Vec<usize>,
    pub cols: Vec<usize>,
    pub block_type: BlockType,
}

/// `0..n` holds each index below `n` once and no other.
proof fn lemma_all_indices_count(n: int, x: usize)
    requires
        0 <= n <= usize::MAX,
    ensures
        all_indices(n).to_multiset().count(x) == if x < n {
            1nat
        } else {
            0nat
        },
    decreases n,
{
    broadcast use vstd::multiset::group_multiset_axioms;

    if n == 0 {
        assert(all_indices(0) =~= Seq::<usize>::empty());
        to_multiset_contains(all_indices(0), x);
    } else {
        lemma_all_indices_count(n - 1, x);
        assert(all_indices(n) =~= all_indices(n - 1).push((n - 1) as usize));
        to_multiset_build(all_indices(n - 1), (n - 1) as usize);
    }
}

/// In a block tree built with threshold `max_dist`, a leaf is `Far`
/// exactly when the centres of its two clusters are more than `max_dist`
/// apart, and `Near` exactly when they are not.
pub proof fn lemma_leaf_admissibility<const D: usize>(
    tree: &BlockTree,
    target_tree: ClusterTree<D>,
    source_tree: ClusterTree<D>,
    max_dist: u32,
)
    requires
        tree.built_from(target_tree, source_tree, max_dist),
    ensures
        forall|k: int|
            0 <= k < tree.nodes@.len() && (#[trigger] tree.nodes@[k]).children is None ==> (
            tree.nodes@[k].block_type == BlockType::Far <==> far_apart(
                source_tree.nodes@[tree.nodes@[k].source_index as int].bbox,
                target_tree.nodes@[tree.nodes@[k].target_index as int].bbox,
                max_dist,
            )),
{
    assert forall|k: int|
        0 <= k < tree.nodes@.len() && (#[trigger] tree.nodes@[k]).children is None implies (
        tree.nodes@[k].block_type == BlockType::Far <==> far_apart(
            source_tree.nodes@[tree.nodes@[k].source_index as int].bbox,
            target_tree.nodes@[tree.nodes@[k].target_index as int].bbox,
            max_dist,
        )) by {
        assert(block_built(tree.nodes@, target_tree, source_tree, max_dist, k));
    }
}

/// When the target tree covers `n_rows` points and the source tree
/// `n_cols`, the leaves of the block tree cover every (row, column) pair of
/// `0..n_rows` by `0..n_cols` exactly once, and no other pair: no two
/// leaves overlap and none is left out.
pub proof fn lemma_leaves_cover_once<const D: usize>(
    tree: &BlockTree,
    target_tree: ClusterTree<D>,
    source_tree: ClusterTree<D>,
    max_dist: u32,
    n_rows: int,
    n_cols: int,
)
    requires
        tree.built_from(target_tree, source_tree, max_dist),
        0 <= n_rows <= usize::MAX,
        0 <= n_cols <= usize::MAX,
        target_tree.covers(n_rows),
        source_tree.covers(n_cols),
    ensures
        forall|r: usize, c: usize|
            #[trigger] leaf_cover(tree.nodes@, target_tree, source_tree, 0, tree.nodes@.len() as int, r, c)
                == if r < n_rows && c < n_cols {
                1int
            } else {
                0int
            },
{
    assert forall|r: usize, c: usize|
        #[trigger] leaf_cover(tree.nodes@, target_tree, source_tree, 0, tree.nodes@.len() as int, r, c)
            == if r < n_rows && c < n_cols {
            1int
        } else {
            0int
        } by {
        lemma_all_indices_count(n_rows, r);
        lemma_all_indices_count(n_cols, c);
        let t = count_in(target_tree, target_tree.id as int, r);
        let s = count_in(source_tree, source_tree.id as int, c);
        assert(t == if r < n_rows {
            1int
        } else {
            0int
        });
        assert(s == if c < n_cols {
            1int
        } else {
            0int
        });
        assert(leaf_cover(tree.nodes@, target_tree, source_tree, 0, tree.nodes@.len() as int, r, c)
            == t * s);
    }
}

impl BlockTree {
    /// Every block refers to clusters of the two trees.
    pub open spec fn refers_within<const D: usize>(
        &self,
        target_tree: ClusterTree<D>,
        source_tree: ClusterTree<D>,
    ) -> bool {
        forall|k: int|
            0 <= k < self.nodes@.len() ==> (#[trigger] self.nodes@[k]).target_index
                < target_tree.nodes@.len() && self.nodes@[k].source_index < source_tree.nodes@.len()
    }

    /// The number of leaves.
    pub open spec fn leaf_count(&self) -> int {
        leaf_positions(self.nodes@, self.nodes@.len() as int).len() as int
    }

    /// The `m`-th leaf, in the order of the tree.
    pub open spec fn leaf(&self, m: int) -> BlockNode {
        self.nodes@[leaf_positions(self.nodes@, self.nodes@.len() as int)[m]]
    }

    /// The point indices of the rows of the `m`-th leaf.
    pub open spec fn leaf_rows<const D: usize>(&self, target_tree: ClusterTree<D>, m: int) -> Seq<usize> {
        target_tree.nodes@[self.leaf(m).target_index as int].indices@
    }

    /// The point indices of the columns of the `m`-th leaf.
    pub open spec fn leaf_cols<const D: usize>(&self, source_tree: ClusterTree<D>, m: int) -> Seq<usize> {
        source_tree.nodes@[self.leaf(m).source_index as int].indices@
    }

    /// The leaves of the tree in their order in it, each with the point
    /// indices of its rows and columns and its type.
    pub fn leaf_blocks<const D: usize>(
        &self,
        target_tree: &ClusterTree<D>,
        source_tree: &ClusterTree<D>,
    ) -> (r: Vec<LeafBlock>)
        requires
            self.refers_within(*target_tree, *source_tree),
        ensures
            r@.len() == self.leaf_count(),
            forall|m: int|
                0 <= m < r@.len() ==> {
                    &&& (#[trigger] r@[m]).rows@ == self.leaf_rows(*target_tree, m)
                    &&& r@[m].cols@ == self.leaf_cols(*source_tree, m)
                    &&& r@[m].block_type == self.leaf(m).block_type
                },
    {
        let mut out: Vec<LeafBlock> = Vec::new();
        let mut k: usize = 0;
        while k < self.nodes.len()
            invariant
                k <= self.nodes@.len(),
                self.refers_within(*target_tree, *source_tree),
                out@.len() == leaf_positions(self.nodes@, k as int).len(),
                forall|m: int|
                    0 <= m < out@.len() ==> {
                        let b = self.nodes@[leaf_positions(self.nodes@, k as int)[m]];
                        &&& (#[trigger] out@[m]).rows@ == target_tree.nodes@[b.target_index as int].indices@
                        &&& out@[m].cols@ == source_tree.nodes@[b.source_index as int].indices@
                        &&& out@[m].block_type == b.block_type
                    },
            decreases self.nodes@.len() - k,
        {
            let block = &self.nodes[k];
            if block.children.is_none() {
                let rows: Vec<usize> = target_tree.nodes[block.target_index].indices.clone();
                let cols: Vec<usize> = source_tree.nodes[block.source_index].indices.clone();
                proof {
                    assert(rows@ =~= target_tree.nodes@[block.target_index as int].indices@);
                    assert(cols@ =~= source_tree.nodes@[block.source_index as int].indices@);
                }
                out.push(LeafBlock { rows, cols, block_type: block.block_type });
            }
            proof {
                let prev = leaf_positions(self.nodes@, k as int);
                let next = leaf_positions(self.nodes@, k as int + 1);
                assert forall|m: int| 0 <= m < prev.len() implies next[m] == prev[m] by {}
            }
            k = k + 1;
        }
        out
    }
}

impl BlockTree {
    /// The tree is the one built from the two cluster trees with threshold
    /// `max_dist`: its root is the pair of the two roots, every block is
    /// shaped as `block_built` says, and the leaves cover each pair of a
    /// root row index and a root column index as often as the two roots
    /// hold them.
    pub open spec fn built_from<const D: usize>(
        &self,
        target_tree: ClusterTree<D>,
        source_tree: ClusterTree<D>,
        max_dist: u32,
    ) -> bool {
        &&& self.nodes@.len() > 0
        &&& self.id == self.nodes@.len() - 1
        &&& self.nodes@[self.id as int].target_index == target_tree.id
        &&& self.nodes@[self.id as int].source_index == source_tree.id
        &&& forall|k: int|
            0 <= k < self.nodes@.len() ==> block_built(
                self.nodes@,
                target_tree,
                source_tree,
                max_dist,
                k,
            )
        &&& forall|r: usize, c: usize|
            #[trigger] leaf_cover(self.nodes@, target_tree, source_tree, 0, self.nodes@.len() as int, r, c)
                == count_in(target_tree, target_tree.id as int, r) * count_in(
                source_tree,
                source_tree.id as int,
                c,
            )
    }

    /// Appends the blocks of the pair (`target_index`, `source_index`) and
    /// returns the position of its block, which is the last one appended.
    fn build_blocks<const D: usize>(
        &mut self,
        target_index: usize,
        source_index: usize,
        target_tree: &ClusterTree<D>,
        source_tree: &ClusterTree<D>,
        max_dist: u32,
    ) -> (id: usize)
        requires
            D <= MAX_DIM,
            target_tree.wf(),
            source_tree.wf(),
            target_index < target_tree.nodes@.len(),
            source_index < source_tree.nodes@.len(),
        ensures
            old(self).nodes@.len() <= id,
            id + 1 == final(self).nodes@.len(),
            forall|j: int|
                0 <= j < old(self).nodes@.len() ==> final(self).nodes@[j] == old(self).nodes@[j],
            forall|k: int|
                old(self).nodes@.len() <= k < final(self).nodes@.len() ==> block_built(
                    final(self).nodes@,
                    *target_tree,
                    *source_tree,
                    max_dist,
                    k,
                ),
            final(self).nodes@[id as int].target_index == target_index,
            final(self).nodes@[id as int].source_index == source_index,
            forall|r: usize, c: usize|
                #[trigger] leaf_cover(
                    final(self).nodes@,
                    *target_tree,
                    *source_tree,
                    old(self).nodes@.len() as int,
                    final(self).nodes@.len() as int,
                    r,
                    c,
                ) == count_in(*target_tree, target_index as int, r) * count_in(
                    *source_tree,
                    source_index as int,
                    c,
                ),
            final(self).id == old(self).id,
        decreases target_index + source_index,
    {
        let ghost a = self.nodes@.len() as int;
        let ghost start = self.nodes@;
        let target_cluster = &target_tree.nodes[target_index];
        let source_cluster = &source_tree.nodes[source_index];

        let far: bool = is_far(&source_cluster.bbox, &target_cluster.bbox, max_dist);
        let target_is_leaf: bool = target_cluster.children.is_none();
        let source_is_leaf: bool = source_cluster.children.is_none();

        if far || (target_is_leaf && source_is_leaf) {
            let block_type = if far {
                BlockType::Far
            } else {
                BlockType::Near
            };
            let id: usize = self.nodes.len();
            self.nodes.push(BlockNode { target_index, source_index, children: None, block_type });
            proof {
                assert forall|r: usize, c: usize|
                    #[trigger] leaf_cover(
                        self.nodes@,
                        *target_tree,
                        *source_tree,
                        a,
                        self.nodes@.len() as int,
                        r,
                        c,
                    ) == count_in(*target_tree, target_index as int, r) * count_in(
                        *source_tree,
                        source_index as int,
                        c,
                    ) by {
                    assert(leaf_cover(self.nodes@, *target_tree, *source_tree, a, a, r, c) == 0);
                }
            }
            return id;
        }

        let mut pairs: Vec<(usize, usize)> = Vec::new();
        match (target_cluster.children, source_cluster.children) {
            (Some(tc), Some(sc)) => {
                pairs.push((tc[0], sc[0]));
                pairs.push((tc[0], sc[1]));
                pairs.push((tc[1], sc[0]));
                pairs.push((tc[1], sc[1]));
            },
            (Some(tc), None) => {
                pairs.push((tc[0], source_index));
                pairs.push((tc[1], source_index));
            },
            (None, Some(sc)) => {
                pairs.push((target_index, sc[0]));
                pairs.push((target_index, sc[1]));
            },
            (None, None) => {},
        }
        let ghost ps = child_pairs(*target_tree, *source_tree, target_index, source_index);
        proof {
            assert(node_shape(target_tree.nodes@, target_index as int));
            assert(node_shape(source_tree.nodes@, source_index as int));
            assert(pairs@ =~= ps);
        }

        let mut children: Vec<usize> = Vec::new();
        let mut j: usize = 0;
        while j < pairs.len()
            invariant
                D <= MAX_DIM,
                target_tree.wf(),
                source_tree.wf(),
                pairs@ == ps,
                j <= ps.len(),
                children@.len() == j,
                a <= self.nodes@.len(),
                self.id == old(self).id,
                start == old(self).nodes@,
                a == start.len(),
                forall|m: int|
                    0 <= m < ps.len() ==> ps[m].0 < target_tree.nodes@.len() && ps[m].1
                        < source_tree.nodes@.len() && ps[m].0 + ps[m].1 < target_index
                        + source_index,
                forall|m: int|
                    #![trigger children@[m]]
                    0 <= m < j ==> a <= children@[m] < self.nodes@.len()
                        && self.nodes@[children@[m] as int].target_index == ps[m].0
                        && self.nodes@[children@[m] as int].source_index == ps[m].1,
                forall|i: int| 0 <= i < a ==> self.nodes@[i] == start[i],
                forall|k: int|
                    a <= k < self.nodes@.len() ==> block_built(
                        self.nodes@,
                        *target_tree,
                        *source_tree,
                        max_dist,
                        k,
                    ),
                forall|r: usize, c: usize|
                    #[trigger] leaf_cover(
                        self.nodes@,
                        *target_tree,
                        *source_tree,
                        a,
                        self.nodes@.len() as int,
                        r,
                        c,
                    ) == pair_cover(*target_tree, *source_tree, ps.take(j as int), r, c),
            decreases ps.len() - j,
        {
            let ghost before = self.nodes@;
            let ghost old_children = children@;
            assert forall|m: int| 0 <= m < j implies a <= old_children[m] < before.len()
                && before[old_children[m] as int].target_index == ps[m].0
                && before[old_children[m] as int].source_index == ps[m].1 by {
                assert(old_children[m] == children@[m]);
            }
            let (ti, si) = pairs[j];
            let child: usize = self.build_blocks(ti, si, target_tree, source_tree, max_dist);
            children.push(child);
            proof {
                let after = self.nodes@;
                assert forall|m: int| 0 <= m < j + 1 implies a <= children@[m] < after.len()
                    && after[children@[m] as int].target_index == ps[m].0
                    && after[children@[m] as int].source_index == ps[m].1 by {
                    if m < j {
                        assert(children@[m] == old_children[m]);
                        assert(a <= old_children[m] < before.len());
                        assert(after[old_children[m] as int] == before[old_children[m] as int]);
                    }
                }
                assert forall|k: int| a <= k < after.len() implies block_built(
                    after,
                    *target_tree,
                    *source_tree,
                    max_dist,
                    k,
                ) by {
                    if k < before.len() {
                        lemma_block_built_prefix(before, after, *target_tree, *source_tree, max_dist, k);
                    }
                }
                assert(ps.take(j as int + 1).drop_last() =~= ps.take(j as int));
                assert forall|r: usize, c: usize|
                    #[trigger] leaf_cover(
                        after,
                        *target_tree,
                        *source_tree,
                        a,
                        after.len() as int,
                        r,
                        c,
                    ) == pair_cover(*target_tree, *source_tree, ps.take(j as int + 1), r, c) by {
                    lemma_leaf_cover_split(after, *target_tree, *source_tree, a, before.len() as int, after.len() as int, r, c);
                    lemma_leaf_cover_prefix(before, after, *target_tree, *source_tree, a, before.len() as int, r, c);
                    assert(leaf_cover(before, *target_tree, *source_tree, a, before.len() as int, r, c)
                        == pair_cover(*target_tree, *source_tree, ps.take(j as int), r, c));
                }
            }
            j = j + 1;
        }

        let ghost before = self.nodes@;
        let ghost cv = children@;
        let id: usize = self.nodes.len();
        self.nodes.push(
            BlockNode {
                target_index,
                source_index,
                children: Some(children),
                block_type: BlockType::Near,
            },
        );
        proof {
            let fin = self.nodes@;
            assert(fin[id as int].children->0@ == cv);
            assert forall|k: int| a <= k < fin.len() implies block_built(
                fin,
                *target_tree,
                *source_tree,
                max_dist,
                k,
            ) by {
                if k < before.len() {
                    lemma_block_built_prefix(before, fin, *target_tree, *source_tree, max_dist, k);
                } else {
                    assert forall|m: int| 0 <= m < cv.len() implies fin[cv[m] as int] == before[cv[m] as int] by {}
                }
            }
            assert(ps.take(ps.len() as int) =~= ps);
            assert forall|r: usize, c: usize|
                #[trigger] leaf_cover(fin, *target_tree, *source_tree, a, fin.len() as int, r, c)
                    == count_in(*target_tree, target_index as int, r) * count_in(
                    *source_tree,
                    source_index as int,
                    c,
                ) by {
                lemma_leaf_cover_prefix(before, fin, *target_tree, *source_tree, a, before.len() as int, r, c);
                assert(leaf_cover(before, *target_tree, *source_tree, a, before.len() as int, r, c)
                    == pair_cover(*target_tree, *source_tree, ps.take(ps.len() as int), r, c));
                lemma_child_pairs_cover(*target_tree, *source_tree, target_index, source_index, r, c);
            }
        }
        id
    }

    /// Builds the block tree of the two cluster trees: starting from the
    /// pair of their roots, a pair whose centres are more than
    /// `admissibility_distance` apart becomes a `Far` leaf, a near pair of
    /// two leaves a `Near` leaf, and any other near pair is split along
    /// the clusters that have children.
    pub fn build<const D: usize>(
        target_tree: &ClusterTree<D>,
        source_tree: &ClusterTree<D>,
        admissibility_distance: u32,
    ) -> (tree: Self)
        requires
            D <= MAX_DIM,
            target_tree.wf(),
            source_tree.wf(),
        ensures
            tree.built_from(*target_tree, *source_tree, admissibility_distance),
            tree.refers_within(*target_tree, *source_tree),
    {
        let mut tree = BlockTree { nodes: Vec::new(), id: 0 };
        let id: usize = tree.build_blocks(
            target_tree.id,
            source_tree.id,
            target_tree,
            source_tree,
            admissibility_distance,
        );
        tree.id = id;
        proof {
            assert forall|k: int| 0 <= k < tree.nodes@.len() implies (#[trigger] tree.nodes@[k]).target_index
                < target_tree.nodes@.len() && tree.nodes@[k].source_index < source_tree.nodes@.len() by {
                assert(block_built(tree.nodes@, *target_tree, *source_tree, admissibility_distance, k));
            }
        }
        tree
    }
}

} // verus!
