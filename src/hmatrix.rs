use crate::block::{lemma_leaf_positions, BlockTree, BlockType};
use crate::cluster::ClusterTree;
use crate::node::{indices_below, Nodes};
use vstd::arithmetic::div_mod::lemma_fundamental_div_mod_converse;
use vstd::arithmetic::mul::lemma_mul_inequality;
use vstd::prelude::*;

verus! {

/// A pairwise interaction between a target point and a source point: the
/// capability from which the blocks of an H-matrix are evaluated.
pub trait Kernel<const D: usize> {
    /// The type of the kernel's values.
    type Scalar;

    /// The value of the kernel at the target point `x` and source point `y`.
    spec fn value(&self, x: [i32; D], y: [i32; D]) -> Self::Scalar;

    /// Evaluates the kernel at the target point `x` and source point `y`.
    fn eval(&self, x: &[i32; D], y: &[i32; D]) -> (r: Self::Scalar)
        ensures
            r == self.value(*x, *y),
    ;
}

/// A block stored entry by entry: `data[i * cols.len() + j]` is the entry
/// at row `rows[i]` and column `cols[j]`.
pub struct DenseBlock<T> {
    pub rows: Vec<usize>,
    pub cols: Vec<usize>,
    pub data: Vec<T>,
}

impl<T> DenseBlock<T> {
    /// One entry for each (row, column) pair.
    pub open spec fn wf(&self) -> bool {
        self.data@.len() == self.rows@.len() * self.cols@.len()
    }
}

/// A block stored as the product `u * v^T` of a `rows.len() x rank` and a
/// `cols.len() x rank` matrix, both row-major.
pub struct LowRankBlock<T> {
    pub rows: Vec<usize>,
    pub cols: Vec<usize>,
    pub rank: usize,
    pub u: Vec<T>,
    pub v: Vec<T>,
}

impl<T> LowRankBlock<T> {
    /// The rank is at most the number of rows and of columns, and the two
    /// factors have one row for each row and column of the block.
    pub open spec fn wf(&self) -> bool {
        &&& self.rank <= self.rows@.len()
        &&& self.rank <= self.cols@.len()
        &&& self.u@.len() == self.rows@.len() * self.rank
        &&& self.v@.len() == self.cols@.len() * self.rank
    }
}

/// The storage of one leaf block of an H-matrix.
pub enum BlockStorage<T> {
    Dense(DenseBlock<T>),
    LowRank(LowRankBlock<T>),
}

/// A kernel matrix stored block by block, one storage for each leaf of
/// its block tree, in the order of the leaves.
pub struct HMatrix<const D: usize, K: Kernel<D>> {
    pub block_tree: BlockTree,
    pub blocks: Vec<BlockStorage<K::Scalar>>,
    pub kernel: K,
    pub n_rows: usize,
    pub n_cols: usize,
}

/// `b` holds the value of `kernel` at each pair of a target point of its
/// rows and a source point of its columns, row by row.
pub open spec fn evaluates<const D: usize, K: Kernel<D>>(
    b: DenseBlock<K::Scalar>,
    kernel: K,
    target_points: Seq<[i32; D]>,
    source_points: Seq<[i32; D]>,
) -> bool {
    &&& b.wf()
    &&& forall|i: int, j: int|
        0 <= i < b.rows@.len() && 0 <= j < b.cols@.len() ==> #[trigger] b.data@[i * b.cols@.len()
            + j] == kernel.value(target_points[b.rows@[i] as int], source_points[b.cols@[j] as int])
}

/// `storage` is what assembly makes of the `m`-th leaf of `block_tree`
/// given the factorization `compressed` for it: a `Far` leaf with a
/// factorization keeps that factorization; every other leaf is evaluated
/// densely.
pub open spec fn stored_as<const D: usize, K: Kernel<D>>(
    storage: BlockStorage<K::Scalar>,
    block_tree: BlockTree,
    target_tree: ClusterTree<D>,
    source_tree: ClusterTree<D>,
    m: int,
    compressed: Option<LowRankBlock<K::Scalar>>,
    kernel: K,
    target_points: Seq<[i32; D]>,
    source_points: Seq<[i32; D]>,
) -> bool {
    match storage {
        BlockStorage::Dense(d) => {
            &&& (block_tree.leaf(m).block_type == BlockType::Near || compressed is None)
            &&& d.rows@ == block_tree.leaf_rows(target_tree, m)
            &&& d.cols@ == block_tree.leaf_cols(source_tree, m)
            &&& evaluates(d, kernel, target_points, source_points)
        },
        BlockStorage::LowRank(lr) => {
            &&& block_tree.leaf(m).block_type == BlockType::Far
            &&& compressed == Some(lr)
        },
    }
}

impl<const D: usize, K: Kernel<D>> HMatrix<D, K> {
    /// Evaluates the kernel at every pair of a target point of `rows` and a
    /// source point of `cols`, row by row.
    pub fn build_dense_block(
        target_nodes: &Nodes<D>,
        source_nodes: &Nodes<D>,
        rows: Vec<usize>,
        cols: Vec<usize>,
        kernel: &K,
    ) -> (b: DenseBlock<K::Scalar>)
        requires
            indices_below(rows@, target_nodes.points@.len() as int),
            indices_below(cols@, source_nodes.points@.len() as int),
            rows@.len() * cols@.len() <= usize::MAX,
        ensures
            b.rows@ == rows@,
            b.cols@ == cols@,
            evaluates(b, *kernel, target_nodes.points@, source_nodes.points@),
    {
        let m: usize = rows.len();
        let n: usize = cols.len();
        let ghost tp = target_nodes.points@;
        let ghost sp = source_nodes.points@;
        let mut data: Vec<K::Scalar> = Vec::new();
        let mut i: usize = 0;
        while i < m
            invariant
                i <= m,
                m == rows@.len(),
                n == cols@.len(),
                tp == target_nodes.points@,
                sp == source_nodes.points@,
                indices_below(rows@, tp.len() as int),
                indices_below(cols@, sp.len() as int),
                m * n <= usize::MAX,
                data@.len() == i * n,
                forall|k: int|
                    0 <= k < data@.len() ==> #[trigger] data@[k] == kernel.value(
                        tp[rows@[k / n as int] as int],
                        sp[cols@[k % n as int] as int],
                    ),
            decreases m - i,
        {
            let xi: &[i32; D] = &target_nodes.points[rows[i]];
            let mut j: usize = 0;
            proof {
                lemma_mul_inequality(i as int + 1, m as int, n as int);
                assert((i as int + 1) * n == i * n + n) by (nonlinear_arith);
            }
            while j < n
                invariant
                    i < m,
                    j <= n,
                    m == rows@.len(),
                    n == cols@.len(),
                    tp == target_nodes.points@,
                    sp == source_nodes.points@,
                    *xi == tp[rows@[i as int] as int],
                    indices_below(cols@, sp.len() as int),
                    i * n + n <= m * n,
                    m * n <= usize::MAX,
                    data@.len() == i * n + j,
                    forall|k: int|
                        0 <= k < data@.len() ==> #[trigger] data@[k] == kernel.value(
                            tp[rows@[k / n as int] as int],
                            sp[cols@[k % n as int] as int],
                        ),
                decreases n - j,
            {
                let yj: &[i32; D] = &source_nodes.points[cols[j]];
                let value = kernel.eval(xi, yj);
                proof {
                    lemma_fundamental_div_mod_converse(
                        i * n + j,
                        n as int,
                        i as int,
                        j as int,
                    );
                }
                data.push(value);
                j = j + 1;
            }
            proof {
                assert((i as int + 1) * n == i * n + n) by (nonlinear_arith);
            }
            i = i + 1;
        }
        proof {
            assert forall|i: int, j: int|
                0 <= i < m && 0 <= j < n implies #[trigger] data@[i * n + j] == kernel.value(
                tp[rows@[i] as int],
                sp[cols@[j] as int],
            ) by {
                lemma_mul_inequality(i + 1, m as int, n as int);
                assert((i + 1) * n == i * n + n) by (nonlinear_arith);
                lemma_fundamental_div_mod_converse(i * n + j, n as int, i, j);
            }
        }
        DenseBlock { rows, cols, data }
    }
    /// Assembles the H-matrix of `kernel` over the leaves of `block_tree`:
    /// leaf `m` is stored as the factorization `compressed[m]` where the
    /// leaf is `Far` and one is given, and densely otherwise (a `Near`
    /// leaf, or a `Far` one whose compression did not converge).
    pub fn assemble(
        target_nodes: &Nodes<D>,
        source_nodes: &Nodes<D>,
        target_tree: &ClusterTree<D>,
        source_tree: &ClusterTree<D>,
        block_tree: BlockTree,
        kernel: K,
        compressed: Vec<Option<LowRankBlock<K::Scalar>>>,
    ) -> (h: Self)
        requires
            block_tree.refers_within(*target_tree, *source_tree),
            target_tree.indexes_within(target_nodes.points@.len() as int),
            source_tree.indexes_within(source_nodes.points@.len() as int),
            compressed@.len() == block_tree.leaf_count(),
            forall|m: int|
                0 <= m < block_tree.leaf_count() ==> block_tree.leaf_rows(*target_tree, m).len()
                    * block_tree.leaf_cols(*source_tree, m).len() <= usize::MAX,
            forall|m: int|
                0 <= m < compressed@.len() && (#[trigger] compressed@[m]) is Some ==> {
                    let lr = compressed@[m]->0;
                    &&& lr.rows@ == block_tree.leaf_rows(*target_tree, m)
                    &&& lr.cols@ == block_tree.leaf_cols(*source_tree, m)
                    &&& lr.wf()
                },
        ensures
            h.n_rows == target_nodes.points@.len(),
            h.n_cols == source_nodes.points@.len(),
            h.block_tree == block_tree,
            h.kernel == kernel,
            h.blocks@.len() == block_tree.leaf_count(),
            forall|m: int|
                0 <= m < h.blocks@.len() ==> stored_as(
                    #[trigger] h.blocks@[m],
                    block_tree,
                    *target_tree,
                    *source_tree,
                    m,
                    compressed@[m],
                    kernel,
                    target_nodes.points@,
                    source_nodes.points@,
                ),
    {
        let leaves = block_tree.leaf_blocks(target_tree, source_tree);
        let ghost given = compressed@;
        let mut compressed = compressed;
        let mut blocks: Vec<BlockStorage<K::Scalar>> = Vec::new();
        let mut m: usize = 0;
        while m < leaves.len()
            invariant
                m <= leaves@.len(),
                leaves@.len() == block_tree.leaf_count(),
                forall|k: int|
                    0 <= k < leaves@.len() ==> {
                        &&& (#[trigger] leaves@[k]).rows@ == block_tree.leaf_rows(*target_tree, k)
                        &&& leaves@[k].cols@ == block_tree.leaf_cols(*source_tree, k)
                        &&& leaves@[k].block_type == block_tree.leaf(k).block_type
                    },
                target_tree.indexes_within(target_nodes.points@.len() as int),
                source_tree.indexes_within(source_nodes.points@.len() as int),
                block_tree.refers_within(*target_tree, *source_tree),
                forall|k: int|
                    0 <= k < block_tree.leaf_count() ==> block_tree.leaf_rows(*target_tree, k).len()
                        * block_tree.leaf_cols(*source_tree, k).len() <= usize::MAX,
                compressed@.len() == given.len(),
                given.len() == leaves@.len(),
                forall|k: int| m <= k < given.len() ==> compressed@[k] == given[k],
                blocks@.len() == m,
                forall|k: int|
                    0 <= k < m ==> stored_as(
                        #[trigger] blocks@[k],
                        block_tree,
                        *target_tree,
                        *source_tree,
                        k,
                        given[k],
                        kernel,
                        target_nodes.points@,
                        source_nodes.points@,
                    ),
            decreases leaves@.len() - m,
        {
            let mut taken: Option<LowRankBlock<K::Scalar>> = None;
            std::mem::swap(&mut compressed[m], &mut taken);
            let leaf = &leaves[m];
            let stored = match (leaf.block_type, taken) {
                (BlockType::Far, Some(low_rank)) => BlockStorage::LowRank(low_rank),
                _ => {
                    proof {
                        lemma_leaf_positions(block_tree.nodes@, block_tree.nodes@.len() as int);
                        let ti = block_tree.leaf(m as int).target_index as int;
                        let si = block_tree.leaf(m as int).source_index as int;
                        assert(indices_below(target_tree.nodes@[ti].indices@, target_nodes.points@.len() as int));
                        assert(indices_below(source_tree.nodes@[si].indices@, source_nodes.points@.len() as int));
                    }
                    let rows: Vec<usize> = leaf.rows.clone();
                    let cols: Vec<usize> = leaf.cols.clone();
                    proof {
                        assert(rows@ =~= leaf.rows@);
                        assert(cols@ =~= leaf.cols@);
                    }
                    BlockStorage::Dense(
                        Self::build_dense_block(target_nodes, source_nodes, rows, cols, &kernel),
                    )
                },
            };
            blocks.push(stored);
            m = m + 1;
        }
        let n_rows: usize = target_nodes.points.len();
        let n_cols: usize = source_nodes.points.len();
        HMatrix { block_tree, blocks, kernel, n_rows, n_cols }
    }
}

} // verus!
