use hmats_rs::{BlockStorage, BlockTree, BlockType, ClusterTree, DenseBlock, HMatrix, Kernel, LowRankBlock, Nodes};

/// An exact integer kernel, so that sums can be compared for equality.
struct Cross;

impl Kernel<2> for Cross {
    type Scalar = i64;

    fn value(&self, x: [i32; 2], y: [i32; 2]) -> i64 {
        self.eval(&x, &y)
    }

    fn eval(&self, x: &[i32; 2], y: &[i32; 2]) -> i64 {
        3 * x[0] as i64 - y[1] as i64 + (x[1] as i64) * (y[0] as i64)
    }
}

/// A real kernel that depends on the separation only.
struct Inverse;

impl Kernel<2> for Inverse {
    type Scalar = f64;

    fn value(&self, x: [i32; 2], y: [i32; 2]) -> f64 {
        self.eval(&x, &y)
    }

    fn eval(&self, x: &[i32; 2], y: &[i32; 2]) -> f64 {
        let dx = (x[0] - y[0]) as f64;
        let dy = (x[1] - y[1]) as f64;
        1.0 / (1.0 + dx * dx + dy * dy).sqrt()
    }
}

fn grid(n: i32) -> Nodes<2> {
    let mut pts = Vec::new();
    for i in 0..n {
        for j in 0..n {
            pts.push([7 * i - 3 * j, 5 * j + i]);
        }
    }
    Nodes::new(pts)
}

fn dense(t: &Nodes<2>, s: &Nodes<2>, rows: Vec<usize>, cols: Vec<usize>) -> DenseBlock<i64> {
    HMatrix::<2, Cross>::build_dense_block(t, s, rows, cols, &Cross)
}

#[test]
fn dense_block_is_row_major() {
    let t = Nodes::new(vec![[1, 2], [3, 4], [5, 6]]);
    let s = Nodes::new(vec![[10, 20], [30, 40]]);
    let b = dense(&t, &s, vec![2, 0], vec![1, 0, 1]);
    assert_eq!(b.rows, vec![2, 0]);
    assert_eq!(b.cols, vec![1, 0, 1]);
    // entry (i, j) = 3 * x0 - y1 + x1 * y0
    assert_eq!(b.data, vec![15 - 40 + 180, 15 - 20 + 60, 15 - 40 + 180, 3 - 40 + 60, 3 - 20 + 20, 3 - 40 + 60]);
}

#[test]
fn dense_block_of_empty_lists() {
    let t = Nodes::new(vec![[1, 2]]);
    let b = dense(&t, &t, vec![], vec![0]);
    assert!(b.data.is_empty());
}

#[test]
fn dense_block_with_real_values() {
    let t = Nodes::new(vec![[0, 0], [3, 4]]);
    let b = HMatrix::<2, Inverse>::build_dense_block(&t, &t, vec![0, 1], vec![0, 1], &Inverse);
    assert_eq!(b.data.len(), 4);
    assert_eq!(b.data[0], 1.0);
    assert!((b.data[1] - 1.0 / 26f64.sqrt()).abs() < 1e-15);
    assert_eq!(b.data[1], b.data[2]);
}

fn blockwise_product(nodes: &Nodes<2>, tree: &ClusterTree<2>, bt: &BlockTree, x: &[i64]) -> Vec<i64> {
    let mut y = vec![0i64; nodes.points.len()];
    for leaf in bt.leaf_blocks(tree, tree) {
        let b = dense(nodes, nodes, leaf.rows, leaf.cols);
        let n = b.cols.len();
        for (i, &r) in b.rows.iter().enumerate() {
            for (j, &c) in b.cols.iter().enumerate() {
                y[r] += b.data[i * n + j] * x[c];
            }
        }
    }
    y
}

fn full_product(nodes: &Nodes<2>, x: &[i64]) -> Vec<i64> {
    let all: Vec<usize> = (0..nodes.points.len()).collect();
    let b = dense(nodes, nodes, all.clone(), all);
    let n = nodes.points.len();
    (0..n).map(|i| (0..n).map(|j| b.data[i * n + j] * x[j]).sum()).collect()
}

#[test]
fn all_near_blocks_reproduce_dense_product() {
    let nodes = grid(7);
    let tree = ClusterTree::build_tree(&nodes, 3);
    let bt = BlockTree::build(&tree, &tree, u32::MAX);
    assert!(bt.leaf_blocks(&tree, &tree).iter().all(|l| l.block_type == BlockType::Near));
    let x: Vec<i64> = (0..49).map(|i| (i * 37 % 11) - 5).collect();
    assert_eq!(blockwise_product(&nodes, &tree, &bt, &x), full_product(&nodes, &x));
}

#[test]
fn mixed_blocks_evaluated_densely_reproduce_dense_product() {
    let nodes = grid(7);
    let tree = ClusterTree::build_tree(&nodes, 2);
    let bt = BlockTree::build(&tree, &tree, 15);
    let leaves = bt.leaf_blocks(&tree, &tree);
    assert!(leaves.iter().any(|l| l.block_type == BlockType::Far));
    assert!(leaves.iter().any(|l| l.block_type == BlockType::Near));
    let x: Vec<i64> = (0..49).map(|i| (i * 13 % 7) - 3).collect();
    assert_eq!(blockwise_product(&nodes, &tree, &bt, &x), full_product(&nodes, &x));
}

fn assembled(dist: u32, give: bool) -> (HMatrix<2, Cross>, Vec<hmats_rs::block::LeafBlock>) {
    let nodes = grid(5);
    let tree = ClusterTree::build_tree(&nodes, 2);
    let bt = BlockTree::build(&tree, &tree, dist);
    let leaves = bt.leaf_blocks(&tree, &tree);
    let compressed: Vec<Option<LowRankBlock<i64>>> = leaves
        .iter()
        .map(|l| {
            if give {
                Some(LowRankBlock { rows: l.rows.clone(), cols: l.cols.clone(), rank: 0, u: vec![], v: vec![] })
            } else {
                None
            }
        })
        .collect();
    let h = HMatrix::assemble(&nodes, &nodes, &tree, &tree, bt, Cross, compressed);
    (h, leaves)
}

#[test]
fn assemble_without_factorizations_is_dense() {
    let (h, leaves) = assembled(15, false);
    assert_eq!(h.n_rows, 25);
    assert_eq!(h.n_cols, 25);
    assert_eq!(h.blocks.len(), leaves.len());
    let nodes = grid(5);
    for (b, leaf) in h.blocks.iter().zip(&leaves) {
        match b {
            BlockStorage::Dense(d) => {
                assert_eq!(d.rows, leaf.rows);
                assert_eq!(d.cols, leaf.cols);
                let n = d.cols.len();
                for (i, &r) in d.rows.iter().enumerate() {
                    for (j, &c) in d.cols.iter().enumerate() {
                        assert_eq!(d.data[i * n + j], Cross.eval(&nodes.points[r], &nodes.points[c]));
                    }
                }
            }
            BlockStorage::LowRank(_) => panic!("no factorization was given"),
        }
    }
}

#[test]
fn assemble_keeps_factorizations_of_far_leaves_only() {
    let (h, leaves) = assembled(15, true);
    let mut far = 0;
    for (b, leaf) in h.blocks.iter().zip(&leaves) {
        match (b, leaf.block_type) {
            (BlockStorage::LowRank(lr), BlockType::Far) => {
                far += 1;
                assert_eq!(lr.rank, 0);
                assert_eq!(lr.rows, leaf.rows);
            }
            (BlockStorage::Dense(d), BlockType::Near) => assert_eq!(d.data.len(), d.rows.len() * d.cols.len()),
            _ => panic!("wrong storage for the leaf's type"),
        }
    }
    assert!(far > 0);
}
