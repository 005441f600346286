use hmats_rs::block::is_far;
use hmats_rs::{BBox, BlockTree, BlockType, ClusterTree, Nodes};

fn four_points() -> Nodes<2> {
    Nodes::new(vec![[0, 0], [4, 2], [5, 5], [0, 5]])
}

fn grid(n: i32, offset: i32) -> Nodes<2> {
    let mut pts = Vec::new();
    for i in 0..n {
        for j in 0..n {
            pts.push([offset + 10 * i, 10 * j]);
        }
    }
    Nodes::new(pts)
}

fn centre_dist2(a: &BBox<2>, b: &BBox<2>) -> i128 {
    BBox::bbox_distance(a, b)
}

fn check_cover(bt: &BlockTree, t: &ClusterTree<2>, s: &ClusterTree<2>, nr: usize, nc: usize) {
    let mut seen = vec![vec![0usize; nc]; nr];
    for leaf in bt.leaf_blocks(t, s) {
        for &r in &leaf.rows {
            for &c in &leaf.cols {
                seen[r][c] += 1;
            }
        }
    }
    assert!(seen.iter().all(|row| row.iter().all(|&k| k == 1)));
}

fn check_admissibility(bt: &BlockTree, t: &ClusterTree<2>, s: &ClusterTree<2>, dist: u32) {
    for node in &bt.nodes {
        if node.children.is_none() {
            let d2 = centre_dist2(&s.nodes[node.source_index].bbox, &t.nodes[node.target_index].bbox);
            let far = d2 > 4 * (dist as i128) * (dist as i128);
            assert_eq!(node.block_type == BlockType::Far, far);
        }
    }
}

#[test]
fn far_threshold_is_strict() {
    // centres 5 apart
    let a = BBox { min: [-1, -1], max: [1, 1] };
    let b = BBox { min: [2, 3], max: [4, 5] };
    assert!(is_far(&a, &b, 4));
    assert!(!is_far(&a, &b, 5));
    assert!(!is_far(&a, &b, 6));
    assert!(!is_far(&a, &a, 0));
}

#[test]
fn identical_single_leaf_clusters_give_one_near_leaf() {
    let nodes = four_points();
    let tree = ClusterTree::build_tree(&nodes, 4);
    let bt = BlockTree::build(&tree, &tree, 0);
    assert_eq!(bt.nodes.len(), 1);
    assert_eq!(bt.id, 0);
    let root = &bt.nodes[0];
    assert!(root.children.is_none());
    assert_eq!(root.block_type, BlockType::Near);
    let leaves = bt.leaf_blocks(&tree, &tree);
    assert_eq!(leaves.len(), 1);
    assert_eq!(leaves[0].rows.len() * leaves[0].cols.len(), 16);
    check_cover(&bt, &tree, &tree, 4, 4);
}

#[test]
fn zero_distance_refines_to_leaf_pairs() {
    let nodes = four_points();
    let tree = ClusterTree::build_tree(&nodes, 1);
    let bt = BlockTree::build(&tree, &tree, 0);
    // every pair of distinct leaves has distinct centres, so only the
    // diagonal pairs of equal clusters stay near
    let root = &bt.nodes[bt.id];
    assert_eq!(root.target_index, tree.id);
    assert_eq!(root.source_index, tree.id);
    assert_eq!(root.children.as_ref().unwrap().len(), 4);
    check_cover(&bt, &tree, &tree, 4, 4);
    check_admissibility(&bt, &tree, &tree, 0);
    let near: usize = bt
        .nodes
        .iter()
        .filter(|n| n.children.is_none() && n.block_type == BlockType::Near)
        .count();
    assert_eq!(near, 4);
}

#[test]
fn large_distance_makes_everything_near() {
    let nodes = grid(6, 0);
    let tree = ClusterTree::build_tree(&nodes, 4);
    let bt = BlockTree::build(&tree, &tree, u32::MAX);
    for leaf in bt.leaf_blocks(&tree, &tree) {
        assert_eq!(leaf.block_type, BlockType::Near);
    }
    check_cover(&bt, &tree, &tree, 36, 36);
}

#[test]
fn separated_sets_give_one_far_block() {
    let target = grid(4, 0);
    let source = grid(4, 1000);
    let tt = ClusterTree::build_tree(&target, 2);
    let st = ClusterTree::build_tree(&source, 2);
    let bt = BlockTree::build(&tt, &st, 100);
    assert_eq!(bt.nodes.len(), 1);
    assert_eq!(bt.nodes[0].block_type, BlockType::Far);
    let leaves = bt.leaf_blocks(&tt, &st);
    assert_eq!(leaves.len(), 1);
    assert_eq!(leaves[0].rows.len(), 16);
    assert_eq!(leaves[0].cols.len(), 16);
}

#[test]
fn mixed_blocks_cover_once() {
    let target = grid(8, 0);
    let source = grid(5, 40);
    let tt = ClusterTree::build_tree(&target, 3);
    let st = ClusterTree::build_tree(&source, 2);
    for dist in [0u32, 10, 25, 40, 80, 1000] {
        let bt = BlockTree::build(&tt, &st, dist);
        check_cover(&bt, &tt, &st, 64, 25);
        check_admissibility(&bt, &tt, &st, dist);
        // children are placed before their parents
        for (k, node) in bt.nodes.iter().enumerate() {
            if let Some(ch) = &node.children {
                assert!(ch.iter().all(|&c| c < k));
                assert_eq!(node.block_type, BlockType::Near);
            }
        }
    }
}

#[test]
fn one_sided_refinement() {
    // the source is a single leaf, the target splits
    let target = grid(3, 0);
    let source = Nodes::new(vec![[10, 10]]);
    let tt = ClusterTree::build_tree(&target, 1);
    let st = ClusterTree::build_tree(&source, 1);
    let bt = BlockTree::build(&tt, &st, 0);
    let root = &bt.nodes[bt.id];
    let ch = root.children.as_ref().unwrap();
    assert_eq!(ch.len(), 2);
    let [t0, t1] = tt.nodes[tt.id].children.unwrap();
    assert_eq!(bt.nodes[ch[0]].target_index, t0);
    assert_eq!(bt.nodes[ch[1]].target_index, t1);
    assert_eq!(bt.nodes[ch[0]].source_index, st.id);
    check_cover(&bt, &tt, &st, 9, 1);
}
