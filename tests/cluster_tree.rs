use hmats_rs::{BBox, ClusterTree, Nodes};

// the four points (0,0), (0.4,0.2), (0.5,0.5), (0,0.5) in units of 0.1
fn four_points() -> Nodes<2> {
    Nodes::new(vec![[0, 0], [4, 2], [5, 5], [0, 5]])
}

fn leaves_of<const D: usize>(tree: &ClusterTree<D>) -> Vec<Vec<usize>> {
    tree.nodes
        .iter()
        .filter(|n| n.children.is_none())
        .map(|n| n.indices.clone())
        .collect()
}

fn check_partition<const D: usize>(tree: &ClusterTree<D>, n: usize, leaf_size: usize) {
    let mut seen = vec![0usize; n];
    for leaf in leaves_of(tree) {
        assert!(!leaf.is_empty());
        assert!(leaf.len() <= leaf_size);
        for i in leaf {
            seen[i] += 1;
        }
    }
    assert!(seen.iter().all(|&c| c == 1));
}

fn check_union<const D: usize>(tree: &ClusterTree<D>) {
    for node in &tree.nodes {
        if let Some([l, r]) = node.children {
            let (lb, rb) = (tree.nodes[l].bbox, tree.nodes[r].bbox);
            for d in 0..D {
                assert_eq!(node.bbox.min[d], lb.min[d].min(rb.min[d]));
                assert_eq!(node.bbox.max[d], lb.max[d].max(rb.max[d]));
            }
        }
    }
}

#[test]
fn four_points_leaf_size_one() {
    let nodes = four_points();
    let tree = ClusterTree::build_tree(&nodes, 1);
    assert_eq!(tree.nodes.len(), 7);
    assert_eq!(leaves_of(&tree).len(), 4);
    assert_eq!(tree.id, 6);
    let root = &tree.nodes[tree.id];
    assert_eq!(root.indices.len(), 4);
    assert_eq!(root.bbox.min, [0, 0]);
    assert_eq!(root.bbox.max, [5, 5]);
    assert_eq!(root.level, 0);
}

#[test]
fn four_points_exact_shape() {
    let tree = ClusterTree::build_tree(&four_points(), 1);
    // x and y extents tie at the root, so the split runs along x
    assert_eq!(tree.nodes[6].indices, vec![0, 3, 1, 2]);
    assert_eq!(tree.nodes[6].children, Some([2, 5]));
    // (0,0) and (0,0.5) split along y; (0.4,0.2) and (0.5,0.5) along y too
    assert_eq!(tree.nodes[2].indices, vec![0, 3]);
    assert_eq!(tree.nodes[2].children, Some([0, 1]));
    assert_eq!(tree.nodes[5].indices, vec![1, 2]);
    assert_eq!(tree.nodes[5].children, Some([3, 4]));
    let leaves: Vec<Vec<usize>> = leaves_of(&tree);
    assert_eq!(leaves, vec![vec![0], vec![3], vec![1], vec![2]]);
    assert_eq!(tree.nodes[2].level, 1);
    assert_eq!(tree.nodes[0].level, 2);
    assert_eq!(tree.nodes[5].bbox.min, [4, 2]);
    assert_eq!(tree.nodes[5].bbox.max, [5, 5]);
}

#[test]
fn four_points_single_leaf() {
    let tree = ClusterTree::build_tree(&four_points(), 4);
    assert_eq!(tree.nodes.len(), 1);
    assert_eq!(tree.id, 0);
    assert!(tree.nodes[0].children.is_none());
    assert_eq!(tree.nodes[0].indices, vec![0, 1, 2, 3]);
}

#[test]
fn split_follows_longest_axis() {
    // spread along y only
    let nodes = Nodes::new(vec![[1, 9], [1, -3], [2, 4], [1, 0], [2, 7]]);
    let tree = ClusterTree::build_tree(&nodes, 2);
    let root = &tree.nodes[tree.id];
    assert_eq!(root.indices, vec![1, 3, 2, 4, 0]);
    let [l, r] = root.children.unwrap();
    // the lower half has floor(5 / 2) points
    assert_eq!(tree.nodes[l].indices, vec![1, 3]);
    assert_eq!(tree.nodes[r].indices.len(), 3);
    check_partition(&tree, 5, 2);
    check_union(&tree);
}

#[test]
fn coincident_points_split_in_order() {
    let nodes = Nodes::new(vec![[3, 3, 3]; 5]);
    let tree = ClusterTree::build_tree(&nodes, 1);
    assert_eq!(tree.nodes.len(), 9);
    assert_eq!(tree.nodes[tree.id].indices, vec![0, 1, 2, 3, 4]);
    let leaves: Vec<Vec<usize>> = leaves_of(&tree);
    assert_eq!(leaves, vec![vec![0], vec![1], vec![2], vec![3], vec![4]]);
}

#[test]
fn single_point_tree() {
    let nodes = Nodes::new(vec![[7, -2]]);
    let tree = ClusterTree::build_tree(&nodes, 1);
    assert_eq!(tree.nodes.len(), 1);
    assert_eq!(tree.nodes[0].bbox.min, [7, -2]);
    assert_eq!(tree.nodes[0].bbox.max, [7, -2]);
}

#[test]
fn leaves_partition_the_points() {
    let mut pts: Vec<[i32; 3]> = Vec::new();
    let mut s: i64 = 12345;
    for _ in 0..200 {
        let mut p = [0i32; 3];
        for d in 0..3 {
            s = (s * 1103515245 + 12345) % 2147483648;
            p[d] = (s % 2001) as i32 - 1000;
        }
        pts.push(p);
    }
    let nodes = Nodes::new(pts);
    for leaf_size in [1usize, 3, 8, 64, 200, 500] {
        let tree = ClusterTree::build_tree(&nodes, leaf_size);
        check_partition(&tree, 200, leaf_size);
        check_union(&tree);
        let root = &tree.nodes[tree.id];
        assert_eq!(root.bbox.min, BBox::from_points(&nodes.points).min);
        assert_eq!(root.bbox.max, BBox::from_points(&nodes.points).max);
    }
}

#[test]
fn extreme_coordinates() {
    let nodes = Nodes::new(vec![[i32::MIN, i32::MAX], [i32::MAX, i32::MIN], [0, 0]]);
    let tree = ClusterTree::build_tree(&nodes, 1);
    check_partition(&tree, 3, 1);
    check_union(&tree);
    assert_eq!(tree.nodes[tree.id].bbox.min, [i32::MIN, i32::MIN]);
}
