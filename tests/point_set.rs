use hmats_rs::{BBox, Nodes};

#[test]
fn point_lookup() {
    let nodes = Nodes::new(vec![[0, 0, 3], [4, 2, 3], [5, 5, 3], [0, 5, 3]]);
    assert_eq!(*nodes.point(2), [5, 5, 3]);
}

#[test]
fn bbox_of_index_subset() {
    let nodes = Nodes::new(vec![[0, 0, 3], [4, 2, 3], [5, 5, 3], [0, 5, 3]]);
    let b = nodes.bbox_from_indices(&[0, 1, 3]);
    assert_eq!(b.min, [0, 0, 3]);
    assert_eq!(b.max, [4, 5, 3]);
    let single = nodes.bbox_from_indices(&[2]);
    assert_eq!(single.min, [5, 5, 3]);
    assert_eq!(single.max, [5, 5, 3]);
}

#[test]
fn bbox_of_all_points() {
    let b = BBox::from_points(&[[3, -1], [-2, 8], [0, 0]]);
    assert_eq!(b.min, [-2, -1]);
    assert_eq!(b.max, [3, 8]);
}

#[test]
fn doubled_centre() {
    let b = BBox { min: [0, -3, 1], max: [5, 3, 1] };
    assert_eq!(b.centre(), vec![5, 0, 2]);
}

#[test]
fn centre_distance_is_squared_and_doubled() {
    // centres (0,0) and (3,4): distance 5, doubled 10, squared 100
    let a = BBox { min: [-1, -1], max: [1, 1] };
    let b = BBox { min: [2, 3], max: [4, 5] };
    assert_eq!(BBox::bbox_distance(&a, &b), 100);
    assert_eq!(BBox::bbox_distance(&b, &a), 100);
    assert_eq!(BBox::bbox_distance(&a, &a), 0);
}

#[test]
fn centre_distance_at_extremes() {
    let a = BBox { min: [i32::MIN; 2], max: [i32::MIN; 2] };
    let b = BBox { min: [i32::MAX; 2], max: [i32::MAX; 2] };
    let diff: i128 = 2 * (i32::MAX as i128 - i32::MIN as i128);
    assert_eq!(BBox::bbox_distance(&a, &b), 2 * diff * diff);
}
