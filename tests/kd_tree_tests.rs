use kdtree::KdTree;

#[test]
fn test_kdtree_construction() {
    let points = vec![[1, 2], [3, 4], [5, 6], [7, 8]];

    let kdtree = KdTree::<2, [i32; 2]>::from(points.clone());

    assert!(!kdtree.is_empty());
}

#[test]
fn test_nearest_by_coord() {
    let points = vec![[1, 2], [4, 4], [5, 6], [7, 8]];

    let kdtree = KdTree::<2, [i32; 2]>::from(points.clone());

    let nearest = kdtree.nearest_by_coord(&[2, 3]).unwrap();
    assert_eq!(nearest, &[1, 2]);

    let nearest = kdtree.nearest_by_coord(&[6, 7]).unwrap();
    assert_eq!(nearest, &[5, 6]);
}

#[test]
fn test_nearest() {
    let points = vec![[1, 2], [4, 4], [5, 6], [7, 8]];

    let kdtree = KdTree::<2, [i32; 2]>::from(points.clone());
    assert!(!kdtree.is_empty());

    let target = [2, 3];
    let nearest = kdtree.nearest(&target).unwrap();
    assert_eq!(nearest, &[1, 2]);

    let target = [6, 7];
    let nearest = kdtree.nearest(&target).unwrap();
    assert_eq!(nearest, &[5, 6]);
}

#[test]
fn test_empty_tree() {
    let points: Vec<[i32; 2]> = vec![];

    let kdtree = KdTree::<2, [i32; 2]>::from(points);

    assert!(kdtree.nearest_by_coord(&[1, 2]).is_none());
}

#[test]
fn test_single_point_tree() {
    let points = vec![[1, 2]];

    let kdtree = KdTree::<2, [i32; 2]>::from(points.clone());

    let nearest = kdtree.nearest_by_coord(&[3, 4]).unwrap();
    assert_eq!(nearest, &[1, 2]);
}

#[test]
fn test_large_tree() {
    // Coordinates in tenths: the points (i, i) for i in 0..100, the targets (50.5, 50.5)
    // and (99.9, 99.9).
    let points = (0..100).map(|i| [i * 10, i * 10]).collect::<Vec<_>>();

    let kdtree = KdTree::from(points.clone());

    let nearest = kdtree.nearest_by_coord(&[505, 505]).unwrap();
    assert_eq!(nearest, &[500, 500]);

    let nearest = kdtree.nearest_by_coord(&[999, 999]).unwrap();
    assert_eq!(nearest, &[990, 990]);
}

#[test]
fn test_zero_dim_tree() {
    let points: Vec<[i32; 0]> = (0..100).map(|_i| []).collect::<Vec<_>>();

    let kdtree = KdTree::from(points);

    let nearest = kdtree.nearest_by_coord(&[]);
    assert!(nearest.is_none());
}

#[test]
fn test_add() {
    let points = vec![[1, 1], [0, 0], [5, 5]];

    let mut kd_tree = KdTree::from(points);

    let nearest = kd_tree.nearest(&[10, 10]);
    assert_eq!(nearest, Some(&[5, 5]));

    kd_tree.add_point([9, 5]);

    let nearest = kd_tree.nearest(&[10, 10]);
    assert_eq!(nearest, Some(&[9, 5]));
}

#[test]
fn test_add_to_empty_tree() {
    let points = vec![];

    let mut kd_tree = KdTree::from(points);

    let nearest = kd_tree.nearest(&[10, 10]);
    assert_eq!(nearest, None);

    kd_tree.add_point([9, 5]);

    let nearest = kd_tree.nearest(&[10, 10]);
    assert_eq!(nearest, Some(&[9, 5]));
}
