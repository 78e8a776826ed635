use kdtree::KdTree;

/// A small linear congruential generator, so that the point sets are reproducible.
struct Lcg(u64);

impl Lcg {
    fn next_in(&mut self, lo: i32, hi: i32) -> i32 {
        self.0 = self.0.wrapping_mul(6364136223846793005).wrapping_add(1442695040888963407);
        let span = (hi - lo + 1) as u64;
        lo + ((self.0 >> 33) % span) as i32
    }
}

fn sq<const D: usize>(a: &[i32; D], b: &[i32; D]) -> u128 {
    a.iter()
        .zip(b.iter())
        .map(|(x, y)| {
            let d = (*x as i64 - *y as i64).unsigned_abs() as u128;
            d * d
        })
        .sum()
}

fn brute_force_min<const D: usize>(points: &[[i32; D]], target: &[i32; D]) -> u128 {
    points.iter().map(|p| sq(p, target)).min().unwrap()
}

fn random_points<const D: usize>(rng: &mut Lcg, n: usize, lo: i32, hi: i32) -> Vec<[i32; D]> {
    (0..n)
        .map(|_| {
            let mut p = [0; D];
            for c in p.iter_mut() {
                *c = rng.next_in(lo, hi);
            }
            p
        })
        .collect()
}

#[test]
fn every_stored_point_is_found_at_distance_zero() {
    let mut rng = Lcg(7);
    let points = random_points::<3>(&mut rng, 200, -50, 50);
    let tree = KdTree::from(points.clone());
    for p in &points {
        let found = tree.nearest(p).unwrap();
        assert_eq!(found, p);
    }
}

#[test]
fn search_matches_brute_force_in_two_dimensions() {
    let mut rng = Lcg(11);
    let points = random_points::<2>(&mut rng, 300, -1000, 1000);
    let tree = KdTree::from(points.clone());
    for _ in 0..300 {
        let target = [rng.next_in(-1200, 1200), rng.next_in(-1200, 1200)];
        let found = tree.nearest_by_coord(&target).unwrap();
        assert_eq!(sq(found, &target), brute_force_min(&points, &target));
        assert!(points.contains(found));
    }
}

#[test]
fn search_matches_brute_force_after_insertions() {
    let mut rng = Lcg(23);
    let mut points = random_points::<4>(&mut rng, 40, -20, 20);
    let mut tree = KdTree::from(points.clone());
    for _ in 0..60 {
        let p = [
            rng.next_in(-20, 20),
            rng.next_in(-20, 20),
            rng.next_in(-20, 20),
            rng.next_in(-20, 20),
        ];
        tree.add_point(p);
        points.push(p);
        let target = [
            rng.next_in(-25, 25),
            rng.next_in(-25, 25),
            rng.next_in(-25, 25),
            rng.next_in(-25, 25),
        ];
        let found = tree.nearest(&target).unwrap();
        assert_eq!(sq(found, &target), brute_force_min(&points, &target));
    }
    assert_eq!(tree.size(), 100);
}

#[test]
fn duplicate_heavy_input_is_searched_correctly() {
    let mut points = vec![[3, 3]; 50];
    points.extend(vec![[7, 1]; 30]);
    points.push([0, 0]);
    let tree = KdTree::from(points.clone());
    assert_eq!(tree.nearest_by_coord(&[4, 4]), Some(&[3, 3]));
    assert_eq!(tree.nearest_by_coord(&[8, 0]), Some(&[7, 1]));
    assert_eq!(tree.nearest_by_coord(&[-1, -1]), Some(&[0, 0]));
    assert_eq!(tree.size(), 81);
}

#[test]
fn equidistant_points_give_one_of_them() {
    let tree = KdTree::from(vec![[0, 0], [2, 0], [1, 5]]);
    let found = tree.nearest_by_coord(&[1, 0]).unwrap();
    assert!(found == &[0, 0] || found == &[2, 0]);
}

#[test]
fn empty_tree_finds_nothing() {
    let tree = KdTree::<3, [i32; 3]>::from(Vec::new());
    assert!(tree.is_empty());
    assert_eq!(tree.size(), 0);
    assert_eq!(tree.height(), 0);
    assert_eq!(tree.nearest_by_coord(&[0, 0, 0]), None);
    assert_eq!(tree.nearest(&[1, 2, 3]), None);
}

#[test]
fn size_counts_built_and_added_points() {
    let mut tree = KdTree::from(vec![[1, 1], [2, 2], [3, 3]]);
    assert_eq!(tree.size(), 3);
    tree.add_point([4, 4]);
    assert_eq!(tree.size(), 4);
    tree.add_point([4, 4]);
    assert_eq!(tree.size(), 5);
}

#[test]
fn balanced_height_is_the_bit_length() {
    let tree = KdTree::from((0..100).map(|i| [i, 100 - i]).collect::<Vec<_>>());
    assert_eq!(tree.height(), 7);
    let tree = KdTree::from(vec![[5, 5]]);
    assert_eq!(tree.height(), 1);
    let tree = KdTree::from((0..1024).map(|i| [i % 7, i / 7]).collect::<Vec<_>>());
    assert_eq!(tree.height(), 11);
    let tree = KdTree::from(vec![[0, 0]; 100]);
    assert_eq!(tree.height(), 7);
}

#[test]
fn sorted_insertions_degrade_height() {
    let mut tree = KdTree::<2, [i32; 2]>::from(Vec::new());
    for i in 1..=10 {
        tree.add_point([i, i]);
    }
    assert_eq!(tree.height(), 10);
    assert_eq!(tree.nearest_by_coord(&[7, 8]), Some(&[7, 7]));
}

#[test]
fn added_point_strictly_nearer_is_found() {
    let mut tree = KdTree::from(vec![[0, 0], [10, 0], [0, 10]]);
    let target = [6, 7];
    assert_eq!(tree.nearest(&target), Some(&[0, 10]));
    tree.add_point([6, 6]);
    assert_eq!(tree.nearest(&target), Some(&[6, 6]));
}

#[test]
fn zero_dimension_tree_keeps_points_and_finds_nothing() {
    let mut tree = KdTree::<0, [i32; 0]>::from(vec![[], []]);
    tree.add_point([]);
    assert_eq!(tree.size(), 3);
    assert!(tree.is_empty());
    assert_eq!(tree.height(), 0);
    assert_eq!(tree.nearest(&[]), None);
}

#[test]
fn extreme_coordinates_do_not_overflow() {
    let tree = KdTree::from(vec![[i32::MIN, i32::MIN, i32::MIN], [i32::MAX, i32::MAX, i32::MAX]]);
    assert_eq!(tree.nearest_by_coord(&[-1, -1, -1]), Some(&[i32::MIN, i32::MIN, i32::MIN]));
    assert_eq!(tree.nearest_by_coord(&[0, 0, 0]), Some(&[i32::MAX, i32::MAX, i32::MAX]));
}

#[test]
fn tuple_and_scalar_points() {
    let tree = KdTree::<2, (i32, i32)>::from(vec![(1, 1), (8, 3), (-4, 2)]);
    assert_eq!(tree.nearest(&(7, 7)), Some(&(8, 3)));
    let tree = KdTree::<1, i32>::from(vec![10, -3, 42, 17]);
    assert_eq!(tree.nearest(&15), Some(&17));
    assert_eq!(tree.nearest(&-100), Some(&-3));
    let tree = KdTree::<3, (i32, i32, i32)>::from(vec![(0, 0, 0), (5, 5, 5)]);
    assert_eq!(tree.nearest(&(4, 4, 3)), Some(&(5, 5, 5)));
    let tree = KdTree::<4, (i32, i32, i32, i32)>::from(vec![(0, 0, 0, 0), (1, 2, 3, 4)]);
    assert_eq!(tree.nearest(&(1, 2, 3, 3)), Some(&(1, 2, 3, 4)));
}

#[test]
fn ties_keep_the_point_found_first() {
    // The root is [5, 6]; [7, 8] is as near to [6, 7] and is not taken.
    let tree = KdTree::<2, [i32; 2]>::from(vec![[1, 2], [3, 4], [5, 6], [7, 8]]);
    assert_eq!(tree.nearest_by_coord(&[6, 7]), Some(&[5, 6]));
    // [3, 4] is met before [1, 2], and both lie at squared distance 2 from [2, 3].
    assert_eq!(tree.nearest_by_coord(&[2, 3]), Some(&[3, 4]));
}

#[test]
fn tree_converts_from_a_vector_and_clones() {
    let tree: KdTree<2, [i32; 2]> = vec![[0, 0], [4, 4], [9, 1]].into();
    let copy = tree.clone();
    assert_eq!(copy.size(), 3);
    assert_eq!(copy.height(), tree.height());
    assert_eq!(copy.nearest_by_coord(&[8, 2]), Some(&[9, 1]));
    assert!(format!("{:?}", copy).contains("KdTree"));
}
