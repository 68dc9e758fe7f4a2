use rtree::{AxisBox, Point, RTree, RTreeOptions, Rect};

/// Deterministic pseudo-random coordinates in `[0, 1000)`.
fn random_points(n: usize, seed: u64) -> Vec<Point<2>> {
    let mut state = seed;
    let mut next = move || {
        state = state.wrapping_mul(6364136223846793005).wrapping_add(1442695040888963407);
        ((state >> 33) % 1000) as i32
    };
    (0..n).map(|_| Point::new([next(), next()])).collect()
}

fn create_random_tree(n: usize, seed: u64) -> (RTree<Point<2>>, Vec<Point<2>>) {
    let points = random_points(n, seed);
    let mut tree = RTree::new();
    for p in &points {
        tree.insert(*p);
    }
    (tree, points)
}

fn dist2(a: &Point<2>, b: &Point<2>) -> u128 {
    let dx = (a.coords[0] as i64 - b.coords[0] as i64) as i128;
    let dy = (a.coords[1] as i64 - b.coords[1] as i64) as i128;
    (dx * dx + dy * dy) as u128
}

#[test]
fn test_tree_with_integral_points() {
    let mut tree = RTree::new();
    tree.insert(Point::new([13, 37]));
    assert!(tree.lookup(&vec![13, 37]).is_some())
}

#[test]
fn test_tree_with_array_points() {
    let mut tree = RTree::<Point<3>>::new();
    tree.insert(Point::new([13i32, 37, 12]));
    assert!(tree.lookup(&vec![13, 37, 12]).is_some())
}

#[test]
fn test_lookup_in_circle() {
    let (tree, points) = create_random_tree(1000, 10233);
    let sample_points = random_points(100, 66123);
    let radius: u128 = 20;
    for sample_point in &sample_points {
        let mut expected = Vec::new();
        for point in &points {
            if dist2(point, sample_point) < radius * radius {
                expected.push(point);
            }
        }
        let found = tree.lookup_in_circle(&sample_point.to_vec(), radius * radius);
        assert_eq!(found.len(), expected.len());
        for p in &found {
            assert!(expected.contains(p));
        }
        for p in &expected {
            assert!(found.contains(p));
        }
    }
}

#[test]
fn test_lookup_in_rect() {
    let (tree, points) = create_random_tree(1000, 10233);
    let sample_points = random_points(100, 66123);
    let size = 20;
    for sample_point in &sample_points {
        let corner = vec![sample_point.coords[0] + size, sample_point.coords[1] + size];
        let sample_rect = Rect::from_corners(&sample_point.to_vec(), &corner);
        let mut expected = Vec::new();
        for point in &points {
            if sample_rect.contains_point(&point.to_vec()) {
                expected.push(point);
            }
        }
        let found = tree.lookup_in_rectangle(&sample_rect);
        assert_eq!(found.len(), expected.len());
        for p in &found {
            assert!(expected.contains(p));
        }
        for p in &expected {
            assert!(found.contains(p));
        }
    }
}

#[test]
fn test_lookup() {
    let (mut tree, points) = create_random_tree(10000, 9876);
    let sample_points = random_points(1000, 2103);
    for sample_point in &sample_points {
        let expected = points.iter().any(|p| p == sample_point);
        assert_eq!(tree.lookup(&sample_point.to_vec()).is_some(), expected);
        assert_eq!(tree.lookup_mut(&sample_point.to_vec()).is_some(), expected);
    }
    for point in points.iter() {
        assert!(tree.lookup(&point.to_vec()) == Some(point));
        assert!(tree.lookup_mut(&point.to_vec()).map(|x| *x) == Some(*point));
    }
}

#[test]
fn test_lookup_and_remove() {
    let (mut tree, points) = create_random_tree(10000, 3141592653);
    let outside = random_points(1000, 23022991);
    for sample_point in &outside {
        let shifted = vec![sample_point.coords[0] + 5000, sample_point.coords[1]];
        assert!(!tree.lookup_and_remove(&shifted).is_some());
    }
    for point in &points {
        assert_eq!(tree.lookup(&point.to_vec()), Some(point));
    }
    for point in &points {
        assert_eq!(tree.lookup_and_remove(&point.to_vec()).as_ref(), Some(point));
    }
    assert!(tree.root().children.is_empty());
    assert_eq!(tree.size(), 0);
    tree.insert(Point::new([20, 10]));
    assert_eq!(tree.size(), 1);
}

#[test]
fn test_remove() {
    let points = random_points(100, 911110123454);
    let mut tree = RTree::new();
    for _ in 0..2 {
        for p in points.iter() {
            tree.insert(*p);
            tree.insert(*p);
        }
        let absent = Point::new([-1, -1]);
        assert!(!tree.remove(&absent));
        let mut size = 200usize;
        for p in &points {
            for _ in 0..2 {
                assert!(tree.remove(p));
                size -= 1;
                assert_eq!(tree.size(), size);
            }
        }
    }
}

#[test]
fn test_iteration() {
    let (tree, reference_points) = create_random_tree(100, 1101001000);
    assert_eq!(tree.iter().len(), 100);
    let points: Vec<Point<2>> = tree.iter().into_iter().map(|v| *v).collect();
    for p in points.iter() {
        assert!(reference_points.contains(p));
    }
    for p in reference_points.iter() {
        assert!(points.contains(p));
    }
}

#[test]
fn empty_tree_answers_nothing() {
    let mut tree: RTree<Point<2>> = RTree::new();
    let q = vec![0, 0];
    assert!(tree.lookup(&q).is_none());
    assert!(tree.lookup_in_circle(&q, 100).is_empty());
    let r = Rect::from_corners(&vec![-10, -10], &vec![10, 10]);
    assert!(tree.lookup_in_rectangle(&r).is_empty());
    assert!(tree.mbr().is_none());
    assert!(!tree.remove(&Point::new([0, 0])));
    assert!(tree.lookup_and_remove(&q).is_none());
    assert!(!tree.contains(&Point::new([0, 0])));
    assert_eq!(tree.size(), 0);
    assert!(tree.iter().is_empty());
}

#[test]
fn single_element_circle_is_strict() {
    let mut tree = RTree::new();
    tree.insert(Point::new([3, 4]));
    // squared distance from the origin is 25
    assert_eq!(tree.lookup_in_circle(&vec![0, 0], 26).len(), 1);
    assert_eq!(tree.lookup_in_circle(&vec![0, 0], 25).len(), 0);
}

#[test]
fn mbr_covers_everything_exactly() {
    let (tree, points) = create_random_tree(500, 42);
    let b = tree.mbr().unwrap();
    let min_x = points.iter().map(|p| p.coords[0]).min().unwrap();
    let max_x = points.iter().map(|p| p.coords[0]).max().unwrap();
    let min_y = points.iter().map(|p| p.coords[1]).min().unwrap();
    let max_y = points.iter().map(|p| p.coords[1]).max().unwrap();
    assert_eq!(b.lower, vec![min_x, min_y]);
    assert_eq!(b.upper, vec![max_x, max_y]);
}

#[test]
fn insert_then_lookup_and_remove_restores_size() {
    let (mut tree, _) = create_random_tree(300, 7);
    let before = tree.size();
    let o = Point::new([-50, 1234]);
    tree.insert(o);
    assert_eq!(tree.size(), before + 1);
    assert_eq!(tree.lookup_and_remove(&vec![-50, 1234]), Some(o));
    assert_eq!(tree.size(), before);
}

#[test]
fn custom_options_and_contains() {
    let options = RTreeOptions::new().set_max_size(4).set_min_size(2).set_reinsertion_count(1);
    let mut tree = RTree::new_with_options(options);
    let points = random_points(200, 99);
    for p in &points {
        tree.insert(*p);
    }
    for p in &points {
        assert!(tree.contains(p));
    }
    assert!(!tree.contains(&Point::new([5000, 5000])));
    assert_eq!(tree.size(), 200);
}

#[test]
fn rect_geometry() {
    let r = Rect::from_corners(&vec![4, 1], &vec![0, 3]);
    assert_eq!(r.lower, vec![0, 1]);
    assert_eq!(r.upper, vec![4, 3]);
    assert!(r.contains_point(&vec![2, 2]));
    assert!(!r.contains_point(&vec![5, 2]));
    assert_eq!(r.min_dist2(&vec![7, 7]), 9 + 16);
    assert_eq!(r.min_dist2(&vec![1, 2]), 0);
}

#[test]
fn test_nearest_neighbor() {
    let (tree, points) = create_random_tree(1000, 10233588812);
    let sample_points = random_points(100, 66123112);
    for sample_point in &sample_points {
        let mut closest_dist = u128::MAX;
        for point in &points {
            let d = dist2(point, sample_point);
            if d < closest_dist {
                closest_dist = d;
            }
        }
        let found = tree.nearest_neighbor(&sample_point.to_vec()).unwrap();
        assert_eq!(dist2(found, sample_point), closest_dist);
    }
}

#[test]
fn test_higher_dimensions() {
    let mut tree: RTree<Point<4>> = RTree::new();
    let mut state: u64 = 1231992;
    let mut entries = Vec::new();
    for _ in 0..1000 {
        let mut c = [0i32; 4];
        for x in c.iter_mut() {
            state = state.wrapping_mul(6364136223846793005).wrapping_add(1442695040888963407);
            *x = ((state >> 33) % 100_000) as i32;
        }
        let entry = Point::new(c);
        entries.push(entry);
        tree.insert(entry);
    }
    for entry in &entries {
        assert!(tree.lookup(&entry.to_vec()).is_some());
        assert_eq!(tree.nearest_neighbor(&entry.to_vec()), Some(entry));
    }
}

#[test]
fn nearest_neighbor_single_and_empty() {
    let mut tree: RTree<Point<2>> = RTree::new();
    assert!(tree.nearest_neighbor(&vec![1, 1]).is_none());
    assert!(tree.close_neighbor(&vec![1, 1]).is_none());
    tree.insert(Point::new([7, -3]));
    assert_eq!(tree.nearest_neighbor(&vec![100, 100]), Some(&Point::new([7, -3])));
    assert_eq!(tree.close_neighbor(&vec![100, 100]), Some(&Point::new([7, -3])));
}

#[test]
fn close_neighbor_returns_a_member() {
    let (tree, points) = create_random_tree(500, 5);
    for q in random_points(50, 77) {
        let c = tree.close_neighbor(&q.to_vec()).unwrap();
        assert!(points.contains(c));
    }
}

#[test]
fn test_nearest_neighbors() {
    let mut tree = RTree::new();
    assert!(tree.nearest_neighbors(&vec![1, 0]).is_empty());
    tree.insert(Point::new([1, 0]));
    tree.insert(Point::new([0, 1]));
    tree.insert(Point::new([-1, 0]));
    tree.insert(Point::new([0, -1]));
    tree.insert(Point::new([3, 0]));
    tree.insert(Point::new([2, 1]));
    tree.insert(Point::new([2, -1]));
    assert_eq!(tree.nearest_neighbors(&vec![0, 0]).len(), 4);
    assert_eq!(tree.nearest_neighbors(&vec![1, 0]).len(), 1);
    assert_eq!(tree.nearest_neighbors(&vec![2, 0]).len(), 4);
}

#[test]
fn nearest_neighbors_match_brute_force() {
    let (tree, points) = create_random_tree(800, 31337);
    for q in random_points(60, 4242) {
        let best = points.iter().map(|p| dist2(p, &q)).min().unwrap();
        let mut expected: Vec<&Point<2>> = points.iter().filter(|p| dist2(p, &q) == best).collect();
        let mut found = tree.nearest_neighbors(&q.to_vec());
        expected.sort_by_key(|p| (p.coords[0], p.coords[1]));
        found.sort_by_key(|p| (p.coords[0], p.coords[1]));
        assert_eq!(found, expected);
    }
}

#[test]
fn lookup_finds_every_inserted_point_at_distance_zero() {
    let (tree, points) = create_random_tree(400, 8080);
    for p in &points {
        assert_eq!(tree.lookup(&p.to_vec()), Some(p));
        let n = tree.nearest_neighbor(&p.to_vec()).unwrap();
        assert_eq!(dist2(n, p), 0);
    }
}

#[test]
fn nearest_n_neighbors_match_sorted_scan() {
    let (tree, points) = create_random_tree(700, 2718);
    for q in random_points(40, 1414) {
        for n in [1usize, 4, 17, 1000] {
            let found = tree.nearest_n_neighbors(&q.to_vec(), n);
            let mut dists: Vec<u128> = points.iter().map(|p| dist2(p, &q)).collect();
            dists.sort();
            dists.truncate(n);
            let got: Vec<u128> = found.iter().map(|p| dist2(p, &q)).collect();
            assert_eq!(got, dists);
            for p in &found {
                assert!(points.contains(p));
            }
        }
    }
}

#[test]
fn nearest_n_neighbors_unit_circle_sample() {
    let mut tree = RTree::new();
    for c in [[1, 0], [0, 1], [-1, 0], [0, -1], [3, 0], [2, 1], [2, -1]] {
        tree.insert(Point::new(c));
    }
    let four = tree.nearest_n_neighbors(&vec![0, 0], 4);
    assert_eq!(four.len(), 4);
    for p in &four {
        assert_eq!(dist2(p, &Point::new([0, 0])), 1);
    }
    assert!(tree.nearest_n_neighbors(&vec![0, 0], 0).is_empty());
    assert_eq!(tree.nearest_n_neighbors(&vec![0, 0], 100).len(), 7);
    let empty: RTree<Point<2>> = RTree::new();
    assert!(empty.nearest_n_neighbors(&vec![0, 0], 3).is_empty());
}

#[test]
fn options_build_and_default() {
    let tree: RTree<Point<2>> = RTreeOptions::new().set_max_size(8).set_min_size(3).build();
    assert_eq!(tree.size(), 0);
    let d: RTree<Point<2>> = RTree::default();
    assert_eq!(d.size(), 0);
    assert_eq!(RTreeOptions::default(), RTreeOptions::new());
}

#[test]
fn root_accessors_track_depth_and_rectangle() {
    let (tree, _) = create_random_tree(200, 11);
    let root = tree.root();
    assert!(root.depth() >= 2);
    assert!(!root.children().is_empty());
    let b = root.mbr();
    assert_eq!(Some(b.lower.clone()), tree.mbr().map(|r| r.lower));
    for child in root.children() {
        assert_eq!(child.depth(), root.depth() - 1);
        let cb = child.mbr();
        assert!(b.contains_rect(&cb));
    }
}

fn random_boxes(n: usize, seed: u64) -> Vec<AxisBox<2>> {
    let corners = random_points(2 * n, seed);
    corners.chunks(2).map(|c| AxisBox::new(c[0].coords, [c[0].coords[0] + c[1].coords[0] % 40, c[0].coords[1] + c[1].coords[1] % 40])).collect()
}

fn box_dist2(b: &AxisBox<2>, q: &[i32; 2]) -> u128 {
    let mut d: u128 = 0;
    for i in 0..2 {
        let lo = b.corner_a[i].min(b.corner_b[i]) as i64;
        let hi = b.corner_a[i].max(b.corner_b[i]) as i64;
        let x = q[i] as i64;
        let g = if x < lo { lo - x } else if x > hi { x - hi } else { 0 };
        d += (g * g) as u128;
    }
    d
}

#[test]
fn test_remove_line() {
    let mut tree = RTree::new();
    let edge = AxisBox::new([0, 0], [1, 1]);
    tree.insert(edge);
    tree.insert(AxisBox::new([3, 4], [0, 2]));
    tree.insert(AxisBox::new([-3, -4], [0, 2]));
    assert!(tree.remove(&edge));
    assert_eq!(tree.size(), 2);
}

#[test]
fn boxes_inserted_twice_are_removed_one_at_a_time() {
    let boxes = random_boxes(100, 911110123454);
    let mut tree = RTree::new();
    for b in &boxes {
        tree.insert(*b);
    }
    for b in &boxes {
        // the same box written with its corners swapped is equal to it
        tree.insert(AxisBox::new(b.corner_b, b.corner_a));
    }
    assert!(!tree.remove(&AxisBox::new([-100, -100], [-90, -90])));
    let mut size = 200usize;
    for b in &boxes {
        for _ in 0..2 {
            assert!(tree.remove(b));
            size -= 1;
            assert_eq!(tree.size(), size);
        }
    }
    assert!(tree.root().children().is_empty());
}

#[test]
fn boxes_queries_match_brute_force() {
    let boxes = random_boxes(600, 606);
    let mut tree = RTree::new();
    for b in &boxes {
        tree.insert(*b);
    }
    for q in random_points(60, 707) {
        let qv = q.to_vec();
        // point lookup finds a box containing the point exactly when one exists
        let expected = boxes.iter().any(|b| box_dist2(b, &q.coords) == 0);
        match tree.lookup(&qv) {
            Some(b) => assert_eq!(box_dist2(b, &q.coords), 0),
            None => assert!(!expected),
        }
        // nearest box
        let best = boxes.iter().map(|b| box_dist2(b, &q.coords)).min().unwrap();
        let nn = tree.nearest_neighbor(&qv).unwrap();
        assert_eq!(box_dist2(nn, &q.coords), best);
        let ties = tree.nearest_neighbors(&qv);
        let expected_ties = boxes.iter().filter(|b| box_dist2(b, &q.coords) == best).count();
        assert_eq!(ties.len(), expected_ties);
        // circle
        let r2: u128 = 900;
        let in_circle = tree.lookup_in_circle(&qv, r2);
        assert_eq!(in_circle.len(), boxes.iter().filter(|b| box_dist2(b, &q.coords) < r2).count());
        // five nearest
        let mut dists: Vec<u128> = boxes.iter().map(|b| box_dist2(b, &q.coords)).collect();
        dists.sort();
        let got: Vec<u128> = tree.nearest_n_neighbors(&qv, 5).iter().map(|b| box_dist2(b, &q.coords)).collect();
        assert_eq!(got, dists[..5].to_vec());
    }
}

#[test]
fn lookup_mut_changes_the_stored_object() {
    let mut tree = RTree::new();
    tree.insert(AxisBox::new([0, 0], [4, 4]));
    tree.insert(AxisBox::new([10, 10], [12, 12]));
    // swap the corners: same box, same rectangle, different stored value
    match tree.lookup_mut(&vec![1, 1]) {
        Some(b) => *b = AxisBox::new([4, 4], [0, 0]),
        None => panic!("a box contains the point"),
    }
    assert_eq!(tree.lookup(&vec![2, 2]).map(|b| b.corner_a), Some([4, 4]));
    assert!(tree.lookup_mut(&vec![7, 7]).is_none());
    assert_eq!(tree.size(), 2);
}
