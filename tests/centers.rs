use kmeans::{random_points, Algorithm, Centers, HyperRectangle, Point, Tree};
use rand::rngs::StdRng;
use rand::SeedableRng;

#[test]
fn owner() {
    // The box [(0, 0), (2, 2)] and centers (-2.5, -2.5), (3.0, 1.0) at scale 1/2.
    let h = HyperRectangle(Point([0, 0]), Point([4, 4]));
    let centers = Centers::<2, 2>::new([Point([-5, -5]), Point([6, 2])]);
    assert_eq!(centers.owner(&h), Option::Some(1));
}

#[test]
fn owner_none_on_tie() {
    let h = HyperRectangle(Point([0, 0]), Point([2, 2]));
    let centers = Centers::<2, 2>::new([Point([-3, 1]), Point([5, 1])]);
    assert_eq!(centers.owner(&h), None);
}

#[test]
fn owner_none_without_domination() {
    // Center 0 is nearest to the box, but the box's far side is nearer to center 1.
    let h = HyperRectangle(Point([0, 0]), Point([10, 2]));
    let centers = Centers::<2, 2>::new([Point([-1, 1]), Point([8, 5])]);
    assert_eq!(centers.owner(&h), None);
}

#[test]
fn owner_is_sound_on_a_grid() {
    let centers = Centers::<3, 2>::new([Point([-4, 0]), Point([9, 1]), Point([2, 12])]);
    for x0 in -6..10 {
        for y0 in -6..10 {
            let h = HyperRectangle(Point([x0, y0]), Point([x0 + 3, y0 + 2]));
            if let Some(c) = centers.owner(&h) {
                for x in x0..=x0 + 3 {
                    for y in y0..=y0 + 2 {
                        assert_eq!(centers.closest(&Point([x, y])), c);
                    }
                }
            }
        }
    }
}

#[test]
fn closest_first_minimum_wins() {
    let centers = Centers::<3, 1>::new([Point([0]), Point([4]), Point([4])]);
    assert_eq!(centers.closest(&Point([2])), 0);
    assert_eq!(centers.closest(&Point([3])), 1);
    assert_eq!(centers.closest(&Point([9])), 1);
}

fn sample_points() -> Vec<Point<2>> {
    let mut points = Vec::new();
    let mut x: i64 = 99;
    for _ in 0..80 {
        x = (x * 1103515245 + 12345) % 2147483648;
        let a = (x % 61) as i32 - 30;
        x = (x * 1103515245 + 12345) % 2147483648;
        let b = (x % 37) as i32 - 18;
        points.push(Point([a, b]));
    }
    points
}

#[test]
fn update_equals_brute_force() {
    let points = sample_points();
    let mut rng = StdRng::seed_from_u64(5);
    let tree = Tree::initialize(&points, &mut rng);
    let center_sets = [
        [Point([-20, -10]), Point([0, 0]), Point([25, 12])],
        [Point([1, 1]), Point([1, 1]), Point([2, 2])],
        [Point([-30, 18]), Point([30, -18]), Point([0, 40])],
    ];
    for cs in center_sets {
        let centers = Centers::<3, 2>::new(cs);
        assert_eq!(centers.update(&tree), centers.assign(&points));
    }
}

#[test]
fn assign_counts_and_sums() {
    let points = vec![Point([0, 0]), Point([1, 0]), Point([10, 10]), Point([9, 11])];
    let centers = Centers::<2, 2>::new([Point([0, 0]), Point([10, 10])]);
    let (sums, counts) = centers.assign(&points);
    assert_eq!(counts, [2, 2]);
    assert_eq!(sums, [[1, 0], [19, 21]]);
    assert_eq!(centers.labels(&points), vec![0, 0, 1, 1]);
}

#[test]
fn recenter_rounds_and_keeps_empty_centers() {
    let centers = Centers::<3, 1>::new([Point([7]), Point([0]), Point([-1])]);
    let (next, moved) = centers.recenter(&[[0], [5], [-5]], &[0, 2, 2]);
    // 5 / 2 = 2.5 rounds to 3, -5 / 2 = -2.5 rounds to -2; center 0 had no points.
    assert_eq!(next, Centers([Point([7]), Point([3]), Point([-2])]));
    assert!(moved);
    let (again, moved) = next.recenter(&[[0], [6], [-4]], &[0, 2, 2]);
    assert_eq!(again, next);
    assert!(!moved);
}

#[test]
fn converged_centers_stay() {
    // The points (0.5, 0.5), (1.5, 0.5), (0.5, 1.5), (1.5, 1.5) at scale 1/2.
    let points = vec![Point([1, 1]), Point([3, 1]), Point([1, 3]), Point([3, 3])];
    let mut rng = StdRng::seed_from_u64(0);
    let tree = Tree::initialize(&points, &mut rng);
    let centers = Centers::<4, 2>::new([points[0], points[1], points[2], points[3]]);
    for algorithm in [Algorithm::Simple, Algorithm::Naive] {
        let (next, moved) = centers.iterate(algorithm, &points, Some(&tree));
        assert_eq!(next, centers);
        assert!(!moved);
    }
    let (next, moved) = centers.iterate(Algorithm::Naive, &points, None);
    assert_eq!(next, centers);
    assert!(!moved);
    assert_eq!(centers.labels(&points), vec![0, 1, 2, 3]);
}

fn fit(points: &[Point<2>], algorithm: Algorithm) -> (Centers<4, 2>, Vec<usize>) {
    let mut rng = StdRng::seed_from_u64(0);
    let mut centers = Centers::new(random_points::<4, 2>(points, &mut rng));
    let tree = match algorithm {
        Algorithm::Simple => Some(Tree::initialize(points, &mut rng)),
        Algorithm::Naive => None,
    };
    loop {
        let (next, moved) = centers.iterate(algorithm, points, tree.as_ref());
        centers = next;
        if !moved {
            return (centers, centers.labels(points));
        }
    }
}

#[test]
fn fit_naive_with_random_state() {
    let points = [Point([1, 1]), Point([3, 1]), Point([1, 3]), Point([3, 3])];
    let (centers, point_centers) = fit(&points, Algorithm::Naive);
    assert_eq!(centers.0, [Point([1, 1]), Point([3, 3]), Point([3, 1]), Point([1, 3])]);
    assert_eq!(point_centers, [0, 2, 3, 1]);
}

#[test]
fn fit_simple_with_random_state() {
    let points = [Point([1, 1]), Point([3, 1]), Point([1, 3]), Point([3, 3])];
    let (centers, point_centers) = fit(&points, Algorithm::Simple);
    assert_eq!(centers.0, [Point([1, 1]), Point([3, 3]), Point([3, 1]), Point([1, 3])]);
    assert_eq!(point_centers, [0, 2, 3, 1]);
}

#[test]
fn random_points_are_distinct_input_points() {
    let points: Vec<Point<1>> = (0..10).map(|i| Point([i * 3])).collect();
    let mut rng = StdRng::seed_from_u64(42);
    let chosen = random_points::<10, 1>(&points, &mut rng);
    let mut values: Vec<i32> = chosen.iter().map(|p| p.0[0]).collect();
    values.sort();
    assert_eq!(values, (0..10).map(|i| i * 3).collect::<Vec<i32>>());
}

#[test]
fn clustering_separates_two_groups() {
    let mut points = Vec::new();
    for i in 0..10 {
        points.push(Point([i % 3, i / 3]));
        points.push(Point([100 + i % 3, 50 + i / 3]));
    }
    let mut rng = StdRng::seed_from_u64(9);
    let tree = Tree::initialize(&points, &mut rng);
    let mut centers = Centers::<2, 2>::new([points[0], points[2]]);
    loop {
        let (next, moved) = centers.iterate(Algorithm::Simple, &points, Some(&tree));
        centers = next;
        if !moved {
            break;
        }
    }
    let labels = centers.labels(&points);
    for i in 0..10 {
        assert_eq!(labels[2 * i], labels[0]);
        assert_eq!(labels[2 * i + 1], labels[1]);
    }
    assert_ne!(labels[0], labels[1]);
}
