use kmeans::{median, Point};
use rand::rngs::StdRng;
use rand::SeedableRng;

#[test]
fn even() {
    let mut rng = StdRng::seed_from_u64(0);
    let points = vec![
        Point([1]),
        Point([2]),
        Point([5]),
        Point([8]),
        Point([9]),
        Point([6]),
        Point([4]),
        Point([10]),
        Point([7]),
        Point([3]),
    ];
    assert_eq!(median(&points, 0, &mut rng), 5);
}

#[test]
fn odd() {
    let mut rng = StdRng::seed_from_u64(0);
    let points = vec![
        Point([1]),
        Point([2]),
        Point([5]),
        Point([8]),
        Point([9]),
        Point([6]),
        Point([4]),
        Point([7]),
        Point([3]),
    ];
    assert_eq!(median(&points, 0, &mut rng), 5);
}

#[test]
fn median_single_point() {
    let mut rng = StdRng::seed_from_u64(1);
    assert_eq!(median(&[Point([4, -9])], 1, &mut rng), -9);
}

#[test]
fn median_matches_sorting_for_any_seed() {
    let coords: Vec<i32> = vec![7, -3, 7, 0, 12, -3, 5, 5, 5, 1, 9, -8, 7];
    let points: Vec<Point<2>> = coords.iter().map(|&c| Point([c, -c])).collect();
    for n in 1..=points.len() {
        let part = &points[..n];
        for d in 0..2 {
            let mut sorted: Vec<i32> = part.iter().map(|p| p.0[d]).collect();
            sorted.sort();
            for seed in 0..5u64 {
                let mut rng = StdRng::seed_from_u64(seed);
                assert_eq!(median(part, d, &mut rng), sorted[(n - 1) / 2]);
            }
        }
    }
}

#[test]
fn median_of_equal_values() {
    let mut rng = StdRng::seed_from_u64(3);
    let points = vec![Point([2]); 6];
    assert_eq!(median(&points, 0, &mut rng), 2);
}
