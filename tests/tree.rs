use kmeans::{HyperRectangle, Node, NonLeaf, Point, Tree};
use rand::rngs::StdRng;
use rand::SeedableRng;

fn leaf(h: HyperRectangle<2>, p: Point<2>) -> Tree<2> {
    Tree {
        h,
        number_of_points: 1,
        sum_of_points: [p.0[0] as i128, p.0[1] as i128],
        node: Box::new(Node::Leaf(p)),
    }
}

#[test]
fn tree_initialize() {
    // The points (0.5, 0.5), (1.5, 0.5), (0.5, 1.5), (1.5, 1.5) at scale 1/2.
    let points = vec![Point([1, 1]), Point([3, 1]), Point([1, 3]), Point([3, 3])];
    let mut rng = StdRng::seed_from_u64(0);
    let tree = Tree::initialize(&points, &mut rng);

    assert_eq!(
        tree,
        Tree {
            h: HyperRectangle(Point([1, 1]), Point([3, 3])),
            number_of_points: 4,
            sum_of_points: [8, 8],
            node: Box::new(Node::NonLeaf(NonLeaf {
                d: 0,
                v: 1,
                l: Tree {
                    h: HyperRectangle(Point([1, 1]), Point([1, 3])),
                    number_of_points: 2,
                    sum_of_points: [2, 4],
                    node: Box::new(Node::NonLeaf(NonLeaf {
                        d: 1,
                        v: 1,
                        l: leaf(HyperRectangle(Point([1, 1]), Point([1, 1])), Point([1, 1])),
                        r: leaf(HyperRectangle(Point([1, 1]), Point([1, 3])), Point([1, 3])),
                    })),
                },
                r: Tree {
                    h: HyperRectangle(Point([1, 1]), Point([3, 3])),
                    number_of_points: 2,
                    sum_of_points: [6, 4],
                    node: Box::new(Node::NonLeaf(NonLeaf {
                        d: 1,
                        v: 1,
                        l: leaf(HyperRectangle(Point([1, 1]), Point([3, 1])), Point([3, 1])),
                        r: leaf(HyperRectangle(Point([1, 1]), Point([3, 3])), Point([3, 3])),
                    })),
                },
            })),
        }
    );
}

fn sample_points() -> Vec<Point<2>> {
    let mut points = Vec::new();
    let mut x: i64 = 17;
    for _ in 0..60 {
        x = (x * 1103515245 + 12345) % 2147483648;
        let a = (x % 41) as i32 - 20;
        x = (x * 1103515245 + 12345) % 2147483648;
        let b = (x % 23) as i32 - 11;
        points.push(Point([a, b]));
    }
    points
}

fn check_node(t: &Tree<2>) -> Vec<Point<2>> {
    let pts = t.get_points();
    assert_eq!(t.number_of_points, pts.len());
    for d in 0..2 {
        let s: i128 = pts.iter().map(|p| p.0[d] as i128).sum();
        assert_eq!(t.sum_of_points[d], s);
        assert!(t.h.0 .0[d] <= t.h.1 .0[d]);
    }
    for p in &pts {
        assert_eq!(t.h.closest(p), *p);
    }
    if let Node::NonLeaf(n) = &*t.node {
        for child in [&n.l, &n.r] {
            for d in 0..2 {
                assert!(t.h.0 .0[d] <= child.h.0 .0[d]);
                assert!(child.h.1 .0[d] <= t.h.1 .0[d]);
            }
        }
        let mut both = check_node(&n.l);
        both.extend(check_node(&n.r));
        assert_eq!(both, pts);
    }
    pts
}

#[test]
fn tree_keeps_every_point_once() {
    let points = sample_points();
    let mut rng = StdRng::seed_from_u64(7);
    let tree = Tree::initialize(&points, &mut rng);
    let mut got = tree.get_points();
    let mut want = points.clone();
    got.sort_by_key(|p| p.0);
    want.sort_by_key(|p| p.0);
    assert_eq!(got, want);
}

#[test]
fn tree_boxes_and_aggregates() {
    let points = sample_points();
    let mut rng = StdRng::seed_from_u64(11);
    let tree = Tree::initialize(&points, &mut rng);
    check_node(&tree);
}

#[test]
fn tree_of_one_point_is_a_leaf() {
    let points = vec![Point([5, -2])];
    let mut rng = StdRng::seed_from_u64(0);
    let tree = Tree::initialize(&points, &mut rng);
    assert_eq!(tree, leaf(HyperRectangle(Point([5, -2]), Point([5, -2])), Point([5, -2])));
}

#[test]
fn tree_of_identical_points() {
    let points = vec![Point([4, 4]); 5];
    let mut rng = StdRng::seed_from_u64(0);
    let tree = Tree::initialize(&points, &mut rng);
    assert_eq!(tree.get_points(), points);
    assert_eq!(tree.number_of_points, 5);
    assert_eq!(tree.sum_of_points, [20, 20]);
    check_node(&tree);
}

#[test]
fn tree_with_repeated_coordinates() {
    let points = vec![Point([1, 0]), Point([1, 1]), Point([2, 5]), Point([1, 1])];
    let mut rng = StdRng::seed_from_u64(2);
    let tree = Tree::initialize(&points, &mut rng);
    check_node(&tree);
    let mut got = tree.get_points();
    got.sort_by_key(|p| p.0);
    assert_eq!(got, vec![Point([1, 0]), Point([1, 1]), Point([1, 1]), Point([2, 5])]);
}

#[test]
fn tree_in_one_dimension_with_ties() {
    let points = vec![Point([1]), Point([1]), Point([2])];
    let mut rng = StdRng::seed_from_u64(0);
    let tree = Tree::initialize(&points, &mut rng);
    match &*tree.node {
        Node::NonLeaf(n) => {
            assert_eq!(n.v, 1);
            assert_eq!(n.l.get_points(), vec![Point([1]), Point([1])]);
            assert_eq!(n.r.get_points(), vec![Point([2])]);
            match &*n.l.node {
                Node::NonLeaf(m) => {
                    assert_eq!(m.l.number_of_points, 1);
                    assert_eq!(m.r.number_of_points, 1);
                }
                Node::Leaf(_) => panic!("two points make a split"),
            }
        }
        Node::Leaf(_) => panic!("three points make a split"),
    }
}

#[test]
fn tree_center_of_mass() {
    // The points (0.5, 0.5), (1.5, 0.5), (0.5, 1.5), (1.5, 1.5) at scale 1/2:
    // centers of mass (1.0, 1.0), (0.5, 1.0) and (1.5, 1.0).
    let points = vec![Point([1, 1]), Point([3, 1]), Point([1, 3]), Point([3, 3])];
    let mut rng = StdRng::seed_from_u64(0);
    let tree = Tree::initialize(&points, &mut rng);
    assert_eq!(tree.center_of_mass(), Point([2, 2]));
    match &*tree.node {
        Node::NonLeaf(n) => {
            assert_eq!(n.l.center_of_mass(), Point([1, 2]));
            assert_eq!(n.r.center_of_mass(), Point([3, 2]));
        }
        Node::Leaf(_) => panic!("four points make a split"),
    }
}

#[test]
fn center_of_mass_rounds_halves_up() {
    let points = vec![Point([0, -1]), Point([1, -2])];
    let mut rng = StdRng::seed_from_u64(0);
    let tree = Tree::initialize(&points, &mut rng);
    // Means 0.5 and -1.5.
    assert_eq!(tree.center_of_mass(), Point([1, -1]));
}

#[test]
fn split_points_at_a_value_other_than_the_median() {
    // The median of the x coordinates is 1; split at 2 instead.
    let points = vec![Point([0, 0]), Point([3, 1]), Point([2, 3]), Point([1, 5])];
    let h = HyperRectangle(Point([0, 0]), Point([3, 5]));
    let mut rng = StdRng::seed_from_u64(0);
    let (l, r) = Tree::split_points(&points, &h, 0, 2, &mut rng);
    assert_eq!(l.h, HyperRectangle(Point([0, 0]), Point([2, 5])));
    assert_eq!(r.h, HyperRectangle(Point([2, 0]), Point([3, 5])));
    let mut left = l.get_points();
    left.sort_by_key(|p| p.0);
    assert_eq!(left, vec![Point([0, 0]), Point([1, 5]), Point([2, 3])]);
    assert_eq!(r.get_points(), vec![Point([3, 1])]);
    assert_eq!(l.number_of_points + r.number_of_points, points.len());
    assert_eq!(l.sum_of_points, [3, 8]);
    assert_eq!(r.sum_of_points, [3, 1]);
    match &*l.node {
        Node::NonLeaf(n) => assert_eq!(n.d, 1),
        Node::Leaf(_) => panic!("three points make a split"),
    }
}
