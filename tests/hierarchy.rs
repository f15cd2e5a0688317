use raytracer::aabb::Aabb;
use raytracer::bvh::{build_bvh, BvhItem, Node};
use raytracer::order::ShapeKey;

fn cube(x: i64, half: i64) -> Aabb {
    Aabb { x0: x - half, x1: x + half, y0: -half, y1: half, z0: -half, z1: half }
}

fn sphere_item(x: i64) -> BvhItem {
    BvhItem { key: ShapeKey::Sphere(x), hit_box: Some(cube(x, 1)) }
}

fn leaves(node: &Node, out: &mut Vec<usize>) {
    match node {
        Node::Empty => {}
        Node::Leaf { prim, .. } => out.push(*prim),
        Node::Inner { lch, rch, .. } => {
            leaves(lch, out);
            leaves(rch, out);
        }
    }
}

fn leaf_order(node: &Node) -> Vec<usize> {
    let mut out = Vec::new();
    leaves(node, &mut out);
    out
}

fn scan(n: usize, hit: &dyn Fn(usize) -> Option<u64>) -> Option<u64> {
    (0..n).filter_map(|p| hit(p)).min()
}

struct Lcg(u64);

impl Lcg {
    fn next(&mut self) -> u64 {
        self.0 = self.0.wrapping_mul(6364136223846793005).wrapping_add(1442695040888963407);
        self.0 >> 33
    }
}

#[test]
fn build_of_no_primitives_is_empty_and_never_hit() {
    let root = build_bvh(&vec![]);
    assert!(matches!(root, Node::Empty));
    assert_eq!(root.nearest_hit(&|_b: Aabb| true, &|_p: usize| Some(1)), None);
}

#[test]
fn build_of_one_primitive_is_a_leaf() {
    let root = build_bvh(&vec![sphere_item(4)]);
    match root {
        Node::Leaf { prim, hit_box } => {
            assert_eq!(prim, 0);
            assert_eq!(hit_box, Some(cube(4, 1)));
        }
        _ => panic!("expected a leaf"),
    }
}

#[test]
fn build_of_two_primitives_merges_their_boxes() {
    let root = build_bvh(&vec![sphere_item(10), sphere_item(-10)]);
    match &root {
        Node::Inner { lch, rch, hit_box } => {
            assert!(matches!(**lch, Node::Leaf { prim: 1, .. }));
            assert!(matches!(**rch, Node::Leaf { prim: 0, .. }));
            assert_eq!(*hit_box, Some(Aabb::merge_aabb(&cube(-10, 1), &cube(10, 1))));
        }
        _ => panic!("expected an inner node"),
    }
}

#[test]
fn build_splits_at_the_midpoint_of_the_sorted_list() {
    let items: Vec<BvhItem> = [5, 1, 4, 2, 3].iter().map(|x| sphere_item(*x)).collect();
    let root = build_bvh(&items);
    assert_eq!(leaf_order(&root), vec![1, 3, 4, 2, 0]);
    match &root {
        Node::Inner { lch, rch, .. } => {
            assert_eq!(leaf_order(lch), vec![1, 3]);
            assert_eq!(leaf_order(rch), vec![4, 2, 0]);
        }
        _ => panic!("expected an inner node"),
    }
}

#[test]
fn an_unbounded_primitive_leaves_its_ancestors_unbounded() {
    let items = vec![
        BvhItem { key: ShapeKey::Plane(0), hit_box: None },
        sphere_item(3),
        sphere_item(6),
    ];
    let root = build_bvh(&items);
    assert_eq!(root.hit_box(), None);
    assert_eq!(leaf_order(&root), vec![0, 1, 2]);
}

#[test]
fn a_missed_box_prunes_its_subtree() {
    let items: Vec<BvhItem> = (0..4).map(|x| sphere_item(x * 10)).collect();
    let root = build_bvh(&items);
    let found = root.nearest_hit(&|_b: Aabb| false, &|_p: usize| Some(1));
    assert_eq!(found, None);
}

#[test]
fn the_nearest_of_several_hits_is_found() {
    let items: Vec<BvhItem> = (0..6).map(|x| sphere_item(x * 10)).collect();
    let root = build_bvh(&items);
    let times = [None, Some(40), Some(25), None, Some(31), Some(90)];
    let found = root.nearest_hit(&|_b: Aabb| true, &|p: usize| times[p]);
    assert_eq!(found, Some((2, 25)));
}

#[test]
fn equal_times_keep_the_right_hand_hit() {
    let root = build_bvh(&vec![sphere_item(0), sphere_item(10)]);
    let found = root.nearest_hit(&|_b: Aabb| true, &|_p: usize| Some(7));
    assert_eq!(found, Some((1, 7)));
}

#[test]
fn traversal_matches_a_linear_scan() {
    let mut rng = Lcg(7);
    for n in [0usize, 1, 2, 8, 13, 40] {
        for round in 0..20 {
            let xs: Vec<i64> = (0..n).map(|_| (rng.next() % 200) as i64 - 100).collect();
            let items: Vec<BvhItem> = xs.iter().map(|x| sphere_item(*x)).collect();
            let root = build_bvh(&items);
            // A ray along the x axis from `from`, meeting the spheres
            // whose centre lies ahead of it within a band of y.
            let from = (rng.next() % 200) as i64 - 100 + round;
            let band: Vec<bool> = (0..n).map(|_| rng.next() % 3 != 0).collect();
            let hit = |p: usize| {
                if band[p] && xs[p] - 1 >= from {
                    Some((xs[p] - 1 - from) as u64)
                } else {
                    None
                }
            };
            let box_test = |b: Aabb| b.x1 >= from;
            let found = root.nearest_hit(&box_test, &hit);
            assert_eq!(found.map(|h| h.1), scan(n, &hit));
            if let Some((p, t)) = found {
                assert_eq!(hit(p), Some(t));
            }
        }
    }
}

#[test]
fn building_and_querying_twice_agree() {
    let items: Vec<BvhItem> = [9, -3, 9, 0, 12, -3, 5, 5].iter().map(|x| sphere_item(*x)).collect();
    let first = build_bvh(&items);
    let second = build_bvh(&items);
    assert_eq!(first, second);
    let hit = |p: usize| if p % 2 == 0 { Some(p as u64 * 3) } else { None };
    let a = first.nearest_hit(&|_b: Aabb| true, &hit);
    let b = second.nearest_hit(&|_b: Aabb| true, &hit);
    assert_eq!(a, b);
    assert_eq!(a, Some((0, 0)));
}

#[test]
fn bind_entity_makes_a_leaf() {
    let mut node = Node::make_node();
    assert!(matches!(node, Node::Empty));
    node.bind_entity(3, Some(cube(0, 2)));
    assert_eq!(node, Node::Leaf { prim: 3, hit_box: Some(cube(0, 2)) });
    assert_eq!(node.hit_box(), Some(cube(0, 2)));
}
