use pathtracer::bvh::{order_key, sort_on_axis, BvhNode, SortKey, BVH};
use pathtracer::hit::scan_hit;

/// A closed interval of positions on a line.
#[derive(Clone, Copy, Debug)]
struct Span {
    lo: i64,
    hi: i64,
}

fn join(a: &Span, b: &Span) -> Span {
    Span { lo: a.lo.min(b.lo), hi: a.hi.max(b.hi) }
}

/// A ray from the origin along a line meets primitive `i` at distance
/// `at[i]`.
fn line_hit(at: &[i64], prim: usize, lo: i64, hi: i64) -> Option<i64> {
    let t = at[prim];
    if lo <= t && t <= hi {
        Some(t)
    } else {
        None
    }
}

fn span_hit(bounds: &Span, lo: i64, hi: i64) -> bool {
    bounds.lo <= hi && lo <= bounds.hi
}

fn key_of(t: i64) -> SortKey {
    SortKey::from_bits((t as f64).to_bits(), 0, 0)
}

fn scene(at: &[i64]) -> BVH<Span> {
    let bounds: Vec<Span> = at.iter().map(|&t| Span { lo: t, hi: t }).collect();
    let keys: Vec<SortKey> = at.iter().map(|&t| key_of(t)).collect();
    BVH::new(&bounds, &keys, &join)
}

fn collect_leaves(n: &BvhNode<Span>, out: &mut Vec<usize>) {
    match n {
        BvhNode::Empty => {}
        BvhNode::Leaf(i) => out.push(*i),
        BvhNode::Branch(_, l, r) => {
            collect_leaves(l, out);
            collect_leaves(r, out);
        }
    }
}

struct Lcg(u64);

impl Lcg {
    fn next(&mut self, n: u64) -> u64 {
        self.0 = self.0.wrapping_mul(6364136223846793005).wrapping_add(1442695040888963407);
        (self.0 >> 33) % n
    }
}

#[test]
fn lone_primitive_sits_beside_an_empty_child() {
    let bvh = scene(&[5]);
    assert!(matches!(bvh.left, BvhNode::Leaf(0)));
    assert!(matches!(bvh.right, BvhNode::Empty));
}

#[test]
fn two_primitives_become_the_two_children() {
    let bvh = scene(&[5, 9]);
    assert!(matches!(bvh.left, BvhNode::Leaf(1)));
    assert!(matches!(bvh.right, BvhNode::Leaf(0)));
}

#[test]
fn every_primitive_stands_in_one_leaf() {
    let at: Vec<i64> = (0..37).map(|i| (i * 7919) % 101 - 50).collect();
    let bvh = scene(&at);
    let mut seen = vec![];
    collect_leaves(&bvh.left, &mut seen);
    collect_leaves(&bvh.right, &mut seen);
    seen.sort();
    assert_eq!(seen, (0..37).collect::<Vec<usize>>());
}

#[test]
fn root_bounds_hold_the_whole_scene() {
    let bvh = scene(&[4, -3, 12, 0, 7]);
    assert_eq!(bvh.bounds.lo, -3);
    assert_eq!(bvh.bounds.hi, 12);
}

#[test]
fn hierarchy_agrees_with_a_linear_scan() {
    let mut rng = Lcg(42);
    for _ in 0..200 {
        let n = 1 + rng.next(40) as usize;
        let at: Vec<i64> = (0..n).map(|_| rng.next(200) as i64 - 100).collect();
        let bvh = scene(&at);
        let hit = |p: usize, lo: i64, hi: i64| line_hit(&at, p, lo, hi);
        let all: Vec<usize> = (0..n).collect();
        let lo = rng.next(200) as i64 - 100;
        let hi = lo + rng.next(150) as i64;
        let fast = bvh.hit(&hit, &span_hit, lo, hi);
        let slow = scan_hit(&hit, &all, lo, hi);
        assert_eq!(fast.is_some(), slow.is_some());
        if let (Some((_, a)), Some((_, b))) = (fast, slow) {
            assert_eq!(a, b);
        }
        let expected = at.iter().copied().filter(|&t| lo <= t && t <= hi).min();
        assert_eq!(fast.map(|(_, t)| t), expected);
    }
}

#[test]
fn scan_keeps_the_last_of_equal_hits() {
    let at = [3, 1, 1, 2];
    let hit = |p: usize, lo: i64, hi: i64| line_hit(&at, p, lo, hi);
    let prims: Vec<usize> = vec![0, 1, 2, 3];
    assert_eq!(scan_hit(&hit, &prims, 0, 10), Some((2, 1)));
    assert_eq!(scan_hit(&hit, &prims, 4, 10), None);
}

#[test]
fn order_keys_follow_the_doubles() {
    let values: [f64; 8] = [-1.0e300, -2.5, -0.0, 0.0, 1.0e-300, 0.5, 3.0, 1.0e300];
    for w in values.windows(2) {
        assert!(order_key(w[0].to_bits()) <= order_key(w[1].to_bits()));
    }
    assert!(order_key((-2.5f64).to_bits()) < order_key((-1.0f64).to_bits()));
    assert_eq!(order_key(0.0f64.to_bits()), 0x8000_0000_0000_0000);
    assert_eq!(order_key((-0.0f64).to_bits()), 0x7FFF_FFFF_FFFF_FFFF);
}

fn leaves_of(n: &BvhNode<Span>) -> Vec<usize> {
    let mut out = vec![];
    collect_leaves(n, &mut out);
    out
}

/// Every inner node has the lower half of its primitives, along one of the
/// three axes, on its left.
fn check_split(n: &BvhNode<Span>, keys: &[SortKey]) {
    if let BvhNode::Branch(_, l, r) = n {
        let (a, b) = (leaves_of(l), leaves_of(r));
        if a.len() + b.len() >= 3 {
            assert_eq!(a.len(), (a.len() + b.len()) / 2);
            let apart = (0..3).any(|axis| {
                let on = |p: usize| match axis {
                    0 => keys[p].x,
                    1 => keys[p].y,
                    _ => keys[p].z,
                };
                a.iter().all(|&p| b.iter().all(|&q| on(p) <= on(q)))
            });
            assert!(apart);
        }
        check_split(l, keys);
        check_split(r, keys);
    }
}

#[test]
fn inner_nodes_split_at_the_median() {
    let mut rng = Lcg(7);
    let n = 50;
    let keys: Vec<SortKey> = (0..n)
        .map(|_| SortKey { x: rng.next(1000), y: rng.next(1000), z: rng.next(1000) })
        .collect();
    let bounds: Vec<Span> = (0..n as i64).map(|i| Span { lo: i, hi: i }).collect();
    let bvh = BVH::new(&bounds, &keys, &join);
    let root = BvhNode::Branch(bvh.bounds, Box::new(bvh.left), Box::new(bvh.right));
    check_split(&root, &keys);
}

#[test]
fn sort_on_axis_orders_by_the_chosen_key() {
    let keys = vec![
        SortKey { x: 5, y: 1, z: 9 },
        SortKey { x: 3, y: 2, z: 8 },
        SortKey { x: 4, y: 0, z: 7 },
    ];
    let items: Vec<usize> = vec![0, 1, 2];
    assert_eq!(sort_on_axis(&items, &keys, 0), vec![1, 2, 0]);
    assert_eq!(sort_on_axis(&items, &keys, 1), vec![2, 0, 1]);
    assert_eq!(sort_on_axis(&items, &keys, 2), vec![2, 1, 0]);
}

#[test]
fn sort_on_axis_keeps_equal_keys_in_order() {
    let keys = vec![SortKey { x: 1, y: 0, z: 0 }; 4];
    let items: Vec<usize> = vec![3, 1, 0, 2];
    assert_eq!(sort_on_axis(&items, &keys, 0), vec![3, 1, 0, 2]);
}

#[test]
fn missed_bounds_prune_the_hierarchy() {
    let at = [10, 20, 30, 40];
    let bvh = scene(&at);
    let hit = |p: usize, lo: i64, hi: i64| line_hit(&at, p, lo, hi);
    let never = |_: &Span, _: i64, _: i64| false;
    assert_eq!(bvh.hit(&hit, &never, 0, 100), None);
    assert_eq!(bvh.hit(&hit, &span_hit, 0, 100).map(|(p, t)| (p, t)), Some((0, 10)));
    assert_eq!(bvh.hit(&hit, &span_hit, 25, 100), Some((2, 30)));
    assert_eq!(bvh.hit(&hit, &span_hit, 41, 100), None);
}

/// Every inner node caches the join of the bounds of the primitives under
/// it.
fn check_bounds(n: &BvhNode<Span>, at: &[i64]) {
    if let BvhNode::Branch(b, l, r) = n {
        let under = leaves_of(n);
        assert_eq!(b.lo, under.iter().map(|&p| at[p]).min().unwrap());
        assert_eq!(b.hi, under.iter().map(|&p| at[p]).max().unwrap());
        check_bounds(l, at);
        check_bounds(r, at);
    }
}

#[test]
fn every_node_caches_the_bounds_under_it() {
    let mut rng = Lcg(99);
    let at: Vec<i64> = (0..29).map(|_| rng.next(500) as i64 - 250).collect();
    let bvh = scene(&at);
    let root = BvhNode::Branch(bvh.bounds, Box::new(bvh.left), Box::new(bvh.right));
    check_bounds(&root, &at);
}
