use raytracer::bvh::{BVHNode, Child};

fn leaves_under(t: &BVHNode, n: usize, out: &mut Vec<usize>) {
    for c in [t.nodes[n].left, t.nodes[n].right] {
        match c {
            Child::Prim(p) => out.push(p),
            Child::Node(a) => leaves_under(t, a, out),
        }
    }
}

fn keys_from(mins: &[(u64, u64, u64)]) -> Vec<[u64; 3]> {
    mins.iter().map(|&(x, y, z)| [x, y, z]).collect()
}

fn brute_force(hits: &[Option<u64>]) -> Option<(u64, usize)> {
    let mut best: Option<(u64, usize)> = None;
    for (p, h) in hits.iter().enumerate() {
        if let Some(k) = h {
            best = match best {
                Some((b, q)) if b < *k => Some((b, q)),
                _ => Some((*k, p)),
            };
        }
    }
    best
}

#[test]
fn build_empty_scene_gives_none() {
    assert!(BVHNode::new(&Vec::new()).is_none());
}

#[test]
fn build_single_primitive_fills_both_sides() {
    let t = BVHNode::new(&keys_from(&[(3, 4, 5)])).unwrap();
    assert_eq!(t.nodes.len(), 1);
    assert_eq!(t.n_prims, 1);
    assert_eq!(t.nodes[0].left, Child::Prim(0));
    assert_eq!(t.nodes[0].right, Child::Prim(0));
    assert_eq!(t.nodes[0].first, 0);
}

#[test]
fn build_two_primitives_sorted_on_axis() {
    let t = BVHNode::new(&keys_from(&[(9, 9, 9), (1, 1, 1)])).unwrap();
    assert_eq!(t.nodes.len(), 1);
    assert_eq!(t.nodes[0].left, Child::Prim(1));
    assert_eq!(t.nodes[0].right, Child::Prim(0));
}

#[test]
fn build_covers_every_primitive_in_order() {
    let mins = [
        (5, 2, 7), (1, 8, 3), (9, 4, 4), (3, 3, 9), (7, 1, 1), (2, 9, 6), (8, 5, 2), (4, 7, 8),
        (6, 6, 5),
    ];
    let keys = keys_from(&mins);
    for _ in 0..20 {
        let t = BVHNode::new(&keys).unwrap();
        let root = t.nodes.len() - 1;
        assert!(t.nodes.len() < 2 * mins.len());
        let mut all = Vec::new();
        leaves_under(&t, root, &mut all);
        all.sort();
        // A lone primitive fills both sides of its node.
        all.dedup();
        assert_eq!(all, (0..mins.len()).collect::<Vec<_>>());
        for (n, nd) in t.nodes.iter().enumerate() {
            assert!(nd.axis < 3);
            assert!(nd.first <= n);
            let mut l = Vec::new();
            let mut r = Vec::new();
            match nd.left {
                Child::Prim(p) => l.push(p),
                Child::Node(a) => leaves_under(&t, a, &mut l),
            }
            match nd.right {
                Child::Prim(p) => r.push(p),
                Child::Node(a) => leaves_under(&t, a, &mut r),
            }
            for &p in &l {
                for &q in &r {
                    assert!(keys[p][nd.axis] <= keys[q][nd.axis]);
                }
            }
            // Midpoint split; a lone primitive fills both sides.
            l.sort();
            l.dedup();
            r.sort();
            r.dedup();
            let mut under = l.clone();
            under.extend(r.iter().copied());
            under.sort();
            under.dedup();
            if under.len() == 1 {
                assert_eq!(nd.left, nd.right);
            } else {
                assert_eq!(l.len(), under.len() / 2);
                assert_eq!(l.len() + r.len(), under.len());
            }
        }
    }
}

#[test]
fn build_nine_primitives_shape() {
    let keys = keys_from(&[(0, 0, 0); 9]);
    let t = BVHNode::new(&keys).unwrap();
    // 9 = (4 = 2 + 2) + (5 = 2 + (3 = 1 + 2)): nine nodes, each after its subtrees.
    assert_eq!(t.nodes.len(), 9);
    let root = &t.nodes[8];
    assert_eq!(root.first, 0);
    assert_eq!(root.left, Child::Node(2));
    assert_eq!(root.right, Child::Node(7));
    assert_eq!(t.nodes[7].first, 3);
    assert_eq!(t.nodes[4].left, t.nodes[4].right);
}

#[test]
fn hit_finds_nearest_like_brute_force() {
    let keys = keys_from(&[(0, 0, 0), (1, 1, 1), (2, 2, 2), (3, 3, 3), (4, 4, 4), (5, 5, 5)]);
    let hits: Vec<Option<u64>> = vec![Some(40), None, Some(12), Some(30), None, Some(25)];
    for _ in 0..20 {
        let t = BVHNode::new(&keys).unwrap();
        let r = t.hit(&|_m: usize| true, &|p: usize| hits[p].map(|k| (k, p)));
        assert_eq!(r, Some((12, 2)));
        assert_eq!(r.map(|(k, p)| (k, p)), brute_force(&hits));
    }
}

#[test]
fn hit_with_enclosing_boxes_matches_brute_force() {
    let keys = keys_from(&[(0, 5, 2), (1, 4, 3), (2, 3, 4), (3, 2, 5), (4, 1, 0), (5, 0, 1), (6, 6, 6)]);
    let hits: Vec<Option<u64>> = vec![None, Some(17), None, None, Some(9), None, Some(33)];
    for _ in 0..20 {
        let t = BVHNode::new(&keys).unwrap();
        // A box reports a hit exactly when some primitive under it is hit.
        let under = |m: usize| {
            let mut v = Vec::new();
            leaves_under(&t, m, &mut v);
            v
        };
        let r = t.hit(&|m: usize| under(m).iter().any(|&p| hits[p].is_some()), &|p: usize| {
            hits[p].map(|k| (k, p))
        });
        assert_eq!(r.map(|(k, _)| k), brute_force(&hits).map(|(k, _)| k));
        assert_eq!(r, Some((9, 4)));
    }
}

#[test]
fn hit_missing_root_box_finds_nothing() {
    let keys = keys_from(&[(0, 0, 0), (1, 1, 1), (2, 2, 2)]);
    let t = BVHNode::new(&keys).unwrap();
    let r = t.hit(&|_m: usize| false, &|p: usize| Some((1u64, p)));
    assert_eq!(r, None);
}

#[test]
fn hit_nothing_when_no_primitive_hit() {
    let keys = keys_from(&[(0, 0, 0), (1, 1, 1), (2, 2, 2), (3, 3, 3)]);
    let t = BVHNode::new(&keys).unwrap();
    let r: Option<(u64, usize)> = t.hit(&|_m: usize| true, &|_p: usize| None);
    assert_eq!(r, None);
}

#[test]
fn hit_equal_keys_right_side_wins() {
    let t = BVHNode::new(&keys_from(&[(1, 1, 1), (2, 2, 2)])).unwrap();
    let r = t.hit(&|_m: usize| true, &|p: usize| Some((7u64, p)));
    assert_eq!(r, Some((7, 1)));
}

#[test]
fn hit_single_primitive_scene() {
    let t = BVHNode::new(&keys_from(&[(1, 1, 1)])).unwrap();
    let r = t.hit(&|_m: usize| true, &|p: usize| Some((3u64, p)));
    assert_eq!(r, Some((3, 0)));
}
