use renderer::larp::bvh::{bucket_slot, left_counts, partition_range, right_counts, BUCKET_COUNT};
use renderer::larp::{Bvh, BvhNode, LbvhNode};

/// One-dimensional primitives: primitive `p` spans `lo[p] ..= hi[p]` on a line.
fn intervals(n: usize, spacing: i64, width: i64) -> Vec<(i64, i64)> {
    (0..n as i64).map(|i| (i * spacing, i * spacing + width)).collect()
}

fn build_over(prims: &[(i64, i64)]) -> Bvh<(i64, i64)> {
    let bound = |indices: &Vec<usize>, start: usize, end: usize| -> (i64, i64) {
        let mut lo = i64::MAX;
        let mut hi = i64::MIN;
        for &p in &indices[start..end] {
            lo = lo.min(prims[p].0);
            hi = hi.max(prims[p].1);
        }
        (lo, hi)
    };
    let split = |indices: &Vec<usize>, start: usize, end: usize, bbox: &(i64, i64)| -> Option<Vec<bool>> {
        let plane = bbox.0 + bbox.1;
        Some(indices[start..end].iter().map(|&p| prims[p].0 + prims[p].1 <= plane).collect())
    };
    Bvh::build(prims.len(), &bound, &split)
}

fn sorted(mut v: Vec<usize>) -> Vec<usize> {
    v.sort();
    v
}

#[test]
fn empty_hierarchy_reports_nothing() {
    let bvh: Bvh<(i64, i64)> = Bvh::empty();
    assert_eq!(bvh.intersect_ray(&|_b: &(i64, i64)| true), Vec::<usize>::new());
}

#[test]
fn full_hit_reports_every_primitive_once() {
    let prims = intervals(37, 10, 5);
    let bvh = build_over(&prims);
    let hits = bvh.intersect_ray(&|_b: &(i64, i64)| true);
    assert_eq!(sorted(hits), (0..37).collect::<Vec<usize>>());
}

#[test]
fn missed_root_reports_nothing() {
    let prims = intervals(20, 10, 5);
    let bvh = build_over(&prims);
    assert!(bvh.intersect_ray(&|_b: &(i64, i64)| false).is_empty());
}

#[test]
fn query_reports_overlapping_primitives() {
    let prims = intervals(50, 10, 5);
    let bvh = build_over(&prims);
    let query = (123i64, 157i64);
    let hits = bvh.intersect_ray(&|b: &(i64, i64)| b.0 <= query.1 && query.0 <= b.1);
    let exact: Vec<usize> = sorted(hits)
        .into_iter()
        .filter(|&p| prims[p].0 <= query.1 && query.0 <= prims[p].1)
        .collect();
    assert_eq!(exact, vec![12, 13, 14, 15]);
}

#[test]
fn root_bounding_box_covers_everything() {
    let prims = intervals(9, 3, 2);
    let bvh = build_over(&prims);
    assert_eq!(*bvh.bounding_box(), (0, 26));
}

#[test]
fn declined_split_makes_one_leaf() {
    let bound = |_v: &Vec<usize>, start: usize, end: usize| -> (usize, usize) { (start, end) };
    let split = |_v: &Vec<usize>, _s: usize, _e: usize, _b: &(usize, usize)| -> Option<Vec<bool>> { None };
    let bvh = Bvh::build(10, &bound, &split);
    assert_eq!(*bvh.bounding_box(), (0, 10));
    let hits = bvh.intersect_ray(&|b: &(usize, usize)| *b == (0, 10));
    assert_eq!(hits, (0..10).collect::<Vec<usize>>());
}

#[test]
fn small_node_stays_a_leaf() {
    let bound = |_v: &Vec<usize>, start: usize, end: usize| -> (usize, usize) { (start, end) };
    let split = |_v: &Vec<usize>, _s: usize, _e: usize, _b: &(usize, usize)| -> Option<Vec<bool>> {
        panic!("a node of four primitives is never split")
    };
    let bvh = Bvh::build(4, &bound, &split);
    assert_eq!(bvh.intersect_ray(&|_b: &(usize, usize)| true), vec![0, 1, 2, 3]);
}

#[test]
fn split_descends_left_before_right() {
    // Eight primitives, the odd ones go left: the pass meets at position 4, so the
    // left child holds positions 0..4 and the right child 4..8.
    let bound = |v: &Vec<usize>, start: usize, end: usize| -> Vec<usize> { v[start..end].to_vec() };
    let split = |v: &Vec<usize>, start: usize, end: usize, _b: &Vec<usize>| -> Option<Vec<bool>> {
        if end - start > 4 {
            Some(v[start..end].iter().map(|p| p % 2 == 1).collect())
        } else {
            None
        }
    };
    let bvh = Bvh::build(8, &bound, &split);
    let hits = bvh.intersect_ray(&|_b: &Vec<usize>| true);
    assert_eq!(hits, vec![7, 1, 5, 3, 4, 6, 2, 0]);
    let left_only = bvh.intersect_ray(&|b: &Vec<usize>| b.len() == 8 || b.contains(&7));
    assert_eq!(left_only, vec![7, 1, 5, 3]);
}

#[test]
fn partition_all_left() {
    let mut v = vec![10, 11, 12, 13, 14];
    let met = partition_range(&mut v, 1, 5, vec![true, true, true, true]);
    assert_eq!(met, 4);
    assert_eq!(v, vec![10, 11, 12, 13, 14]);
}

#[test]
fn partition_all_right() {
    let mut v = vec![0, 1, 2, 3];
    let met = partition_range(&mut v, 0, 4, vec![false, false, false, false]);
    assert_eq!(met, 0);
    assert_eq!(v, vec![1, 2, 3, 0]);
}

#[test]
fn partition_mixed() {
    let mut v = vec![0, 1, 2, 3, 4, 5, 6, 7];
    let sides: Vec<bool> = v.iter().map(|p| p % 2 == 1).collect();
    let met = partition_range(&mut v, 0, 8, sides);
    assert_eq!(met, 4);
    assert_eq!(v, vec![7, 1, 5, 3, 4, 6, 2, 0]);
    assert!(v[..4].iter().all(|p| p % 2 == 1));
    assert!(v[5..].iter().all(|p| p % 2 == 0));
}

#[test]
fn partition_leaves_outside_untouched() {
    let mut v = vec![9, 8, 7, 6, 5, 4];
    let met = partition_range(&mut v, 2, 5, vec![false, true, false]);
    assert_eq!(v[0], 9);
    assert_eq!(v[1], 8);
    assert_eq!(v[5], 4);
    assert_eq!(met, 2);
    assert_eq!(&v[2..5], &[6, 5, 7]);
}

#[test]
fn bucket_slot_clamps_to_last() {
    assert_eq!(BUCKET_COUNT, 12);
    assert_eq!(bucket_slot(0), 0);
    assert_eq!(bucket_slot(11), 11);
    assert_eq!(bucket_slot(12), 11);
    assert_eq!(bucket_slot(1000), 11);
}

#[test]
fn running_bucket_totals() {
    let counts = [3usize, 0, 2, 5, 1, 0, 0, 4, 0, 0, 1, 2];
    let left = left_counts(&counts);
    let right = right_counts(&counts);
    assert_eq!(left, vec![3, 3, 5, 10, 11, 11, 11, 15, 15, 15, 16, 18]);
    assert_eq!(right, vec![18, 15, 15, 13, 8, 7, 7, 7, 3, 3, 3, 2]);
    for i in 0..BUCKET_COUNT - 1 {
        assert_eq!(left[i] + right[i + 1], 18);
    }
}

#[test]
fn bvh_node_constructors_store_u32() {
    match BvhNode::new_internal('b', 3, 9) {
        BvhNode::Internal { bbox, left, right } => assert_eq!((bbox, left, right), ('b', 3, 9)),
        BvhNode::Leaf { .. } => panic!("expected an internal node"),
    }
    match BvhNode::new_leaf('c', 4, 8) {
        BvhNode::Leaf { bbox, start, end } => assert_eq!((bbox, start, end), ('c', 4, 8)),
        BvhNode::Internal { .. } => panic!("expected a leaf"),
    }
    let mut node = BvhNode::Internal { bbox: 1u8, left: 0, right: 0 };
    node.set_children(5, 6);
    assert!(matches!(node, BvhNode::Internal { bbox: 1, left: 5, right: 6 }));
    assert_eq!(*node.bounding_box(), 1);
}

#[test]
fn lbvh_node_parent() {
    let mut leaf = LbvhNode::new_leaf(None, 2u8, 7);
    assert_eq!(leaf.parent(), None);
    leaf.set_parent(Some(3));
    assert_eq!(leaf.parent(), Some(3));
    assert!(matches!(leaf, LbvhNode::Leaf { parent: Some(3), primitive_index: 7, bbox: 2 }));
    let mut inner = LbvhNode::new_internal(Some(1), 4u8, 2, 3);
    inner.set_parent(None);
    assert_eq!(inner.parent(), None);
    assert_eq!(*inner.bounding_box(), 4);
    assert!(matches!(inner, LbvhNode::Internal { parent: None, left: 2, right: 3, bbox: 4 }));
}

#[test]
fn looser_box_test_reports_more() {
    let prims = intervals(40, 10, 5);
    let bvh = build_over(&prims);
    let tight = bvh.intersect_ray(&|b: &(i64, i64)| b.0 <= 150 && 140 <= b.1);
    let loose = bvh.intersect_ray(&|b: &(i64, i64)| b.0 <= 250 && 100 <= b.1);
    assert!(!tight.is_empty());
    assert!(tight.iter().all(|p| loose.contains(p)));
    assert!(loose.len() > tight.len());
}

#[test]
fn single_primitive_hierarchy() {
    let prims = intervals(1, 10, 5);
    let bvh = build_over(&prims);
    assert_eq!(bvh.node_count(), 1);
    assert_eq!(*bvh.bounding_box(), (0, 5));
    assert_eq!(bvh.intersect_ray(&|_b: &(i64, i64)| true), vec![0]);
}

#[test]
fn no_primitive_hierarchy_has_one_empty_leaf() {
    let prims: Vec<(i64, i64)> = Vec::new();
    let bvh = build_over(&prims);
    assert_eq!(bvh.node_count(), 1);
    assert!(bvh.intersect_ray(&|_b: &(i64, i64)| true).is_empty());
}

#[test]
fn leaves_keep_the_order_of_the_split() {
    // Six primitives, the even ones go left: the pass leaves [0, 4, 2 | 3, 5, 1] and meets at
    // position 3; both halves are leaves that report their entries in that order.
    let bound = |v: &Vec<usize>, start: usize, end: usize| -> Vec<usize> { v[start..end].to_vec() };
    let split = |v: &Vec<usize>, start: usize, end: usize, _b: &Vec<usize>| -> Option<Vec<bool>> {
        Some(v[start..end].iter().map(|p| p % 2 == 0).collect())
    };
    let bvh = Bvh::build(6, &bound, &split);
    assert_eq!(bvh.node_count(), 3);
    assert_eq!(bvh.intersect_ray(&|_b: &Vec<usize>| true), vec![0, 4, 2, 3, 5, 1]);
}

#[test]
fn node_count_at_most_twice_the_primitives() {
    for n in 1..60usize {
        let prims = intervals(n, 7, 3);
        let bvh = build_over(&prims);
        assert!(bvh.node_count() <= 2 * n - 1);
    }
}

#[test]
fn point_query_misses_no_containing_primitive() {
    // Every node above a primitive that holds the point holds the point too, so the
    // descent reaches that primitive.
    let prims = intervals(64, 4, 9);
    let bvh = build_over(&prims);
    for x in [0i64, 17, 100, 131, 250, 259] {
        let hits = bvh.intersect_ray(&|b: &(i64, i64)| b.0 <= x && x <= b.1);
        for (p, &(lo, hi)) in prims.iter().enumerate() {
            if lo <= x && x <= hi {
                assert!(hits.contains(&p));
            }
        }
    }
}

#[test]
fn split_position_keeps_entries_on_their_sides() {
    // Entries below 50 belong on the left. After the pass, clamping the meeting point to
    // one entry inside the range gives the split; entries strictly between the start and
    // the split are left ones, entries after the split are right ones.
    let entries: Vec<usize> = vec![70, 3, 88, 41, 12, 95, 60, 7, 51, 20];
    for start in 0..3usize {
        for end in (start + 2)..=entries.len() {
            let mut v = entries.clone();
            let sides: Vec<bool> = v[start..end].iter().map(|&p| p < 50).collect();
            let met = partition_range(&mut v, start, end, sides);
            let split = met.max(start + 1).min(end - 1);
            assert!(start < split && split < end);
            assert!(v[start + 1..split].iter().all(|&p| p < 50));
            assert!(v[split + 1..end].iter().all(|&p| p >= 50));
            assert_eq!(&v[..start], &entries[..start]);
            assert_eq!(&v[end..], &entries[end..]);
        }
    }
}
