use kdtree::KDTree;
use kdtree::arith::{sat_add, sat_pow};
use kdtree::tracker::Tracker;
use kdtree::util::{pdist, BoundBox};

// A small deterministic pseudo-random generator for test data.
struct Lcg(u64);

impl Lcg {
    fn next(&mut self) -> u64 {
        self.0 = self.0.wrapping_mul(6364136223846793005).wrapping_add(1442695040888963407);
        self.0 >> 33
    }

    fn coord(&mut self, range: i64) -> i64 {
        (self.next() % (2 * range as u64)) as i64 - range
    }
}

fn point(coords: &[i64]) -> Vec<i64> {
    coords.to_vec()
}

fn sorted_dists<T>(r: &[(u64, T)]) -> Vec<u64> {
    let mut d: Vec<u64> = r.iter().map(|e| e.0).collect();
    d.sort();
    d
}

#[test]
fn saturating_arithmetic() {
    assert_eq!(sat_add(2, 3), 5);
    assert_eq!(sat_add(u64::MAX - 1, 1), u64::MAX);
    assert_eq!(sat_add(u64::MAX, 7), u64::MAX);
    assert_eq!(sat_pow(3, 4), 81);
    assert_eq!(sat_pow(7, 0), 1);
    assert_eq!(sat_pow(0, 5), 0);
    assert_eq!(sat_pow(2, 63), 1u64 << 63);
    assert_eq!(sat_pow(2, 64), u64::MAX);
    assert_eq!(sat_pow(1 << 32, 2), u64::MAX);
}

#[test]
fn distance_exact_values() {
    let o = point(&[0, 0]);
    let xy = point(&[3, 4]);
    assert_eq!(pdist(&xy, &o, 2), 25);
    assert_eq!(pdist(&xy, &o, 1), 7);
    assert_eq!(pdist(&xy, &o, 3), 91);
    assert_eq!(pdist(&o, &xy, 2), 25);
    let a = point(&[-5, 10, 0]);
    let b = point(&[5, -10, 0]);
    assert_eq!(pdist(&a, &b, 1), 30);
    assert_eq!(pdist(&a, &b, 2), 500);
}

#[test]
fn bounding_box_lower_bound_sound() {
    // for every point y of the set and sample query x:
    // cdist(x) <= pdist(x, y)
    let mut rng = Lcg(7);
    let data: Vec<(Vec<i64>, u32)> = (0..40)
        .map(|i| (vec![rng.coord(100), rng.coord(100), rng.coord(100)], i))
        .collect();
    let bbox = BoundBox::from_vec(&data, 3);
    for _ in 0..30 {
        let x = vec![rng.coord(300), rng.coord(300), rng.coord(300)];
        for p in 1..4u64 {
            let lb = bbox.cdist(&x, p);
            for (y, _) in &data {
                assert!(lb <= pdist(&x, y, p));
            }
        }
    }
}

#[test]
fn tracker_keeps_k_smallest() {
    let mut tr: Tracker<u32> = Tracker::new(3);
    assert_eq!(tr.len(), 0);
    assert_eq!(tr.peek_worst(), u64::MAX);
    tr.offer(50, 1);
    assert_eq!(tr.peek_worst(), u64::MAX); // not yet full
    tr.offer(10, 2);
    tr.offer(30, 3);
    assert_eq!(tr.peek_worst(), 50); // full: worst of {10, 30, 50}
    tr.offer(20, 4); // evicts 50
    assert_eq!(tr.peek_worst(), 30);
    tr.offer(40, 5); // too far, evicted immediately
    assert_eq!(tr.peek_worst(), 30);
    let out = tr.drain();
    assert_eq!(sorted_dists(&out), vec![10, 20, 30]);
    assert_eq!(out.iter().map(|e| e.0).collect::<Vec<u64>>(), vec![10, 20, 30]);
}

#[test]
fn empty_build_is_none() {
    let data: Vec<(Vec<i64>, u32)> = Vec::new();
    assert!(KDTree::build(data, 2).is_none());
}

#[test]
fn single_point_tree() {
    let tree = KDTree::build(vec![(point(&[1, 2]), 'z')], 2).unwrap();
    let r = tree.search(1, &point(&[4, 6]), 2);
    assert_eq!(r.len(), 1);
    assert_eq!(r[0].0, 25);
    assert_eq!(r[0].1, 'z');
}

// Scenario: three labelled points in the plane, the two nearest of which tie
// in distance to the query. Coordinates carry 10 fractional bits, so the
// query (0.5, 0.5) is the integer point (512, 512).
#[test]
fn two_equidistant_neighbours() {
    const S: i64 = 1024;
    let data = vec![
        (point(&[0, 0]), 'A'),
        (point(&[10 * S, 10 * S]), 'B'),
        (point(&[S, S]), 'C'),
    ];
    let tree = KDTree::build(data, 2).unwrap();
    let query = point(&[S / 2, S / 2]);
    let r = tree.search(2, &query, 2);
    assert_eq!(r.len(), 2);
    // both at squared distance 2 * 512^2; B is excluded
    assert_eq!(r[0].0, 524288);
    assert_eq!(r[1].0, 524288);
    let mut labels: Vec<char> = r.iter().map(|e| e.1).collect();
    labels.sort();
    assert_eq!(labels, vec!['A', 'C']);
    // the Euclidean distance in unscaled units is sqrt(2)/2
    let euclid = (r[0].0 as f64).sqrt() / S as f64;
    assert!((euclid - 0.7071).abs() < 0.001);
}

// Scenario: k larger than the number of points returns every point.
#[test]
fn k_exceeding_point_count_returns_all() {
    let data = vec![
        (point(&[0, 0]), 10u32),
        (point(&[5, 5]), 20),
        (point(&[9, 9]), 30),
    ];
    let tree = KDTree::build(data, 2).unwrap();
    let q = point(&[1, 1]);
    let r = tree.search(10, &q, 2);
    assert_eq!(r.len(), 3);
    let oracle = tree.brute_search(10, &q, 2);
    assert_eq!(sorted_dists(&r), sorted_dists(&oracle));
    let mut labels: Vec<u32> = r.iter().map(|e| e.1).collect();
    labels.sort();
    assert_eq!(labels, vec![10, 20, 30]);
}

#[test]
fn cardinality_is_min_of_k_and_size() {
    let mut rng = Lcg(11);
    let data: Vec<(Vec<i64>, usize)> = (0..25)
        .map(|i| (vec![rng.coord(50), rng.coord(50)], i))
        .collect();
    let tree = KDTree::build(data, 2).unwrap();
    let q = point(&[0, 0]);
    for k in [1usize, 2, 5, 24, 25, 26, 100] {
        let r = tree.search(k, &q, 2);
        assert_eq!(r.len(), k.min(25));
    }
}

// Equivalence with the brute-force oracle over many deterministic samples,
// comparing results as multisets of distances.
#[test]
fn matches_oracle_on_random_data() {
    let mut rng = Lcg(100);
    let data: Vec<(Vec<i64>, usize)> = (0..100)
        .map(|i| {
            let label = i % 5;
            (
                vec![
                    rng.coord(1000),
                    rng.coord(1000),
                    rng.coord(1000),
                    rng.coord(1000),
                    rng.coord(1000),
                ],
                label,
            )
        })
        .collect();
    let tree = KDTree::build(data.clone(), 5).unwrap();
    for p in [1u64, 2, 3] {
        for _ in 0..40 {
            let q = vec![
                rng.coord(1500),
                rng.coord(1500),
                rng.coord(1500),
                rng.coord(1500),
                rng.coord(1500),
            ];
            let fast = tree.search(15, &q, p);
            let slow = tree.brute_search(15, &q, p);
            assert_eq!(fast.len(), 15);
            assert_eq!(sorted_dists(&fast), sorted_dists(&slow));
            // and against a plain linear scan over the raw data
            let mut all: Vec<u64> = data.iter().map(|(y, _)| pdist(&q, y, p)).collect();
            all.sort();
            all.truncate(15);
            assert_eq!(sorted_dists(&fast), all);
        }
    }
}

// Every returned distance is at most every non-returned point's distance.
#[test]
fn no_closer_point_is_excluded() {
    let mut rng = Lcg(42);
    let data: Vec<(Vec<i64>, usize)> = (0..60)
        .map(|i| (vec![rng.coord(200), rng.coord(200), rng.coord(200)], i))
        .collect();
    let tree = KDTree::build(data.clone(), 3).unwrap();
    for _ in 0..20 {
        let q = vec![rng.coord(200), rng.coord(200), rng.coord(200)];
        let r = tree.search(7, &q, 2);
        let worst = r.iter().map(|e| e.0).max().unwrap();
        let returned: Vec<usize> = r.iter().map(|e| e.1).collect();
        for (y, label) in &data {
            if !returned.contains(label) {
                assert!(pdist(&q, y, 2) >= worst);
            }
        }
    }
}

// Batch results match per-query searches, independently of the chunking.
#[test]
fn batch_matches_single_queries() {
    let mut rng = Lcg(5);
    let data: Vec<(Vec<i64>, usize)> = (0..80)
        .map(|i| (vec![rng.coord(500), rng.coord(500)], i))
        .collect();
    let tree = KDTree::build(data, 2).unwrap();
    // 21 queries: the 8 chunks are uneven and the last absorbs the remainder
    let queries: Vec<Vec<i64>> = (0..21).map(|_| vec![rng.coord(500), rng.coord(500)]).collect();
    let batch = tree.batch_search(6, queries.clone(), 2);
    assert_eq!(batch.len(), queries.len());
    for (i, q) in queries.iter().enumerate() {
        let single = tree.search(6, q, 2);
        assert_eq!(sorted_dists(&batch[i]), sorted_dists(&single));
    }
    // an explicit chunk run gives the same answers as well
    let chunk = tree.search_chunk(6, &queries, 2, 3, 9);
    assert_eq!(chunk.len(), 6);
    for j in 0..6 {
        assert_eq!(sorted_dists(&chunk[j]), sorted_dists(&tree.search(6, &queries[3 + j], 2)));
    }
}

#[test]
fn batch_of_fewer_queries_than_chunks() {
    let data = vec![(point(&[1, 1]), 'a'), (point(&[2, 2]), 'b')];
    let tree = KDTree::build(data, 2).unwrap();
    let queries = vec![point(&[0, 0]), point(&[3, 3]), point(&[2, 1])];
    let batch = tree.batch_search(1, queries.clone(), 2);
    assert_eq!(batch.len(), 3);
    assert_eq!(batch[0][0].1, 'a');
    assert_eq!(batch[1][0].1, 'b');
}

// Repeated searches with identical arguments return equal result sets: the
// tree is never mutated by a search.
#[test]
fn search_is_idempotent() {
    let mut rng = Lcg(77);
    let data: Vec<(Vec<i64>, usize)> = (0..50)
        .map(|i| (vec![rng.coord(300), rng.coord(300), rng.coord(300)], i))
        .collect();
    let tree = KDTree::build(data, 3).unwrap();
    let q = vec![17, -40, 256];
    let first = tree.search(9, &q, 2);
    for _ in 0..5 {
        let again = tree.search(9, &q, 2);
        assert_eq!(sorted_dists(&again), sorted_dists(&first));
        let mut l1: Vec<usize> = first.iter().map(|e| e.1).collect();
        let mut l2: Vec<usize> = again.iter().map(|e| e.1).collect();
        l1.sort();
        l2.sort();
        assert_eq!(l1, l2);
    }
}

// Duplicate points and tied distances are all retained, up to k.
#[test]
fn duplicate_points_and_ties() {
    let data = vec![
        (point(&[1, 0]), 'a'),
        (point(&[1, 0]), 'b'),
        (point(&[0, 1]), 'c'),
        (point(&[0, -1]), 'd'),
        (point(&[4, 4]), 'e'),
    ];
    let tree = KDTree::build(data, 2).unwrap();
    let q = point(&[0, 0]);
    let r = tree.search(4, &q, 2);
    assert_eq!(r.len(), 4);
    assert_eq!(sorted_dists(&r), vec![1, 1, 1, 1]);
    let mut labels: Vec<char> = r.iter().map(|e| e.1).collect();
    labels.sort();
    assert_eq!(labels, vec!['a', 'b', 'c', 'd']);
}

// Results come out of the tracker in ascending distance order.
#[test]
fn results_sorted_by_distance() {
    let mut rng = Lcg(9);
    let data: Vec<(Vec<i64>, usize)> = (0..30)
        .map(|i| (vec![rng.coord(100), rng.coord(100)], i))
        .collect();
    let tree = KDTree::build(data, 2).unwrap();
    let r = tree.search(12, &point(&[5, 5]), 1);
    for w in r.windows(2) {
        assert!(w[0].0 <= w[1].0);
    }
}
