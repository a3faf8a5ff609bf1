use book_knn::EmbeddedBook;
use book_knn::IndexError;
use book_knn::KdIndex;
use book_knn::Neighbor;
use book_knn::distance::sq_dist;
use book_knn::knn::nearest_linear;

fn pt(title: &str, coords: Vec<i32>) -> EmbeddedBook {
    EmbeddedBook { title: title.to_string(), author: String::new(), embeddings: coords }
}

#[test]
fn sq_dist_exact_value() {
    assert_eq!(sq_dist(&vec![1, 2], &vec![4, 6]), 25u128);
    assert_eq!(sq_dist(&vec![-3, 4], &vec![0, 0]), 25u128);
    assert_eq!(sq_dist(&vec![0, 0], &vec![0, 0]), 0u128);
}

#[test]
fn sq_dist_extreme_coordinates() {
    let lo = vec![i32::MIN, i32::MIN];
    let hi = vec![i32::MAX, i32::MAX];
    let gap = (i32::MAX as i128 - i32::MIN as i128) as u128;
    assert_eq!(sq_dist(&lo, &hi), 2 * gap * gap);
}

#[test]
fn three_point_scenario() {
    let items = vec![pt("A", vec![0, 0]), pt("B", vec![10, 10]), pt("C", vec![1, 1])];
    let index = KdIndex::build(items).unwrap();
    let res = index.query(&vec![0, 0], 2).unwrap();
    assert_eq!(res.len(), 2);
    assert_eq!(res[0].idx, 0);
    assert_eq!(res[0].dist, 0u128);
    assert_eq!(index.item(res[0].idx).title, "A");
    assert_eq!(res[1].idx, 2);
    assert_eq!(res[1].dist, 2u128);
    assert_eq!(index.item(res[1].idx).title, "C");
}

#[test]
fn build_empty_fails() {
    let items: Vec<EmbeddedBook> = Vec::new();
    assert_eq!(KdIndex::build(items).unwrap_err(), IndexError::EmptyIndex);
}

#[test]
fn single_vector_tree() {
    let index = KdIndex::build(vec![pt("only", vec![3, -4])]).unwrap();
    assert_eq!(index.size(), 1);
    for k in [1usize, 2, 100] {
        let res = index.query(&vec![0, 0], k).unwrap();
        assert_eq!(res.len(), 1);
        assert_eq!(res[0].idx, 0);
        assert_eq!(res[0].dist, 25u128);
    }
}

#[test]
fn k_zero_returns_nothing() {
    let index = KdIndex::build(vec![pt("a", vec![1]), pt("b", vec![2])]).unwrap();
    let res = index.query(&vec![0], 0).unwrap();
    assert!(res.is_empty());
}

#[test]
fn k_at_least_n_returns_all_sorted() {
    let items = vec![
        pt("d", vec![4, 4]),
        pt("a", vec![1, 0]),
        pt("c", vec![3, 3]),
        pt("b", vec![0, 1]),
        pt("e", vec![-5, 2]),
    ];
    let index = KdIndex::build(items).unwrap();
    let res = index.query(&vec![0, 0], 10).unwrap();
    assert_eq!(res.len(), 5);
    for w in res.windows(2) {
        assert!(w[0].dist <= w[1].dist);
    }
    let mut seen: Vec<usize> = res.iter().map(|n| n.idx).collect();
    seen.sort();
    assert_eq!(seen, vec![0, 1, 2, 3, 4]);
}

#[test]
fn dimension_mismatch_refused() {
    let index = KdIndex::build(vec![pt("a", vec![1, 2]), pt("b", vec![3, 4])]).unwrap();
    assert_eq!(index.query(&vec![1, 2, 3], 1).unwrap_err(), IndexError::DimensionMismatch);
    assert_eq!(index.query(&vec![1], 1).unwrap_err(), IndexError::DimensionMismatch);
    assert!(index.query(&vec![1, 2], 1).is_ok());
}

#[test]
fn equal_distances_keep_construction_order() {
    // two identical vectors, and a mirrored pair at the same distance
    let items = vec![pt("first", vec![5]), pt("second", vec![5]), pt("mirror", vec![-5])];
    let index = KdIndex::build(items).unwrap();
    let res = index.query(&vec![0], 3).unwrap();
    assert_eq!(res.len(), 3);
    assert_eq!(res[0], Neighbor { idx: 0, dist: 25 });
    assert_eq!(res[1], Neighbor { idx: 1, dist: 25 });
    assert_eq!(res[2], Neighbor { idx: 2, dist: 25 });
    // repeated calls reproduce the same order
    let again = index.query(&vec![0], 3).unwrap();
    assert_eq!(res, again);
}

#[test]
fn query_matches_linear_scan() {
    // a deterministic scatter of 16 points in 3 dimensions
    let mut items = Vec::new();
    for i in 0..16i32 {
        let x = (i * 7) % 13 - 6;
        let y = (i * 11) % 17 - 8;
        let z = (i * 5) % 9 - 4;
        items.push(pt(&format!("p{}", i), vec![x, y, z]));
    }
    let index = KdIndex::build(items.clone()).unwrap();
    let targets = vec![vec![0, 0, 0], vec![5, -3, 2], vec![-6, 8, -4], vec![100, 100, 100]];
    for target in &targets {
        for k in 0..=17usize {
            let from_tree = index.query(target, k).unwrap();
            let from_scan = nearest_linear(&items, target, k);
            assert_eq!(from_tree, from_scan);
        }
    }
}

#[test]
fn nearest_is_exact_on_clustered_points() {
    // duplicates and near-duplicates around two clusters
    let items = vec![
        pt("c1a", vec![100, 100]),
        pt("c2a", vec![-100, -100]),
        pt("c1b", vec![101, 100]),
        pt("c2b", vec![-100, -101]),
        pt("c1c", vec![100, 100]),
        pt("far", vec![10000, -10000]),
    ];
    let index = KdIndex::build(items.clone()).unwrap();
    let res = index.query(&vec![99, 99], 3).unwrap();
    assert_eq!(res[0], Neighbor { idx: 0, dist: 2 });
    assert_eq!(res[1], Neighbor { idx: 4, dist: 2 });
    assert_eq!(res[2], Neighbor { idx: 2, dist: 5 });
    let scan = nearest_linear(&items, &vec![99, 99], 3);
    assert_eq!(res, scan);
}
