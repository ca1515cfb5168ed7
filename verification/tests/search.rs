use rust_hnsw::ranking::{distance_key, key_bits};
use rust_hnsw::{
    Adjacency, HNSWIndex, HNSWParams, HnswError, Layer, Neighbor, Point, Snapshot,
};

fn bits(components: &[f32]) -> Vec<u32> {
    components.iter().map(|c| c.to_bits()).collect()
}

fn cosine_distance(a: &[f32], b: &[f32]) -> f32 {
    let mut dot = 0.0;
    let mut norm_a = 0.0;
    let mut norm_b = 0.0;
    for i in 0..a.len() {
        dot += a[i] * b[i];
        norm_a += a[i] * a[i];
        norm_b += b[i] * b[i];
    }
    if norm_a == 0.0 || norm_b == 0.0 {
        return 1.0;
    }
    1.0 - (dot / (norm_a.sqrt() * norm_b.sqrt()))
}

fn cosine(a: &Vec<u32>, b: &Vec<u32>) -> u32 {
    let fa: Vec<f32> = a.iter().map(|x| f32::from_bits(*x)).collect();
    let fb: Vec<f32> = b.iter().map(|x| f32::from_bits(*x)).collect();
    distance_key(cosine_distance(&fa, &fb).to_bits())
}

/// The first component of the stored vector, read as a whole number.
fn first_component(_query: &Vec<u32>, stored: &Vec<u32>) -> u32 {
    stored[0]
}

fn score(hit: &Neighbor) -> f32 {
    1.0 - f32::from_bits(key_bits(hit.distance))
}

fn point(id: &str, vector: Vec<u32>) -> Point {
    Point { id: id.to_string(), vector, level: 0 }
}

fn links(id: &str, neighbors: &[&str]) -> Adjacency {
    Adjacency { id: id.to_string(), neighbors: neighbors.iter().map(|n| n.to_string()).collect() }
}

fn index_of(
    points: Vec<Point>,
    bottom: Vec<Adjacency>,
    entry: Option<&str>,
    dims: usize,
    ef_search: usize,
) -> HNSWIndex {
    let mut index = HNSWIndex::new(HNSWParams { m: 16, ef_construction: 200, ef_search });
    let snapshot = Snapshot {
        params: HNSWParams { m: 16, ef_construction: 200, ef_search },
        points,
        layers: vec![Layer { links: bottom }],
        entry_point: entry.map(|e| e.to_string()),
        dimensions: dims,
    };
    assert_eq!(index.load(snapshot), Ok(()));
    index
}

/// A star: the entry point "e" links to points whose single component is
/// their distance key under `first_component`.
fn star(keys: &[(&str, u32)], ef_search: usize) -> HNSWIndex {
    let mut points = vec![point("e", vec![0])];
    let mut bottom = Vec::new();
    let names: Vec<&str> = keys.iter().map(|(n, _)| *n).collect();
    bottom.push(links("e", &names));
    for (name, key) in keys {
        points.push(point(name, vec![*key]));
        bottom.push(links(name, &[]));
    }
    index_of(points, bottom, Some("e"), 1, ef_search)
}

fn names(found: &Vec<Neighbor>) -> Vec<String> {
    found.iter().map(|n| n.id.clone()).collect()
}

#[test]
fn cosine_of_equal_directions_is_zero() {
    assert_eq!(cosine_distance(&[1.0, 0.0], &[1.0, 0.0]), 0.0);
    assert_eq!(cosine_distance(&[1.0, 0.0], &[0.0, 1.0]), 1.0);
    assert_eq!(cosine_distance(&[1.0, 0.0], &[-1.0, 0.0]), 2.0);
    assert_eq!(cosine_distance(&[0.0, 0.0], &[1.0, 0.0]), 1.0);
    assert_eq!(cosine_distance(&[3.0, 4.0], &[0.0, 0.0]), 1.0);
}

#[test]
fn hand_wired_edge_is_found() {
    let index = index_of(
        vec![point("first", bits(&[1.0, 0.0])), point("second", bits(&[0.0, 1.0]))],
        vec![links("first", &[]), links("second", &["first"])],
        Some("second"),
        2,
        64,
    );
    let found = index.search(bits(&[1.0, 0.0]), 1, &cosine).unwrap();
    assert_eq!(found.len(), 1);
    assert_eq!(found[0].id, "first");
    assert!((score(&found[0]) - 1.0).abs() < 1.0e-6);
}

#[test]
fn search_with_mismatched_length_is_refused() {
    let mut index = HNSWIndex::new(HNSWParams::default());
    index.add("a".to_string(), bits(&[1.0, 0.0])).unwrap();
    let result = index.search(bits(&[1.0, 0.0, 0.0]), 3, &cosine);
    assert_eq!(result.err(), Some(HnswError::DimensionMismatch { expected: 2, got: 3 }));
    assert_eq!(index.get_stats().total_vectors, 1);
}

/// A metric that may be asked about vectors of equal length only.
fn equal_lengths_only(query: &Vec<u32>, stored: &Vec<u32>) -> u32 {
    assert_eq!(query.len(), stored.len());
    stored[0]
}

#[test]
fn mismatched_query_is_refused_before_the_metric_is_asked() {
    let index = star(&[("a", 30), ("b", 10)], 64);
    let result = index.search(vec![0, 0, 0], 2, &equal_lengths_only);
    assert_eq!(result.err(), Some(HnswError::DimensionMismatch { expected: 1, got: 3 }));
    let found = index.search(vec![0], 2, &equal_lengths_only).unwrap();
    assert_eq!(names(&found), vec!["b", "a"]);
}

#[test]
fn search_on_fresh_index_needs_empty_query() {
    let index = HNSWIndex::new(HNSWParams::default());
    let result = index.search(bits(&[1.0]), 3, &cosine);
    assert_eq!(result.err(), Some(HnswError::DimensionMismatch { expected: 0, got: 1 }));
    let found = index.search(Vec::new(), 3, &cosine).unwrap();
    assert!(found.is_empty());
}

#[test]
fn points_added_without_edges_are_not_found() {
    let mut index = HNSWIndex::new(HNSWParams::default());
    index.add("a".to_string(), bits(&[1.0, 0.0])).unwrap();
    index.add("b".to_string(), bits(&[0.0, 1.0])).unwrap();
    let found = index.search(bits(&[1.0, 0.0]), 5, &cosine).unwrap();
    assert!(found.is_empty());
}

#[test]
fn entry_point_itself_is_not_a_hit() {
    let index = star(&[("a", 10)], 64);
    let found = index.search(vec![0], 5, &first_component).unwrap();
    assert_eq!(names(&found), vec!["a"]);
}

#[test]
fn hits_come_closest_first() {
    let index = star(&[("a", 30), ("b", 10), ("c", 20)], 64);
    let found = index.search(vec![0], 5, &first_component).unwrap();
    assert_eq!(names(&found), vec!["b", "c", "a"]);
    assert_eq!(found.iter().map(|n| n.distance).collect::<Vec<u32>>(), vec![10, 20, 30]);
}

#[test]
fn list_below_its_limit_admits_a_farther_hit() {
    // The second neighbour is farther than the first and is kept all the
    // same, since fewer than `ef` hits are held.
    let index = star(&[("a", 10), ("b", 50), ("c", 30)], 64);
    let found = index.search(vec![0], 3, &first_component).unwrap();
    assert_eq!(names(&found), vec!["a", "c", "b"]);
}

#[test]
fn search_returns_at_most_k() {
    let index = star(&[("a", 30), ("b", 10), ("c", 20), ("d", 40)], 64);
    let found = index.search(vec![0], 2, &first_component).unwrap();
    assert_eq!(names(&found), vec!["b", "c"]);
    let none = index.search(vec![0], 0, &first_component).unwrap();
    assert!(none.is_empty());
}

#[test]
fn search_breadth_is_the_larger_of_ef_search_and_k() {
    let index = star(&[("a", 30), ("b", 10), ("c", 20), ("d", 40)], 2);
    // ef_search = 2 but k = 3: three hits are kept.
    let found = index.search(vec![0], 3, &first_component).unwrap();
    assert_eq!(names(&found), vec!["b", "c", "a"]);
    // k = 1: two are kept during the walk and the closest is returned.
    let one = index.search(vec![0], 1, &first_component).unwrap();
    assert_eq!(names(&one), vec!["b"]);
}

#[test]
fn full_list_takes_only_a_closer_hit() {
    let index = star(&[("a", 30), ("b", 40), ("c", 35), ("d", 50), ("e2", 10)], 2);
    let found = index.search_layer(&vec![0], 2, 0, &first_component);
    // a, b fill the list; c beats b; d is refused; e2 beats c.
    assert_eq!(names(&found), vec!["e2", "a"]);
}

#[test]
fn full_list_refuses_an_equally_far_hit() {
    let index = star(&[("a", 30), ("b", 30)], 1);
    let found = index.search_layer(&vec![0], 1, 0, &first_component);
    assert_eq!(names(&found), vec!["a"]);
}

#[test]
fn breadth_zero_keeps_nothing() {
    let index = star(&[("a", 30), ("b", 10)], 0);
    let found = index.search_layer(&vec![0], 0, 0, &first_component);
    assert!(found.is_empty());
    let none = index.search(vec![0], 0, &first_component).unwrap();
    assert!(none.is_empty());
}

#[test]
fn walk_follows_edges_of_admitted_hits() {
    // e -> a -> b -> c, a chain: each hit is expanded in turn.
    let index = index_of(
        vec![point("e", vec![0]), point("a", vec![5]), point("b", vec![3]), point("c", vec![9])],
        vec![links("e", &["a"]), links("a", &["b"]), links("b", &["c"]), links("c", &[])],
        Some("e"),
        1,
        64,
    );
    let found = index.search(vec![0], 10, &first_component).unwrap();
    assert_eq!(names(&found), vec!["b", "a", "c"]);
}

#[test]
fn refused_hit_is_not_expanded() {
    // With breadth 1, "far" is refused once "near" is held, so its
    // neighbour "best" is never reached.
    let index = index_of(
        vec![
            point("e", vec![0]),
            point("near", vec![5]),
            point("far", vec![8]),
            point("best", vec![1]),
        ],
        vec![
            links("e", &["near", "far"]),
            links("near", &[]),
            links("far", &["best"]),
            links("best", &[]),
        ],
        Some("e"),
        1,
        1,
    );
    let found = index.search(vec![0], 1, &first_component).unwrap();
    assert_eq!(names(&found), vec!["near"]);
}

#[test]
fn last_pushed_candidate_is_expanded_first() {
    // e links a then b; b lies on top of the stack and is expanded first, so
    // with breadth 2 its neighbour x (key 1) enters before a's neighbour y
    // (key 1), and y is then refused as no closer than the farthest kept.
    let index = index_of(
        vec![
            point("e", vec![0]),
            point("a", vec![2]),
            point("b", vec![3]),
            point("x", vec![1]),
            point("y", vec![2]),
        ],
        vec![
            links("e", &["a", "b"]),
            links("a", &["y"]),
            links("b", &["x"]),
            links("x", &[]),
            links("y", &[]),
        ],
        Some("e"),
        1,
        2,
    );
    let found = index.search_layer(&vec![0], 2, 0, &first_component);
    assert_eq!(names(&found), vec!["x", "a"]);
}

#[test]
fn cycles_are_walked_once() {
    let index = index_of(
        vec![point("e", vec![0]), point("a", vec![4]), point("b", vec![2])],
        vec![links("e", &["a", "b", "a"]), links("a", &["e", "b"]), links("b", &["a", "e", "b"])],
        Some("e"),
        1,
        64,
    );
    let found = index.search(vec![0], 10, &first_component).unwrap();
    assert_eq!(names(&found), vec!["b", "a"]);
}

#[test]
fn neighbour_without_a_point_is_skipped() {
    let index = index_of(
        vec![point("e", vec![0]), point("a", vec![4])],
        vec![links("e", &["ghost", "a"]), links("a", &[])],
        Some("e"),
        1,
        64,
    );
    let found = index.search(vec![0], 10, &first_component).unwrap();
    assert_eq!(names(&found), vec!["a"]);
}

#[test]
fn layer_that_does_not_exist_links_nothing() {
    let index = star(&[("a", 30), ("b", 10)], 64);
    let found = index.search_layer(&vec![0], 10, 5, &first_component);
    assert!(found.is_empty());
}

#[test]
fn search_walks_the_bottom_layer_only() {
    let mut index = HNSWIndex::new(HNSWParams::default());
    let snapshot = Snapshot {
        params: HNSWParams::default(),
        points: vec![
            Point { id: "e".to_string(), vector: vec![0], level: 1 },
            Point { id: "a".to_string(), vector: vec![4], level: 1 },
            Point { id: "b".to_string(), vector: vec![2], level: 0 },
        ],
        layers: vec![
            Layer { links: vec![links("e", &["b"]), links("a", &[]), links("b", &[])] },
            Layer { links: vec![links("e", &["a"]), links("a", &[])] },
        ],
        entry_point: Some("e".to_string()),
        dimensions: 1,
    };
    index.load(snapshot).unwrap();
    let found = index.search(vec![0], 10, &first_component).unwrap();
    assert_eq!(names(&found), vec!["b"]);
    let upper = index.search_layer(&vec![0], 10, 1, &first_component);
    assert_eq!(names(&upper), vec!["a"]);
}

#[test]
fn cosine_search_ranks_by_similarity() {
    let index = index_of(
        vec![
            point("e", bits(&[0.0, 1.0])),
            point("same", bits(&[2.0, 0.0])),
            point("near", bits(&[1.0, 1.0])),
            point("opposite", bits(&[-1.0, 0.0])),
            point("zero", bits(&[0.0, 0.0])),
        ],
        vec![
            links("e", &["opposite", "zero", "near", "same"]),
            links("same", &[]),
            links("near", &[]),
            links("opposite", &[]),
            links("zero", &[]),
        ],
        Some("e"),
        2,
        64,
    );
    let found = index.search(bits(&[1.0, 0.0]), 4, &cosine).unwrap();
    assert_eq!(names(&found), vec!["same", "near", "zero", "opposite"]);
    let scores: Vec<f32> = found.iter().map(score).collect();
    assert!((scores[0] - 1.0).abs() < 1.0e-6);
    assert!((scores[1] - 0.70710677).abs() < 1.0e-6);
    assert_eq!(scores[2], 0.0);
    assert!((scores[3] + 1.0).abs() < 1.0e-6);
    for i in 1..scores.len() {
        assert!(scores[i - 1] >= scores[i]);
    }
}

#[test]
fn search_does_not_change_the_index() {
    let index = star(&[("a", 30), ("b", 10)], 64);
    let before = index.get_stats();
    index.search(vec![0], 5, &first_component).unwrap();
    assert_eq!(index.get_stats(), before);
    assert_eq!(index.save().entry_point, Some("e".to_string()));
}
