use vector_search::error::IndexError;
use vector_search::index::{VectorIndex, EMPTY_DISTANCE};
use vector_search::node::Node;

fn words(v: &[f32]) -> Vec<u32> {
    v.iter().map(|x| x.to_bits()).collect()
}

fn euclid(a: &Vec<u32>, b: &Vec<u32>) -> u32 {
    let mut sum = 0.0f32;
    for (x, y) in a.iter().zip(b.iter()) {
        let diff = f32::from_bits(*x) - f32::from_bits(*y);
        sum += diff * diff;
    }
    sum.to_bits()
}

fn three_points() -> VectorIndex {
    let mut index = VectorIndex::new(2);
    index.add(words(&[0.0, 0.0]), &euclid).unwrap();
    index.add(words(&[1.0, 1.0]), &euclid).unwrap();
    index.add(words(&[10.0, 10.0]), &euclid).unwrap();
    index
}

fn neighbors_of(index: &VectorIndex, i: usize) -> Vec<usize> {
    index.arena()[i].neighbors.clone()
}

#[test]
fn new_index_is_empty() {
    let index = VectorIndex::new(4);
    assert_eq!(index.len(), 0);
    assert_eq!(index.dimension(), 4);
    assert_eq!(index.entry_point(), None);
}

#[test]
fn three_points_entry_point_is_first_node() {
    let index = three_points();
    assert_eq!(index.entry_point(), Some(0));
    assert_eq!(index.len(), 3);
}

#[test]
fn three_points_edges_are_reciprocal() {
    let index = three_points();
    assert_eq!(neighbors_of(&index, 0), vec![1]);
    assert_eq!(neighbors_of(&index, 1), vec![0, 2]);
    assert_eq!(neighbors_of(&index, 2), vec![1]);
}

#[test]
fn three_points_exact_search_finds_the_point_itself() {
    let index = three_points();
    let found = index.search(words(&[1.0, 1.0]), 1, &euclid).unwrap();
    assert_eq!(found.len(), 1);
    assert_eq!(found[0].0, 1);
    assert_eq!(f32::from_bits(found[0].1), 0.0);
}

#[test]
fn three_points_graph_search_reaches_the_far_node() {
    let index = three_points();
    let (node, distance) = index.search_graph(words(&[9.0, 9.0]), 10, &euclid);
    assert_eq!(node, 2);
    assert_eq!(f32::from_bits(distance), 2.0);
}

#[test]
fn graph_search_on_empty_index_gives_sentinel() {
    let index = VectorIndex::new(2);
    let (node, distance) = index.search_graph(words(&[1.0, 2.0]), 10, &euclid);
    assert_eq!(node, 0);
    assert_eq!(distance, EMPTY_DISTANCE);
    assert_eq!(f32::from_bits(distance), f32::MAX);
}

#[test]
fn exact_search_on_empty_index_gives_nothing() {
    let index = VectorIndex::new(2);
    let found = index.search(words(&[1.0, 2.0]), 3, &euclid).unwrap();
    assert!(found.is_empty());
}

#[test]
fn add_rejects_wrong_dimension_and_keeps_state() {
    let mut index = three_points();
    let r = index.add(words(&[1.0, 2.0, 3.0]), &euclid);
    assert_eq!(r, Err(IndexError::DimensionMismatch { expected: 2, got: 3 }));
    assert_eq!(index.len(), 3);
    assert_eq!(neighbors_of(&index, 1), vec![0, 2]);
    assert_eq!(index.entry_point(), Some(0));
}

#[test]
fn add_to_empty_index_rejects_wrong_dimension() {
    let mut index = VectorIndex::new(3);
    let r = index.add(words(&[1.0]), &euclid);
    assert_eq!(r, Err(IndexError::DimensionMismatch { expected: 3, got: 1 }));
    assert_eq!(index.len(), 0);
    assert_eq!(index.entry_point(), None);
}

#[test]
fn add_parallel_rejects_whole_batch_on_one_bad_vector() {
    let mut index = three_points();
    let batch = vec![words(&[2.0, 2.0]), words(&[3.0]), words(&[4.0, 4.0, 4.0])];
    let r = index.add_parallel(batch, &euclid);
    assert_eq!(r, Err(IndexError::DimensionMismatch { expected: 2, got: 1 }));
    assert_eq!(index.len(), 3);
    assert_eq!(neighbors_of(&index, 0), vec![1]);
}

#[test]
fn search_rejects_wrong_dimension() {
    let index = three_points();
    let r = index.search(words(&[1.0]), 1, &euclid);
    assert_eq!(r, Err(IndexError::DimensionMismatch { expected: 2, got: 1 }));
}

#[test]
fn add_parallel_on_empty_index_anchors_to_first_vector() {
    let mut index = VectorIndex::new(2);
    let batch = vec![words(&[0.0, 0.0]), words(&[5.0, 5.0]), words(&[5.0, 6.0])];
    index.add_parallel(batch, &euclid).unwrap();
    assert_eq!(index.entry_point(), Some(0));
    assert_eq!(index.len(), 3);
    assert_eq!(neighbors_of(&index, 0), vec![1, 2]);
    assert_eq!(neighbors_of(&index, 1), vec![0]);
    assert_eq!(neighbors_of(&index, 2), vec![0]);
}

#[test]
fn add_parallel_uses_anchors_found_before_the_chunk() {
    let mut index = VectorIndex::new(2);
    index.add(words(&[0.0, 0.0]), &euclid).unwrap();
    index.add(words(&[10.0, 10.0]), &euclid).unwrap();
    let batch = vec![words(&[9.0, 9.0]), words(&[1.0, 1.0]), words(&[9.0, 10.0])];
    index.add_parallel(batch, &euclid).unwrap();
    assert_eq!(index.len(), 5);
    assert_eq!(neighbors_of(&index, 2), vec![1]);
    assert_eq!(neighbors_of(&index, 3), vec![0]);
    assert_eq!(neighbors_of(&index, 4), vec![1]);
    assert_eq!(neighbors_of(&index, 0), vec![1, 3]);
    assert_eq!(neighbors_of(&index, 1), vec![0, 2, 4]);
    assert_eq!(index.arena()[3].vector, words(&[1.0, 1.0]));
}

#[test]
fn add_parallel_second_chunk_sees_the_first() {
    let mut index = VectorIndex::new(1);
    let batch: Vec<Vec<u32>> = (0..1002).map(|i| words(&[i as f32])).collect();
    index.add_parallel(batch, &euclid).unwrap();
    assert_eq!(index.len(), 1002);
    assert_eq!(index.entry_point(), Some(0));
    assert_eq!(neighbors_of(&index, 0).len(), 999);
    assert_eq!(neighbors_of(&index, 999), vec![0, 1000, 1001]);
    assert_eq!(neighbors_of(&index, 1000), vec![999]);
    assert_eq!(neighbors_of(&index, 1001), vec![999]);
}

#[test]
fn add_parallel_of_nothing_changes_nothing() {
    let mut index = three_points();
    index.add_parallel(Vec::new(), &euclid).unwrap();
    assert_eq!(index.len(), 3);
}

#[test]
fn exact_search_sorts_ascending_and_breaks_ties_by_position() {
    let mut index = VectorIndex::new(1);
    for x in [5.0f32, -1.0, 3.0, 1.0, 0.0] {
        index.add(words(&[x]), &euclid).unwrap();
    }
    let found = index.search(words(&[0.0]), 10, &euclid).unwrap();
    let nodes: Vec<usize> = found.iter().map(|e| e.0).collect();
    let dists: Vec<f32> = found.iter().map(|e| f32::from_bits(e.1)).collect();
    assert_eq!(nodes, vec![4, 1, 3, 2, 0]);
    assert_eq!(dists, vec![0.0, 1.0, 1.0, 9.0, 25.0]);
    let top = index.search(words(&[0.0]), 2, &euclid).unwrap();
    assert_eq!(top, vec![(4, 0.0f32.to_bits()), (1, 1.0f32.to_bits())]);
    let none = index.search(words(&[0.0]), 0, &euclid).unwrap();
    assert!(none.is_empty());
}

#[test]
fn exact_search_is_never_worse_than_graph_search() {
    let mut index = VectorIndex::new(2);
    let points = [[0.0f32, 0.0], [8.0, 1.0], [3.0, 3.0], [-4.0, 2.0], [7.0, 7.0], [1.0, -6.0]];
    for p in points {
        index.add(words(&p), &euclid).unwrap();
    }
    for q in [[7.5f32, 6.0], [-3.0, -3.0], [0.5, 0.5], [100.0, 100.0]] {
        for ef in [0usize, 1, 2, 10] {
            let exact = index.search(words(&q), 1, &euclid).unwrap();
            let approx = index.search_graph(words(&q), ef, &euclid);
            assert!(exact[0].1 <= approx.1);
            assert!(f32::from_bits(exact[0].1) <= f32::from_bits(approx.1));
        }
    }
}

#[test]
fn insertion_is_deterministic() {
    let build = || {
        let mut index = VectorIndex::new(2);
        for p in [[0.0f32, 0.0], [8.0, 1.0], [3.0, 3.0], [-4.0, 2.0], [7.0, 7.0], [1.0, -6.0]] {
            index.add(words(&p), &euclid).unwrap();
        }
        index.into_parts()
    };
    let (a, dim_a, entry_a) = build();
    let (b, dim_b, entry_b) = build();
    assert_eq!(dim_a, dim_b);
    assert_eq!(entry_a, entry_b);
    assert_eq!(a.len(), b.len());
    for i in 0..a.len() {
        assert_eq!(a[i].vector, b[i].vector);
        assert_eq!(a[i].neighbors, b[i].neighbors);
    }
}

fn chain() -> VectorIndex {
    // 0:[1] - 1:[5], 2:[4], 3:[3] hang on 0; 4:[0] hangs on 3 only.
    let node = |x: f32, nbrs: Vec<usize>| Node { vector: words(&[x]), neighbors: nbrs };
    let arena = vec![
        node(1.0, vec![1, 2, 3]),
        node(5.0, vec![0]),
        node(4.0, vec![0]),
        node(3.0, vec![0, 4]),
        node(0.0, vec![3]),
    ];
    VectorIndex::from_parts(arena, 1, Some(0)).unwrap()
}

#[test]
fn beam_search_drops_what_does_not_fit() {
    let index = chain();
    let q = words(&[0.0]);
    assert_eq!(index.search_beam(&q, 0, 2, &euclid), 0);
    assert_eq!(index.search_beam(&q, 0, 0, &euclid), 0);
    assert_eq!(index.search_beam(&q, 0, 3, &euclid), 4);
    assert_eq!(index.search_beam(&q, 0, 10, &euclid), 4);
    assert_eq!(index.search_graph(q.clone(), 2, &euclid), (0, 1.0f32.to_bits()));
    assert_eq!(index.search_graph(q, 3, &euclid), (4, 0.0f32.to_bits()));
}

#[test]
fn beam_search_always_admits_an_improvement() {
    let node = |x: f32, nbrs: Vec<usize>| Node { vector: words(&[x]), neighbors: nbrs };
    let arena = vec![
        node(9.0, vec![1, 2, 3]),
        node(10.0, vec![0]),
        node(11.0, vec![0]),
        node(5.0, vec![0, 4]),
        node(1.0, vec![3]),
    ];
    let index = VectorIndex::from_parts(arena, 1, Some(0)).unwrap();
    assert_eq!(index.search_beam(&words(&[0.0]), 0, 1, &euclid), 4);
    assert_eq!(index.search_beam(&words(&[0.0]), 0, 0, &euclid), 4);
}

#[test]
fn greedy_search_walks_downhill() {
    let index = three_points();
    assert_eq!(index.search_greedy(&words(&[9.0, 9.0]), 0, &euclid), 2);
    assert_eq!(index.search_greedy(&words(&[0.0, 0.0]), 2, &euclid), 0);
    assert_eq!(index.search_greedy(&words(&[1.0, 1.0]), 1, &euclid), 1);
}

#[test]
fn greedy_search_stops_at_a_local_minimum() {
    let index = chain();
    // From node 1 the walk reaches node 0, whose neighbours are all farther;
    // node 4, the nearest of all, lies behind node 3.
    assert_eq!(index.search_greedy(&words(&[0.0]), 1, &euclid), 0);
    assert_eq!(index.search_greedy(&words(&[0.0]), 3, &euclid), 4);
}

#[test]
fn greedy_search_takes_the_first_of_equally_near_neighbours() {
    let node = |x: f32, nbrs: Vec<usize>| Node { vector: words(&[x]), neighbors: nbrs };
    let arena = vec![
        node(5.0, vec![1, 2, 3]),
        node(2.0, vec![0]),
        node(-2.0, vec![0]),
        node(3.0, vec![0]),
    ];
    let index = VectorIndex::from_parts(arena, 1, Some(0)).unwrap();
    assert_eq!(index.search_greedy(&words(&[0.0]), 0, &euclid), 1);
}

#[test]
fn find_anchor_is_zero_for_empty_index() {
    let index = VectorIndex::new(2);
    assert_eq!(index.find_anchor(&words(&[3.0, 4.0]), &euclid), 0);
    let index = three_points();
    assert_eq!(index.find_anchor(&words(&[9.0, 9.0]), &euclid), 2);
}

#[test]
fn wide_graph_search_agrees_with_exact_search() {
    let mut index = VectorIndex::new(2);
    let points = [
        [0.0f32, 0.0],
        [8.0, 1.0],
        [3.0, 3.0],
        [-4.0, 2.0],
        [7.0, 7.0],
        [1.0, -6.0],
        [-5.0, -5.0],
        [2.5, 0.5],
    ];
    for p in points {
        index.add(words(&p), &euclid).unwrap();
    }
    let n = index.len();
    for q in [[7.5f32, 6.0], [-3.0, -3.0], [0.5, 0.5], [100.0, 100.0], [2.0, -5.0]] {
        let exact = index.search(words(&q), 1, &euclid).unwrap();
        let (_, distance) = index.search_graph(words(&q), n, &euclid);
        assert_eq!(distance, exact[0].1);
    }
}

#[test]
fn inserted_edges_have_their_edge_back() {
    let mut index = VectorIndex::new(2);
    let batch: Vec<Vec<u32>> =
        (0..40).map(|i| words(&[(i * 7 % 11) as f32, (i * 3 % 5) as f32])).collect();
    for v in batch.iter().take(20) {
        index.add(v.clone(), &euclid).unwrap();
    }
    index.add_parallel(batch[20..].to_vec(), &euclid).unwrap();
    assert_eq!(index.len(), 40);
    for i in 0..index.len() {
        for &j in &index.arena()[i].neighbors {
            assert!(j < index.len());
            assert!(index.arena()[j].neighbors.contains(&i));
        }
        assert_eq!(index.arena()[i].vector, batch[i]);
    }
}

#[test]
fn stored_vectors_keep_their_positions() {
    let mut index = VectorIndex::new(1);
    for x in [4.0f32, 2.0, 9.0] {
        index.add(words(&[x]), &euclid).unwrap();
    }
    assert_eq!(index.arena()[0].vector, words(&[4.0]));
    assert_eq!(index.arena()[1].vector, words(&[2.0]));
    assert_eq!(index.arena()[2].vector, words(&[9.0]));
    assert_eq!(index.entry_point(), Some(0));
}

#[test]
fn zero_dimension_index_takes_empty_vectors() {
    let mut index = VectorIndex::new(0);
    index.add(Vec::new(), &euclid).unwrap();
    index.add(Vec::new(), &euclid).unwrap();
    assert_eq!(index.len(), 2);
    assert_eq!(index.search(Vec::new(), 5, &euclid).unwrap(), vec![(0, 0), (1, 0)]);
    assert_eq!(index.search_graph(Vec::new(), 1, &euclid), (0, 0));
    assert_eq!(
        index.add(words(&[1.0]), &euclid),
        Err(IndexError::DimensionMismatch { expected: 0, got: 1 })
    );
}

#[test]
fn nothing_improves_on_a_distance_that_is_not_a_number() {
    // The start's vector holds something that is not a number, so its distance
    // is not one either: no neighbour counts as strictly nearer.
    let node = |x: f32, nbrs: Vec<usize>| Node { vector: words(&[x]), neighbors: nbrs };
    let arena = vec![node(f32::NAN, vec![1, 2]), node(1.0, vec![0]), node(0.0, vec![0])];
    let index = VectorIndex::from_parts(arena, 1, Some(0)).unwrap();
    let q = words(&[0.0]);
    assert_eq!(index.search_beam(&q, 0, 10, &euclid), 0);
    assert_eq!(index.search_greedy(&q, 0, &euclid), 0);
    let (node, distance) = index.search_graph(q, 10, &euclid);
    assert_eq!(node, 0);
    assert!(f32::from_bits(distance).is_nan());
}

#[test]
fn a_distance_that_is_not_a_number_improves_on_nothing() {
    let node = |x: f32, nbrs: Vec<usize>| Node { vector: words(&[x]), neighbors: nbrs };
    let arena = vec![
        node(5.0, vec![1, 2]),
        node(f32::NAN, vec![0, 3]),
        node(4.0, vec![0]),
        node(1.0, vec![1]),
    ];
    let index = VectorIndex::from_parts(arena, 1, Some(0)).unwrap();
    let q = words(&[0.0]);
    // Greedy descent moves to node 2 and stops: node 3 lies behind node 1.
    assert_eq!(index.search_greedy(&q, 0, &euclid), 2);
    // The beam search admits node 1 while the frontier has room, and finds node 3
    // behind it.
    assert_eq!(index.search_beam(&q, 0, 10, &euclid), 3);
    // With no room, node 1 is dropped, as it is no improvement.
    assert_eq!(index.search_beam(&q, 0, 0, &euclid), 2);
}

#[test]
fn exact_search_ranks_what_is_not_a_number_last() {
    let mut index = VectorIndex::new(1);
    for x in [2.0f32, f32::NAN, 1.0, f32::INFINITY] {
        index.add(words(&[x]), &euclid).unwrap();
    }
    let found = index.search(words(&[0.0]), 4, &euclid).unwrap();
    let nodes: Vec<usize> = found.iter().map(|e| e.0).collect();
    assert_eq!(nodes, vec![2, 0, 3, 1]);
    assert!(f32::from_bits(found[3].1).is_nan());
}

#[test]
fn graph_search_of_width_nine_is_exact_on_ten_nodes() {
    let mut index = VectorIndex::new(1);
    for x in [9.0f32, 8.0, 7.0, 6.0, 5.0, 4.0, 3.0, 2.0, 1.0, 0.0] {
        index.add(words(&[x]), &euclid).unwrap();
    }
    assert_eq!(index.len(), 10);
    for q in [0.2f32, 3.4, 9.9, -5.0, 6.5] {
        let exact = index.search(words(&[q]), 1, &euclid).unwrap();
        let (_, distance) = index.search_graph(words(&[q]), 9, &euclid);
        assert_eq!(distance, exact[0].1);
    }
}

#[test]
fn anchor_is_a_nearest_node_up_to_eleven_nodes() {
    let mut index = VectorIndex::new(2);
    let points: Vec<[f32; 2]> =
        (0..12).map(|i| [((i * 7) % 12) as f32, ((i * 5) % 7) as f32]).collect();
    for p in points.iter() {
        if index.len() > 0 {
            assert!(index.len() <= 11);
            let anchor = index.find_anchor(&words(p), &euclid);
            let exact = index.search(words(p), 1, &euclid).unwrap();
            assert_eq!(euclid(&words(p), &index.arena()[anchor].vector), exact[0].1);
        }
        index.add(words(p), &euclid).unwrap();
    }
}
