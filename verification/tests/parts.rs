use vector_search::error::IndexError;
use vector_search::index::VectorIndex;
use vector_search::node::Node;

fn bits(v: &[f32]) -> Vec<u32> {
    v.iter().map(|x| x.to_bits()).collect()
}

fn squared(a: &Vec<u32>, b: &Vec<u32>) -> u32 {
    let mut sum = 0.0f32;
    for (x, y) in a.iter().zip(b.iter()) {
        let diff = f32::from_bits(*x) - f32::from_bits(*y);
        sum += diff * diff;
    }
    sum.to_bits()
}

fn sample() -> VectorIndex {
    let mut index = VectorIndex::new(3);
    for p in [[0.0f32, 0.0, 0.0], [1.0, 2.0, 3.0], [-1.0, 0.5, 9.0], [4.0, 4.0, 4.0]] {
        index.add(bits(&p), &squared).unwrap();
    }
    index
}

type Plain = (Vec<(Vec<u32>, Vec<u64>)>, u64, Option<u64>);

fn to_plain(index: VectorIndex) -> Plain {
    let (arena, dimension, entry) = index.into_parts();
    let nodes = arena
        .into_iter()
        .map(|n| (n.vector, n.neighbors.into_iter().map(|i| i as u64).collect()))
        .collect();
    (nodes, dimension as u64, entry.map(|e| e as u64))
}

fn from_plain(plain: Plain) -> Result<VectorIndex, IndexError> {
    let arena = plain
        .0
        .into_iter()
        .map(|(vector, nbrs)| Node {
            vector,
            neighbors: nbrs.into_iter().map(|i| i as usize).collect(),
        })
        .collect();
    VectorIndex::from_parts(arena, plain.1 as usize, plain.2.map(|e| e as usize))
}

#[test]
fn parts_round_trip() {
    let index = sample();
    let (arena, dimension, entry) = index.into_parts();
    let copy: Vec<Node> = arena.iter().map(|n| n.clone()).collect();
    let back = VectorIndex::from_parts(copy, dimension, entry).unwrap();
    assert_eq!(back.dimension(), 3);
    assert_eq!(back.entry_point(), Some(0));
    assert_eq!(back.len(), arena.len());
    for i in 0..arena.len() {
        assert_eq!(back.arena()[i].vector, arena[i].vector);
        assert_eq!(back.arena()[i].neighbors, arena[i].neighbors);
    }
}

#[test]
fn bytes_round_trip() {
    let plain = to_plain(sample());
    let bytes = bincode::serialize(&plain).unwrap();
    let decoded: Plain = bincode::deserialize(&bytes).unwrap();
    assert_eq!(decoded, plain);
    let back = from_plain(decoded).unwrap();
    let first = sample();
    assert_eq!(back.dimension(), first.dimension());
    assert_eq!(back.entry_point(), first.entry_point());
    assert_eq!(back.len(), first.len());
    for i in 0..first.len() {
        assert_eq!(back.arena()[i].vector, first.arena()[i].vector);
        assert_eq!(back.arena()[i].neighbors, first.arena()[i].neighbors);
    }
    let q = bits(&[1.0, 2.0, 2.5]);
    assert_eq!(back.search_graph(q.clone(), 10, &squared), first.search_graph(q, 10, &squared));
}

#[test]
fn empty_index_round_trip() {
    let plain = to_plain(VectorIndex::new(7));
    let bytes = bincode::serialize(&plain).unwrap();
    let decoded: Plain = bincode::deserialize(&bytes).unwrap();
    let back = from_plain(decoded).unwrap();
    assert_eq!(back.len(), 0);
    assert_eq!(back.dimension(), 7);
    assert_eq!(back.entry_point(), None);
}

#[test]
fn truncated_bytes_do_not_decode() {
    let plain = to_plain(sample());
    let bytes = bincode::serialize(&plain).unwrap();
    let cut = &bytes[..bytes.len() - 3];
    assert!(bincode::deserialize::<Plain>(cut).is_err());
}

#[test]
fn from_parts_rejects_wrong_vector_length() {
    let arena = vec![Node { vector: bits(&[1.0, 2.0]), neighbors: vec![] }];
    assert!(matches!(VectorIndex::from_parts(arena, 3, Some(0)), Err(IndexError::Malformed)));
}

#[test]
fn from_parts_rejects_edge_outside_arena() {
    let arena = vec![
        Node { vector: bits(&[1.0]), neighbors: vec![1] },
        Node { vector: bits(&[2.0]), neighbors: vec![2] },
    ];
    assert!(matches!(VectorIndex::from_parts(arena, 1, Some(0)), Err(IndexError::Malformed)));
}

#[test]
fn from_parts_rejects_entry_point_outside_arena() {
    let arena = vec![Node { vector: bits(&[1.0]), neighbors: vec![] }];
    assert!(matches!(VectorIndex::from_parts(arena, 1, Some(1)), Err(IndexError::Malformed)));
}

#[test]
fn from_parts_rejects_missing_entry_point() {
    let arena = vec![Node { vector: bits(&[1.0]), neighbors: vec![] }];
    assert!(matches!(VectorIndex::from_parts(arena, 1, None), Err(IndexError::Malformed)));
}

#[test]
fn from_parts_rejects_entry_point_of_empty_arena() {
    assert!(matches!(VectorIndex::from_parts(Vec::new(), 1, Some(0)), Err(IndexError::Malformed)));
}

#[test]
fn from_parts_accepts_empty_index() {
    let index = VectorIndex::from_parts(Vec::new(), 5, None).unwrap();
    assert_eq!(index.len(), 0);
    assert_eq!(index.dimension(), 5);
}

#[test]
fn from_parts_accepts_self_loops_and_repeated_edges() {
    let arena = vec![
        Node { vector: bits(&[1.0]), neighbors: vec![0, 1, 1] },
        Node { vector: bits(&[2.0]), neighbors: vec![0] },
    ];
    let index = VectorIndex::from_parts(arena, 1, Some(1)).unwrap();
    assert_eq!(index.entry_point(), Some(1));
    assert_eq!(index.search_beam(&bits(&[0.0]), 1, 10, &squared), 0);
    assert_eq!(index.search_greedy(&bits(&[0.0]), 1, &squared), 0);
}
