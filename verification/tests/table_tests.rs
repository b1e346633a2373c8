//! Tests of the vector table: insertion, validation, sealing and the
//! equivalence of the scalar and batched query paths.
use latus::error::Error;
use latus::table::VectorTable;

fn vec_of(values: &[u32]) -> Vec<u32> {
    values.to_vec()
}

#[test]
fn vector_table_insert_many() {
    let dim = 128;
    let vector: Vec<u32> = (0..dim as u32).collect();

    let vectors = [vector.clone()];

    let mut table: VectorTable = VectorTable::new(dim, false);
    table.insert_many(&vectors).unwrap();

    assert_eq!(table.get(0), vector)
}

#[test]
fn top_k_by_metric() {
}

#[test]
fn bottom_k_by_metric() {
}

#[test]
fn insert_rejects_wrong_dimension() {
    let mut table = VectorTable::new(3, false);
    let bad = vec_of(&[1, 2]);
    assert_eq!(table.insert(&bad), Err(Error::DimensionMismatch));
    assert_eq!(table.len(), 0);

    let good = vec_of(&[1, 2, 3]);
    assert_eq!(table.insert(&good), Ok(()));
    assert_eq!(table.len(), 1);
    assert_eq!(table.get(0), good);
}

#[test]
fn insert_many_is_atomic() {
    let mut table = VectorTable::new(2, false);
    let batch = [vec_of(&[1, 2]), vec_of(&[3]), vec_of(&[4, 5])];
    assert_eq!(table.insert_many(&batch), Err(Error::DimensionMismatch));
    assert_eq!(table.len(), 0);

    let batch = [vec_of(&[1, 2]), vec_of(&[3, 4])];
    assert_eq!(table.insert_many(&batch), Ok(()));
    assert_eq!(table.len(), 2);
}

#[test]
fn sealing_after_full_chunks() {
    let mut table = VectorTable::with_chunk_size(1, true, 4);
    let mut inserted: Vec<Vec<u32>> = Vec::new();
    for i in 0..8u32 {
        let v = vec_of(&[100 + i]);
        inserted.push(v.clone());
        table.insert(&v).unwrap();
    }
    // exactly 2 * chunk_size vectors: everything sealed, nothing loose
    assert_eq!(table.len(), 8);
    assert_eq!(table.block_len(), 2);
    assert_eq!(table.loose_len(), 0);
    // global id i is still the i-th inserted vector
    for i in 0..8 {
        assert_eq!(table.get(i), inserted[i]);
    }

    // one more insert: a loose tail appears, ids unchanged
    table.insert(&vec_of(&[200])).unwrap();
    assert_eq!(table.block_len(), 2);
    assert_eq!(table.loose_len(), 1);
    assert_eq!(table.get(8), vec_of(&[200]));
}

#[test]
fn sealing_preserves_order_with_insert_many() {
    let mut table = VectorTable::with_chunk_size(2, true, 3);
    let batch: Vec<Vec<u32>> = (0..7u32).map(|i| vec_of(&[i, i + 1])).collect();
    table.insert_many(&batch).unwrap();
    assert_eq!(table.block_len(), 2);
    assert_eq!(table.loose_len(), 1);
    for i in 0..7 {
        assert_eq!(table.get(i), batch[i]);
    }
}

#[test]
fn block_rows_read_back() {
    let mut table = VectorTable::with_chunk_size(2, true, 2);
    let batch = [vec_of(&[1, 2]), vec_of(&[3, 4]), vec_of(&[5, 6])];
    table.insert_many(&batch).unwrap();
    assert_eq!(table.block_len(), 1);
    let block = table.block_at(0);
    assert_eq!(block.row_count(), 2);
    assert_eq!(block.dim(), 2);
    assert_eq!(block.row(0), vec_of(&[1, 2]));
    assert_eq!(block.row(1), vec_of(&[3, 4]));
    assert_eq!(block.entries().as_slice(), &[1, 2, 3, 4]);
    assert_eq!(table.loose_at(0).as_slice(), &[5, 6]);
}

#[test]
fn scalar_queries_on_table() {
    let mut table = VectorTable::new(1, false);
    for v in [10u32, 30, 20, 50, 40] {
        table.insert(&vec_of(&[v])).unwrap();
    }
    // score each stored vector by its single element
    let mut scores: Vec<u32> = Vec::new();
    for i in 0..table.len() {
        scores.push(table.get(i)[0]);
    }
    assert_eq!(table.top_k(&scores, 3), vec![(50, 3), (40, 4), (30, 1)]);
    assert_eq!(table.bottom_k(&scores, 3), vec![(10, 0), (20, 2), (30, 1)]);
    assert_eq!(table.top_k(&scores, 0), vec![]);
    assert_eq!(table.bottom_k(&scores, 9).len(), 5);
}

#[test]
fn matrix_path_matches_scalar_path() {
    let mut table = VectorTable::with_chunk_size(1, true, 2);
    for v in [10u32, 30, 20, 50, 40] {
        table.insert(&vec_of(&[v])).unwrap();
    }
    assert_eq!(table.block_len(), 2);
    assert_eq!(table.loose_len(), 1);

    // scalar pass: one score per stored vector, in global id order
    let mut scores: Vec<u32> = Vec::new();
    for i in 0..table.len() {
        scores.push(table.get(i)[0]);
    }
    // batched pass: one score vector per sealed block, then the loose tail
    let mut block_scores: Vec<Vec<u32>> = Vec::new();
    for b in 0..table.block_len() {
        let block = table.block_at(b);
        let mut one: Vec<u32> = Vec::new();
        for r in 0..block.row_count() {
            one.push(block.row(r)[0]);
        }
        block_scores.push(one);
    }
    let mut tail: Vec<u32> = Vec::new();
    for i in 0..table.loose_len() {
        tail.push(table.loose_at(i)[0]);
    }
    block_scores.push(tail);

    for k in [0usize, 1, 2, 3, 5, 8] {
        assert_eq!(table.matrix_top_k(&block_scores, k, false), table.top_k(&scores, k));
        assert_eq!(table.matrix_top_k(&block_scores, k, true), table.bottom_k(&scores, k));
    }
}

#[test]
fn matrix_path_with_only_loose_rows() {
    // unchunked table: no sealed blocks, a single temporary block of
    // loose rows drives the batched path
    let mut table = VectorTable::new(1, false);
    for v in [7u32, 3, 9] {
        table.insert(&vec_of(&[v])).unwrap();
    }
    let block_scores = vec![vec![7u32, 3, 9]];
    assert_eq!(table.matrix_top_k(&block_scores, 2, false), vec![(9, 2), (7, 0)]);
    assert_eq!(table.matrix_top_k(&block_scores, 2, true), vec![(3, 1), (7, 0)]);
}

#[test]
fn matrix_path_on_empty_table() {
    let table = VectorTable::new(2, true);
    let block_scores: Vec<Vec<u32>> = Vec::new();
    assert_eq!(table.matrix_top_k(&block_scores, 3, false), vec![]);
}

#[test]
fn query_on_empty_table() {
    let table = VectorTable::new(4, false);
    let scores: Vec<u32> = Vec::new();
    assert_eq!(table.top_k(&scores, 5), vec![]);
    assert_eq!(table.bottom_k(&scores, 5), vec![]);
}
