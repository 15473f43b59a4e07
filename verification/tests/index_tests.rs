use sparse_index::element::PostingElementEx;
use sparse_index::inverted_index_immutable_ram::InvertedIndexImmutableRam;
use sparse_index::inverted_index_ram::{InvertedIndexBuilder, InvertedIndexRam};
use sparse_index::sparse_vector::{RemappedSparseVector, SparseVectorError};

/// Order-preserving fixed-point encoding of an `f32` weight, as a
/// caller of the index would map its native weights.
fn w(x: f32) -> i64 {
    let b = x.to_bits() as i32;
    if b >= 0 {
        b as i64
    } else {
        -((b & 0x7fff_ffff) as i64)
    }
}

fn sv(pairs: &[(u32, i64)]) -> RemappedSparseVector {
    let mut indices = Vec::new();
    let mut values = Vec::new();
    for (d, v) in pairs {
        indices.push(*d);
        values.push(*v);
    }
    RemappedSparseVector::new(indices, values).unwrap()
}

fn collect_ram(index: &InvertedIndexRam, d: u32) -> Vec<(u32, i64, i64)> {
    let mut out = Vec::new();
    if let Some(mut it) = index.get(&d) {
        while let Some(e) = it.next() {
            out.push((e.row_id, e.weight, e.max_next_weight));
        }
    }
    out
}

fn collect_imm(index: &InvertedIndexImmutableRam, d: u32) -> Vec<(u32, i64, i64)> {
    let mut out = Vec::new();
    if let Some(mut it) = index.get(&d) {
        while let Some(e) = it.next() {
            out.push((e.row_id, e.weight, e.max_next_weight));
        }
    }
    out
}

#[test]
fn end_to_end_scenario() {
    let mut builder = InvertedIndexBuilder::new();
    builder.add(0, sv(&[(1, w(0.5)), (3, w(0.2))]));
    builder.add(1, sv(&[(1, w(0.9))]));
    let index = builder.build();

    let dim1 = collect_ram(&index, 1);
    assert_eq!(dim1.len(), 2);
    assert_eq!((dim1[0].0, dim1[0].1), (0, w(0.5)));
    assert_eq!((dim1[1].0, dim1[1].1), (1, w(0.9)));

    let dim3 = collect_ram(&index, 3);
    assert_eq!(dim3.len(), 1);
    assert_eq!((dim3[0].0, dim3[0].1), (0, w(0.2)));

    assert!(index.get(&2).is_none());
    assert_eq!(index.max_index(), Some(3));
    assert_eq!(index.vector_count(), 2);
    assert_eq!(index.len(), 2);
    assert!(!index.is_empty());
    assert_eq!(index.posting_list_len(&1), Some(2));
    assert_eq!(index.posting_list_len(&2), None);
}

#[test]
fn bound_invariant_on_built_lists() {
    // pseudo-random weights from a small linear congruential sequence
    let mut seed: i64 = 12345;
    let mut index = InvertedIndexRam::new();
    for row in 0..50u32 {
        seed = (seed.wrapping_mul(1103515245).wrapping_add(12345)) % 10007;
        index.upsert(row, sv(&[(7, seed), (9, -seed)]), None);
    }
    for d in [7u32, 9u32] {
        let list = collect_ram(&index, d);
        for i in 0..list.len() {
            let mut expected = i64::MIN;
            for later in &list[i + 1..] {
                if later.1 > expected {
                    expected = later.1;
                }
            }
            assert_eq!(list[i].2, expected, "bound at position {} of dim {}", i, d);
        }
        assert_eq!(list.last().unwrap().2, i64::MIN);
    }
}

#[test]
fn upsert_replaces_row_in_place() {
    let mut index = InvertedIndexRam::new();
    index.upsert(4, sv(&[(2, 10)]), None);
    index.upsert(4, sv(&[(2, 20)]), Some(sv(&[(2, 10)])));
    index.upsert(4, sv(&[(2, 30)]), Some(sv(&[(2, 20)])));
    let list = collect_ram(&index, 2);
    assert_eq!(list.len(), 1);
    assert_eq!((list[0].0, list[0].1), (4, 30));
    assert_eq!(index.vector_count(), 1);
}

#[test]
fn upsert_keeps_row_order() {
    let mut index = InvertedIndexRam::new();
    index.upsert(9, sv(&[(1, 90)]), None);
    index.upsert(3, sv(&[(1, 30)]), None);
    index.upsert(6, sv(&[(1, 60)]), None);
    let rows: Vec<u32> = collect_ram(&index, 1).iter().map(|e| e.0).collect();
    assert_eq!(rows, vec![3, 6, 9]);
}

#[test]
fn upsert_drops_dimensions_absent_from_new_vector() {
    let mut index = InvertedIndexRam::new();
    index.upsert(1, sv(&[(2, 5), (4, 6)]), None);
    index.upsert(1, sv(&[(2, 7)]), Some(sv(&[(2, 5), (4, 6)])));
    assert_eq!(collect_ram(&index, 2).len(), 1);
    assert!(index.get(&4).is_none());
}

#[test]
fn removal_completeness() {
    let mut index = InvertedIndexRam::new();
    index.upsert(0, sv(&[(1, 10), (3, 11)]), None);
    index.upsert(1, sv(&[(1, 20)]), None);
    assert_eq!(index.vector_count(), 2);

    index.remove(0, sv(&[(1, 10), (3, 11)]));
    for d in [1u32, 3u32] {
        for e in collect_ram(&index, d) {
            assert_ne!(e.0, 0);
        }
    }
    assert_eq!(index.vector_count(), 1);

    // removing a row that is not there is a no-op on the count
    index.remove(7, sv(&[(1, 99)]));
    assert_eq!(index.vector_count(), 1);
}

#[test]
fn freeze_preserves_content() {
    let mut index = InvertedIndexRam::new();
    index.upsert(0, sv(&[(1, 5), (3, 2)]), None);
    index.upsert(1, sv(&[(1, 9)]), None);
    let frozen = InvertedIndexImmutableRam::from_ram_index(&index);
    for d in 0..5u32 {
        assert_eq!(collect_ram(&index, d), collect_imm(&frozen, d), "dim {}", d);
    }
    assert_eq!(frozen.vector_count(), 2);
    assert_eq!(frozen.max_index(), Some(3));
    assert_eq!(frozen.len(), 2);
    assert_eq!(frozen.posting_list_len(&1), Some(2));
    assert_eq!(frozen.posting_list_len(&2), None);
}

#[test]
fn frozen_backend_rejects_mutation_as_no_op() {
    let mut index = InvertedIndexRam::new();
    index.upsert(0, sv(&[(1, 5)]), None);
    let mut frozen = InvertedIndexImmutableRam::from_ram_index(&index);
    let before = collect_imm(&frozen, 1);
    frozen.remove(0, sv(&[(1, 5)]));
    frozen.upsert(2, sv(&[(1, 8)]), None);
    assert_eq!(collect_imm(&frozen, 1), before);
    assert_eq!(frozen.vector_count(), 1);
}

#[test]
fn iterator_skip_and_fork() {
    let mut index = InvertedIndexRam::new();
    for row in [2u32, 5, 8, 11] {
        index.upsert(row, sv(&[(1, row as i64)]), None);
    }
    let mut it = index.get(&1).unwrap();
    assert_eq!(it.len_to_end(), 4);
    let fork = it;
    let e = it.skip_to(6).unwrap();
    assert_eq!(e.row_id, 8);
    assert_eq!(it.len_to_end(), 2);
    // the fork's cursor is unaffected
    let mut fork = fork;
    assert_eq!(fork.peek().unwrap().row_id, 2);
    assert_eq!(fork.len_to_end(), 4);
    assert!(it.skip_to(100).is_none());
}

#[test]
fn sparse_vector_validation() {
    assert_eq!(
        RemappedSparseVector::new(vec![1, 2], vec![10]).unwrap_err(),
        SparseVectorError::LengthMismatch
    );
    assert_eq!(
        RemappedSparseVector::new(vec![2, 2], vec![10, 20]).unwrap_err(),
        SparseVectorError::UnsortedIndices
    );
    assert!(RemappedSparseVector::new(vec![1, 4, 9], vec![10, 20, 30]).is_ok());
}

#[test]
fn posting_element_defaults_and_conversion() {
    let ex = PostingElementEx::new(7, 42);
    assert_eq!(ex.row_id, 7);
    assert_eq!(ex.weight, 42);
    assert_eq!(ex.max_next_weight, i64::MIN);
    let plain: sparse_index::element::PostingElement = ex.into();
    assert_eq!(plain.row_id, 7);
    assert_eq!(plain.weight, 42);
}
