use sparse_index::codec::open_checked;
use sparse_index::inverted_index_immutable_ram::InvertedIndexImmutableRam;
use sparse_index::inverted_index_ram::InvertedIndexRam;
use sparse_index::sparse_vector::RemappedSparseVector;
use sparse_index::storage_version::{
    check_compatibility, load_from_contents, IndexStorageVersion, StorageError, StorageVersion,
    Version, VERSION_FILE,
};

fn sv(pairs: &[(u32, i64)]) -> RemappedSparseVector {
    let mut indices = Vec::new();
    let mut values = Vec::new();
    for (d, v) in pairs {
        indices.push(*d);
        values.push(*v);
    }
    RemappedSparseVector::new(indices, values).unwrap()
}

fn sample_index() -> InvertedIndexRam {
    let mut index = InvertedIndexRam::new();
    index.upsert(0, sv(&[(1, 5), (3, 2)]), None);
    index.upsert(1, sv(&[(1, 9)]), None);
    index.upsert(2, sv(&[(0, -4), (3, 7)]), None);
    index
}

fn collect(index: &InvertedIndexImmutableRam, d: u32) -> Vec<(u32, i64, i64)> {
    let mut out = Vec::new();
    if let Some(mut it) = index.get(&d) {
        while let Some(e) = it.next() {
            out.push((e.row_id, e.weight, e.max_next_weight));
        }
    }
    out
}

#[test]
fn version_file_name() {
    assert_eq!(VERSION_FILE, "version.info");
}

#[test]
fn load_absent_version_is_none() {
    assert_eq!(load_from_contents(None), Ok(None));
}

#[test]
fn load_parses_plain_version() {
    assert_eq!(
        load_from_contents(Some("1.2.3")),
        Ok(Some(Version { major: 1, minor: 2, patch: 3 }))
    );
    assert_eq!(
        load_from_contents(Some("9999.0.0")),
        Ok(Some(Version { major: 9999, minor: 0, patch: 0 }))
    );
}

#[test]
fn load_rejects_garbage() {
    assert_eq!(load_from_contents(Some("not a version")), Err(StorageError::VersionParse));
    assert_eq!(load_from_contents(Some("1.2")), Err(StorageError::VersionParse));
    assert_eq!(load_from_contents(Some("01.2.3")), Err(StorageError::VersionParse));
}

#[test]
fn current_raw_round_trips() {
    let raw = IndexStorageVersion::current_raw();
    assert_eq!(load_from_contents(Some(raw)), Ok(Some(IndexStorageVersion::current())));
}

#[test]
fn compatibility_rule() {
    let cur = IndexStorageVersion::current();
    assert_eq!(check_compatibility(Some(cur), cur), Ok(()));
    assert_eq!(check_compatibility(None, cur), Err(StorageError::MissingVersion));
    let newer = Version { major: 9999, minor: 0, patch: 0 };
    assert_eq!(check_compatibility(Some(newer), cur), Err(StorageError::IncompatibleVersion));
    let patch_only = Version { major: cur.major, minor: cur.minor, patch: cur.patch + 1 };
    assert_eq!(check_compatibility(Some(patch_only), cur), Ok(()));
}

#[test]
fn save_open_round_trip() {
    let index = sample_index();
    let frozen = InvertedIndexImmutableRam::from_ram_index(&index);
    let words = frozen.encode();
    let reopened = open_checked(Some(IndexStorageVersion::current()), &words).unwrap();
    for d in 0..5u32 {
        assert_eq!(collect(&frozen, d), collect(&reopened, d), "dim {}", d);
    }
    assert_eq!(reopened.vector_count(), frozen.vector_count());
    assert_eq!(reopened.max_index(), frozen.max_index());
}

#[test]
fn open_gates_on_version() {
    let frozen = InvertedIndexImmutableRam::from_ram_index(&sample_index());
    let words = frozen.encode();
    assert_eq!(
        open_checked(Some(Version { major: 9999, minor: 0, patch: 0 }), &words).unwrap_err(),
        StorageError::IncompatibleVersion
    );
    assert_eq!(open_checked(None, &words).unwrap_err(), StorageError::MissingVersion);
}

#[test]
fn decode_rejects_truncated_words() {
    let frozen = InvertedIndexImmutableRam::from_ram_index(&sample_index());
    let mut words = frozen.encode();
    words.pop();
    assert_eq!(
        InvertedIndexImmutableRam::decode(&words).unwrap_err(),
        StorageError::CorruptData
    );
}

#[test]
fn decode_rejects_foreign_stamp() {
    let frozen = InvertedIndexImmutableRam::from_ram_index(&sample_index());
    let mut words = frozen.encode();
    words[0] = words[0] + 1;
    assert_eq!(
        InvertedIndexImmutableRam::decode(&words).unwrap_err(),
        StorageError::CorruptData
    );
}

#[test]
fn decode_rejects_broken_pruning_bound() {
    let frozen = InvertedIndexImmutableRam::from_ram_index(&sample_index());
    let mut words = frozen.encode();
    // mangle the bound word of the first element
    let nd = words[2] as usize;
    let bound_slot = 5 + 2 * nd + 2;
    words[bound_slot] = words[bound_slot].wrapping_add(1);
    assert_eq!(
        InvertedIndexImmutableRam::decode(&words).unwrap_err(),
        StorageError::CorruptData
    );
}

#[test]
fn decode_rejects_unsorted_rows() {
    let frozen = InvertedIndexImmutableRam::from_ram_index(&sample_index());
    let mut words = frozen.encode();
    // dim 1 holds rows 0 and 1 as the second and third elements; raising
    // the first of the pair above the second breaks ordering
    let nd = words[2] as usize;
    let row_slot = 5 + 2 * nd + 3;
    words[row_slot] = 100;
    assert_eq!(
        InvertedIndexImmutableRam::decode(&words).unwrap_err(),
        StorageError::CorruptData
    );
}

#[test]
fn empty_index_round_trips() {
    let index = InvertedIndexRam::new();
    let frozen = InvertedIndexImmutableRam::from_ram_index(&index);
    assert!(frozen.is_empty());
    assert_eq!(frozen.max_index(), None);
    let words = frozen.encode();
    let reopened = InvertedIndexImmutableRam::decode(&words).unwrap();
    assert!(reopened.is_empty());
    assert_eq!(reopened.vector_count(), 0);
}
