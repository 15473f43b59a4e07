//! Self-describing binary layout of the frozen index, as a sequence of
//! 64-bit words: a format stamp, the vector count, the dimension and
//! element counts, the dimension ids, the region offsets, and the
//! elements (row id, weight, bound). A reader validates the whole
//! self-description — counts, ordering, region bounds and pruning
//! bounds — before trusting any of it, so truncated or foreign words
//! are an error, never a malformed index.
//!
//! Turning these words into file bytes (and the atomic-rename write)
//! is plain I/O and lives with the caller.
use vstd::prelude::*;

use crate::element::{PostingElementEx, DEFAULT_MAX_NEXT_WEIGHT};
use crate::inverted_index_immutable_ram::InvertedIndexImmutableRam;
use crate::posting_list::{bounds_ok_range, sorted_range, suffix_max_range, wf_seg};
use crate::storage_version::{compatible, IndexStorageVersion, StorageError, StorageVersion, Version};

verus! {

/// Stamp of this layout; a different stamp is a different layout.
pub const FORMAT_STAMP: u64 = 1;

/// `b` is the word image of `x`.
pub open spec fn encodes(b: Seq<u64>, x: InvertedIndexImmutableRam) -> bool {
    let nd = x.dims@.len() as int;
    let ne = x.elements@.len() as int;
    &&& x.offsets@.len() == nd + 1
    &&& nd <= usize::MAX
    &&& ne <= usize::MAX
    &&& b.len() == 5 + 2 * nd + 3 * ne
    &&& b[0] == FORMAT_STAMP
    &&& b[1] == x.vector_count as u64
    &&& b[2] == nd as u64
    &&& b[3] == ne as u64
    &&& forall|i: int| #![trigger x.dims@[i]] 0 <= i < nd ==> b[4 + i] == x.dims@[i] as u64
    &&& forall|i: int| #![trigger x.offsets@[i]] 0 <= i < nd + 1 ==> b[4 + nd + i]
        == x.offsets@[i] as u64
    &&& forall|j: int|
        #![trigger x.elements@[j]]
        0 <= j < ne ==> b[5 + 2 * nd + 3 * j] == x.elements@[j].row_id as u64 && b[5 + 2 * nd + 3
            * j + 1] == x.elements@[j].weight as u64 && b[5 + 2 * nd + 3 * j + 2]
            == x.elements@[j].max_next_weight as u64
}

/// Casting an `i64` through `u64` and back is the identity.
proof fn lemma_i64_roundtrip(w: i64)
    ensures
        (w as u64) as i64 == w,
{
    assert((w as u64) as i64 == w) by (bit_vector);
}

/// Casting a `u64` through `i64` and back is the identity.
proof fn lemma_u64_roundtrip(w: u64)
    ensures
        (w as i64) as u64 == w,
{
    assert((w as i64) as u64 == w) by (bit_vector);
}

/// Law (one image, one index): two well-formed indices with the same
/// word image hold the same dimensions, posting lists and vector
/// count; decoding what was saved can only yield the saved content.
pub proof fn lemma_encoding_functional(
    b: Seq<u64>,
    x: InvertedIndexImmutableRam,
    y: InvertedIndexImmutableRam,
)
    requires
        x.wf(),
        y.wf(),
        encodes(b, x),
        encodes(b, y),
    ensures
        x.dims@ == y.dims@,
        x.offsets@ == y.offsets@,
        x.elements@ == y.elements@,
        x.vector_count == y.vector_count,
        forall|d: crate::element::DimOffset| #[trigger] x.list_at(d) == y.list_at(d),
{
    assert(x.dims@.len() == y.dims@.len());
    assert(x.elements@.len() == y.elements@.len());
    let nd = x.dims@.len() as int;
    assert forall|i: int| 0 <= i < nd implies (#[trigger] x.dims@[i]) == y.dims@[i] by {
        assert(x.dims@[i] as u64 == b[4 + i] && y.dims@[i] as u64 == b[4 + i]);
    }
    assert(x.dims@ =~= y.dims@);
    assert forall|i: int| 0 <= i < nd + 1 implies (#[trigger] x.offsets@[i]) == y.offsets@[i] by {
        assert(x.offsets@[i] as u64 == b[4 + nd + i] && y.offsets@[i] as u64 == b[4 + nd + i]);
    }
    assert(x.offsets@ =~= y.offsets@);
    assert forall|j: int| 0 <= j < x.elements@.len() implies (#[trigger] x.elements@[j])
        == y.elements@[j] by {
        lemma_i64_roundtrip(x.elements@[j].weight);
        lemma_i64_roundtrip(y.elements@[j].weight);
        lemma_i64_roundtrip(x.elements@[j].max_next_weight);
        lemma_i64_roundtrip(y.elements@[j].max_next_weight);
    }
    assert(x.elements@ =~= y.elements@);
    assert(x.vector_count as u64 == y.vector_count as u64);
    assert forall|d: crate::element::DimOffset| #[trigger] x.list_at(d) == y.list_at(d) by {
        assert(x.has_dim(d) == y.has_dim(d));
        if x.has_dim(d) {
            assert(x.slot_of(d) == y.slot_of(d));
        }
    }
}

/// Append each value as one word.
fn push_u32_words(out: &mut Vec<u64>, vals: &Vec<u32>)
    ensures
        final(out)@.len() == old(out)@.len() + vals@.len(),
        forall|k: int| 0 <= k < old(out)@.len() ==> (#[trigger] final(out)@[k]) == old(out)@[k],
        forall|k: int| #![trigger vals@[k]] 0 <= k < vals@.len() ==> final(out)@[old(out)@.len()
            + k] == vals@[k] as u64,
{
    let ghost base = out@;
    let mut i: usize = 0;
    while i < vals.len()
        invariant
            i <= vals@.len(),
            out@.len() == base.len() + i,
            forall|k: int| 0 <= k < base.len() ==> (#[trigger] out@[k]) == base[k],
            forall|k: int| #![trigger vals@[k]] 0 <= k < i ==> out@[base.len() + k]
                == vals@[k] as u64,
        decreases vals@.len() - i,
    {
        out.push(vals[i] as u64);
        i = i + 1;
    }
}

/// Append each value as one word.
fn push_usize_words(out: &mut Vec<u64>, vals: &Vec<usize>)
    ensures
        final(out)@.len() == old(out)@.len() + vals@.len(),
        forall|k: int| 0 <= k < old(out)@.len() ==> (#[trigger] final(out)@[k]) == old(out)@[k],
        forall|k: int| #![trigger vals@[k]] 0 <= k < vals@.len() ==> final(out)@[old(out)@.len()
            + k] == vals@[k] as u64,
{
    let ghost base = out@;
    let mut i: usize = 0;
    while i < vals.len()
        invariant
            i <= vals@.len(),
            out@.len() == base.len() + i,
            forall|k: int| 0 <= k < base.len() ==> (#[trigger] out@[k]) == base[k],
            forall|k: int| #![trigger vals@[k]] 0 <= k < i ==> out@[base.len() + k]
                == vals@[k] as u64,
        decreases vals@.len() - i,
    {
        out.push(vals[i] as u64);
        i = i + 1;
    }
}

/// Append each element as three words: row id, weight, bound.
fn push_element_words(out: &mut Vec<u64>, vals: &Vec<PostingElementEx>)
    ensures
        final(out)@.len() == old(out)@.len() + 3 * vals@.len(),
        forall|k: int| 0 <= k < old(out)@.len() ==> (#[trigger] final(out)@[k]) == old(out)@[k],
        forall|k: int|
            #![trigger vals@[k]]
            0 <= k < vals@.len() ==> final(out)@[old(out)@.len() + 3 * k] == vals@[k].row_id as u64
                && final(out)@[old(out)@.len() + 3 * k + 1] == vals@[k].weight as u64
                && final(out)@[old(out)@.len() + 3 * k + 2] == vals@[k].max_next_weight as u64,
{
    let ghost base = out@;
    let mut i: usize = 0;
    while i < vals.len()
        invariant
            i <= vals@.len(),
            out@.len() == base.len() + 3 * i,
            forall|k: int| 0 <= k < base.len() ==> (#[trigger] out@[k]) == base[k],
            forall|k: int|
                #![trigger vals@[k]]
                0 <= k < i ==> out@[base.len() + 3 * k] == vals@[k].row_id as u64 && out@[base.len()
                    + 3 * k + 1] == vals@[k].weight as u64 && out@[base.len() + 3 * k + 2]
                    == vals@[k].max_next_weight as u64,
        decreases vals@.len() - i,
    {
        let e = vals[i];
        out.push(e.row_id as u64);
        out.push(#[verifier::truncate] (e.weight as u64));
        out.push(#[verifier::truncate] (e.max_next_weight as u64));
        i = i + 1;
    }
}

impl InvertedIndexImmutableRam {
    /// The word image of this index.
    #[verifier::rlimit(100)]
    pub fn encode(&self) -> (r: Vec<u64>)
        requires
            self.wf(),
        ensures
            encodes(r@, *self),
    {
        let nd = self.dims.len();
        let ne = self.elements.len();
        let mut out: Vec<u64> = Vec::new();
        out.push(FORMAT_STAMP);
        out.push(self.vector_count as u64);
        out.push(nd as u64);
        out.push(ne as u64);
        push_u32_words(&mut out, &self.dims);
        push_usize_words(&mut out, &self.offsets);
        push_element_words(&mut out, &self.elements);
        proof {
            let bb = out@;
            let gnd = self.dims@.len() as int;
            let gne = self.elements@.len() as int;
            assert(bb.len() == 5 + 2 * gnd + 3 * gne);
            assert(bb[0] == FORMAT_STAMP && bb[1] == self.vector_count as u64 && bb[2]
                == gnd as u64 && bb[3] == gne as u64);
            assert(forall|i: int| #![trigger self.dims@[i]] 0 <= i < gnd ==> bb[4 + i]
                == self.dims@[i] as u64);
            assert(forall|i: int| #![trigger self.offsets@[i]] 0 <= i < gnd + 1 ==> bb[4 + gnd + i]
                == self.offsets@[i] as u64);
            assert(forall|k: int|
                #![trigger self.elements@[k]]
                0 <= k < gne ==> bb[5 + 2 * gnd + 3 * k] == self.elements@[k].row_id as u64 && bb[5
                    + 2 * gnd + 3 * k + 1] == self.elements@[k].weight as u64 && bb[5 + 2 * gnd + 3
                    * k + 2] == self.elements@[k].max_next_weight as u64);
            assert(encodes(bb, *self));
        }
        out
    }

    /// Rebuild an index from its word image, validating the whole
    /// self-description; `CorruptData` exactly when no well-formed
    /// index has this image.
    #[verifier::rlimit(100)]
    pub fn decode(words: &Vec<u64>) -> (r: Result<InvertedIndexImmutableRam, StorageError>)
        ensures
            match r {
                Ok(x) => x.wf() && encodes(words@, x),
                Err(e) => e == StorageError::CorruptData && (forall|
                    x: InvertedIndexImmutableRam,
                |
                    !(x.wf() && #[trigger] encodes(words@, x))),
            },
    {
        let ghost b = words@;
        if words.len() < 5 {
            proof {
                assert forall|x: InvertedIndexImmutableRam| !(x.wf() && #[trigger] encodes(
                    b,
                    x,
                )) by {}
            }
            return Err(StorageError::CorruptData);
        }
        if words[0] != FORMAT_STAMP {
            proof {
                assert forall|x: InvertedIndexImmutableRam| !(x.wf() && #[trigger] encodes(
                    b,
                    x,
                )) by {}
            }
            return Err(StorageError::CorruptData);
        }
        let umax: u64 = usize::MAX as u64;
        if words[1] > umax || words[2] > umax || words[3] > umax {
            proof {
                assert forall|x: InvertedIndexImmutableRam| !(x.wf() && #[trigger] encodes(
                    b,
                    x,
                )) by {
                    if x.wf() && encodes(b, x) {
                        assert(b[1] == x.vector_count as u64);
                        assert(b[2] == x.dims@.len() as u64);
                        assert(b[3] == x.elements@.len() as u64);
                    }
                }
            }
            return Err(StorageError::CorruptData);
        }
        let vc = words[1] as usize;
        let nd = words[2] as usize;
        let ne = words[3] as usize;
        let expected: u128 = 5u128 + 2u128 * (nd as u128) + 3u128 * (ne as u128);
        if (words.len() as u128) != expected {
            proof {
                assert forall|x: InvertedIndexImmutableRam| !(x.wf() && #[trigger] encodes(
                    b,
                    x,
                )) by {
                    if x.wf() && encodes(b, x) {
                        assert(x.dims@.len() as u64 == b[2]);
                        assert(x.elements@.len() as u64 == b[3]);
                        assert(x.dims@.len() == nd && x.elements@.len() == ne);
                    }
                }
            }
            return Err(StorageError::CorruptData);
        }
        // dimension ids: each fits, strictly ascending
        let mut dims: Vec<u32> = Vec::new();
        let mut i: usize = 0;
        while i < nd
            invariant
                b == words@,
                words@.len() <= usize::MAX,
                b.len() == 5 + 2 * nd + 3 * ne,
                nd as u64 == b[2],
                ne as u64 == b[3],
                vc as u64 == b[1],
                b[0] == FORMAT_STAMP,
                i <= nd,
                dims@.len() == i,
                forall|k: int| #![trigger dims@[k]] 0 <= k < i ==> dims@[k] as u64 == b[4 + k],
                forall|k: int, l: int|
                    0 <= k < l < i ==> (#[trigger] dims@[k]) < (#[trigger] dims@[l]),
            decreases nd - i,
        {
            let v = words[4 + i];
            if v > u32::MAX as u64 {
                proof {
                    assert forall|x: InvertedIndexImmutableRam| !(x.wf() && #[trigger] encodes(
                        b,
                        x,
                    )) by {
                        if x.wf() && encodes(b, x) {
                            assert(x.dims@.len() == nd);
                            assert(b[4 + i] == x.dims@[i as int] as u64);
                        }
                    }
                }
                return Err(StorageError::CorruptData);
            }
            if i > 0 && dims[i - 1] as u64 >= v {
                proof {
                    assert forall|x: InvertedIndexImmutableRam| !(x.wf() && #[trigger] encodes(
                        b,
                        x,
                    )) by {
                        if x.wf() && encodes(b, x) {
                            assert(x.dims@.len() == nd);
                            assert(b[4 + (i - 1)] == x.dims@[i - 1] as u64);
                            assert(b[4 + i] == x.dims@[i as int] as u64);
                            assert(x.dims@[i - 1] < x.dims@[i as int]);
                        }
                    }
                }
                return Err(StorageError::CorruptData);
            }
            let dv = v as u32;
            dims.push(dv);
            proof {
                assert forall|k: int, l: int|
                    0 <= k < l < i + 1 implies (#[trigger] dims@[k]) < (#[trigger] dims@[l]) by {
                    if l == i as int && k < i - 1 {
                        assert(dims@[k] < dims@[i - 1]);
                    }
                }
            }
            i = i + 1;
        }
        // region offsets: from zero, strictly ascending, ending at the
        // element count
        let mut offsets: Vec<usize> = Vec::new();
        let mut i: usize = 0;
        while i < nd + 1
            invariant
                b == words@,
                words@.len() <= usize::MAX,
                b.len() == 5 + 2 * nd + 3 * ne,
                nd as u64 == b[2],
                ne as u64 == b[3],
                vc as u64 == b[1],
                b[0] == FORMAT_STAMP,
                nd < usize::MAX,
                i <= nd + 1,
                offsets@.len() == i,
                i > 0 ==> offsets@[0] == 0,
                forall|k: int| #![trigger offsets@[k]] 0 <= k < i ==> offsets@[k] as u64 == b[4 + nd
                    + k],
                forall|k: int, l: int|
                    0 <= k < l < i ==> (#[trigger] offsets@[k]) < (#[trigger] offsets@[l]),
                forall|k: int| 0 <= k < i ==> (#[trigger] offsets@[k]) <= ne,
            decreases nd + 1 - i,
        {
            let v = words[4 + nd + i];
            if v > ne as u64 {
                proof {
                    assert forall|x: InvertedIndexImmutableRam| !(x.wf() && #[trigger] encodes(
                        b,
                        x,
                    )) by {
                        if x.wf() && encodes(b, x) {
                            assert(x.dims@.len() == nd && x.elements@.len() == ne);
                            assert(b[4 + nd + i] == x.offsets@[i as int] as u64);
                            if (i as int) < nd + 1 - 1 {
                                assert(x.offsets@[i as int] < x.offsets@[nd as int]);
                            }
                        }
                    }
                }
                return Err(StorageError::CorruptData);
            }
            let ov = v as usize;
            if i == 0 && ov != 0 {
                proof {
                    assert forall|x: InvertedIndexImmutableRam| !(x.wf() && #[trigger] encodes(
                        b,
                        x,
                    )) by {
                        if x.wf() && encodes(b, x) {
                            assert(x.dims@.len() == nd);
                            assert(b[4 + nd] == x.offsets@[0] as u64);
                        }
                    }
                }
                return Err(StorageError::CorruptData);
            }
            if i > 0 && offsets[i - 1] >= ov {
                proof {
                    assert forall|x: InvertedIndexImmutableRam| !(x.wf() && #[trigger] encodes(
                        b,
                        x,
                    )) by {
                        if x.wf() && encodes(b, x) {
                            assert(x.dims@.len() == nd);
                            assert(b[4 + nd + (i - 1)] == x.offsets@[i - 1] as u64);
                            assert(b[4 + nd + i] == x.offsets@[i as int] as u64);
                            assert(x.offsets@[i - 1] < x.offsets@[i as int]);
                        }
                    }
                }
                return Err(StorageError::CorruptData);
            }
            offsets.push(ov);
            proof {
                assert forall|k: int, l: int|
                    0 <= k < l < i + 1 implies (#[trigger] offsets@[k]) < (
                    #[trigger] offsets@[l]) by {
                    if l == i as int && k < i - 1 {
                        assert(offsets@[k] < offsets@[i - 1]);
                    }
                }
            }
            i = i + 1;
        }
        if offsets[nd] != ne {
            proof {
                assert forall|x: InvertedIndexImmutableRam| !(x.wf() && #[trigger] encodes(
                    b,
                    x,
                )) by {
                    if x.wf() && encodes(b, x) {
                        assert(x.dims@.len() == nd && x.elements@.len() == ne);
                        assert(b[4 + nd + nd] == x.offsets@[nd as int] as u64);
                        assert(offsets@[nd as int] as u64 == b[4 + nd + nd]);
                    }
                }
            }
            return Err(StorageError::CorruptData);
        }
        // elements
        let mut elements: Vec<PostingElementEx> = Vec::new();
        let mut j: usize = 0;
        while j < ne
            invariant
                b == words@,
                words@.len() <= usize::MAX,
                b.len() == 5 + 2 * nd + 3 * ne,
                nd as u64 == b[2],
                ne as u64 == b[3],
                vc as u64 == b[1],
                b[0] == FORMAT_STAMP,
                j <= ne,
                elements@.len() == j,
                forall|k: int|
                    #![trigger elements@[k]]
                    0 <= k < j ==> elements@[k].row_id as u64 == b[5 + 2 * nd + 3 * k]
                        && elements@[k].weight as u64 == b[5 + 2 * nd + 3 * k + 1]
                        && elements@[k].max_next_weight as u64 == b[5 + 2 * nd + 3 * k + 2],
            decreases ne - j,
        {
            let base = 5 + 2 * nd + 3 * j;
            let rv = words[base];
            if rv > u32::MAX as u64 {
                proof {
                    assert forall|x: InvertedIndexImmutableRam| !(x.wf() && #[trigger] encodes(
                        b,
                        x,
                    )) by {
                        if x.wf() && encodes(b, x) {
                            assert(x.dims@.len() == nd && x.elements@.len() == ne);
                            assert(b[5 + 2 * nd + 3 * j] == x.elements@[j as int].row_id as u64);
                        }
                    }
                }
                return Err(StorageError::CorruptData);
            }
            let w = words[base + 1];
            let m = words[base + 2];
            let e = PostingElementEx {
                row_id: rv as u32,
                weight: #[verifier::truncate] (w as i64),
                max_next_weight: #[verifier::truncate] (m as i64),
            };
            proof {
                lemma_u64_roundtrip(w);
                lemma_u64_roundtrip(m);
            }
            elements.push(e);
            j = j + 1;
        }
        // per-region validation: sorted rows and exact pruning bounds
        let mut bad = false;
        let mut badi: usize = 0;
        let mut i: usize = 0;
        while i < nd
            invariant
                i <= nd,
                dims@.len() == nd,
                offsets@.len() == nd + 1,
                elements@.len() == ne,
                forall|k: int, l: int|
                    0 <= k < l < nd + 1 ==> (#[trigger] offsets@[k]) < (#[trigger] offsets@[l]),
                forall|k: int| 0 <= k < nd + 1 ==> (#[trigger] offsets@[k]) <= ne,
                !bad ==> forall|k: int| #![trigger offsets@[k]] 0 <= k < i ==> wf_seg(
                    elements@,
                    offsets@[k] as int,
                    offsets@[k + 1] as int,
                ),
                bad ==> badi < nd && !wf_seg(
                    elements@,
                    offsets@[badi as int] as int,
                    offsets@[badi as int + 1] as int,
                ),
            decreases nd - i,
        {
            if !bad {
                if !check_segment(&elements, offsets[i], offsets[i + 1]) {
                    bad = true;
                    badi = i;
                }
            }
            i = i + 1;
        }
        if bad {
            proof {
                assert forall|x: InvertedIndexImmutableRam| !(x.wf() && #[trigger] encodes(
                    b,
                    x,
                )) by {
                    if x.wf() && encodes(b, x) {
                        lemma_image_determined(b, x, dims@, offsets@, elements@, vc);
                        assert(wf_seg(
                            elements@,
                            offsets@[badi as int] as int,
                            offsets@[badi as int + 1] as int,
                        ));
                    }
                }
            }
            return Err(StorageError::CorruptData);
        }
        let r = InvertedIndexImmutableRam { dims, offsets, elements, vector_count: vc };
        proof {
            assert(r.wf());
            assert(encodes(b, r));
        }
        Ok(r)
    }
}

/// A word image pins every component: any well-formed index with image
/// `b` has exactly the components read off `b`.
proof fn lemma_image_determined(
    b: Seq<u64>,
    x: InvertedIndexImmutableRam,
    dims: Seq<u32>,
    offsets: Seq<usize>,
    elements: Seq<PostingElementEx>,
    vc: usize,
)
    requires
        x.wf(),
        encodes(b, x),
        dims.len() <= usize::MAX,
        elements.len() <= usize::MAX,
        dims.len() as u64 == b[2],
        elements.len() as u64 == b[3],
        vc as u64 == b[1],
        offsets.len() == dims.len() + 1,
        forall|k: int| #![trigger dims[k]] 0 <= k < dims.len() ==> dims[k] as u64 == b[4 + k],
        forall|k: int| #![trigger offsets[k]] 0 <= k < offsets.len() ==> offsets[k] as u64 == b[4
            + dims.len() + k],
        forall|k: int|
            #![trigger elements[k]]
            0 <= k < elements.len() ==> elements[k].row_id as u64 == b[5 + 2 * dims.len() + 3 * k]
                && elements[k].weight as u64 == b[5 + 2 * dims.len() + 3 * k + 1]
                && elements[k].max_next_weight as u64 == b[5 + 2 * dims.len() + 3 * k + 2],
    ensures
        x.dims@ == dims,
        x.offsets@ == offsets,
        x.elements@ == elements,
        x.vector_count == vc,
{
    assert(x.dims@.len() == dims.len());
    let nd = dims.len() as int;
    assert forall|k: int| 0 <= k < nd implies (#[trigger] x.dims@[k]) == dims[k] by {
        assert(x.dims@[k] as u64 == b[4 + k] && dims[k] as u64 == b[4 + k]);
    }
    assert(x.dims@ =~= dims);
    assert forall|k: int| 0 <= k < nd + 1 implies (#[trigger] x.offsets@[k]) == offsets[k] by {
        assert(x.offsets@[k] as u64 == b[4 + nd + k] && offsets[k] as u64 == b[4 + nd + k]);
    }
    assert(x.offsets@ =~= offsets);
    assert(x.elements@.len() == elements.len());
    assert forall|k: int| 0 <= k < elements.len() implies (#[trigger] x.elements@[k])
        == elements[k] by {
        lemma_i64_roundtrip(x.elements@[k].weight);
        lemma_i64_roundtrip(elements[k].weight);
        lemma_i64_roundtrip(x.elements@[k].max_next_weight);
        lemma_i64_roundtrip(elements[k].max_next_weight);
    }
    assert(x.elements@ =~= elements);
    assert(x.vector_count as u64 == vc as u64);
}

/// Whether `els[lo..hi]` is a well-formed posting-list region: rows
/// strictly ascending and every pruning bound exact.
fn check_segment(els: &Vec<PostingElementEx>, lo: usize, hi: usize) -> (r: bool)
    requires
        lo <= hi <= els@.len(),
    ensures
        r == wf_seg(els@, lo as int, hi as int),
{
    let mut i = lo;
    while hi - i > 1
        invariant
            lo <= i <= hi <= els@.len(),
            forall|k: int, l: int|
                lo <= k < l < i + 1 ==> (#[trigger] els@[k]).row_id < (#[trigger] els@[l]).row_id,
        decreases hi - i,
    {
        if els[i].row_id >= els[i + 1].row_id {
            assert(!sorted_range(els@, lo as int, hi as int)) by {
                assert(els@[i as int].row_id >= els@[i + 1].row_id);
            }
            return false;
        }
        assert forall|k: int, l: int|
            lo <= k < l < i + 2 implies (#[trigger] els@[k]).row_id < (
        #[trigger] els@[l]).row_id by {
            if l == i + 1 && k < i {
                assert(els@[k].row_id < els@[i as int].row_id);
            }
        }
        i = i + 1;
    }
    assert(sorted_range(els@, lo as int, hi as int));
    let mut run: i64 = DEFAULT_MAX_NEXT_WEIGHT;
    let mut k = hi;
    while k > lo
        invariant
            lo <= k <= hi <= els@.len(),
            run as int == suffix_max_range(els@, k as int, hi as int),
            forall|t: int|
                #![trigger els@[t]]
                k <= t < hi ==> els@[t].max_next_weight as int == suffix_max_range(
                    els@,
                    t + 1,
                    hi as int,
                ),
            sorted_range(els@, lo as int, hi as int),
        decreases k,
    {
        let e = els[k - 1];
        if e.max_next_weight != run {
            assert(!bounds_ok_range(els@, lo as int, hi as int)) by {
                assert(els@[k - 1].max_next_weight as int != suffix_max_range(
                    els@,
                    k as int,
                    hi as int,
                ));
            }
            return false;
        }
        run = if e.weight >= run {
            e.weight
        } else {
            run
        };
        k = k - 1;
    }
    assert(bounds_ok_range(els@, lo as int, hi as int));
    true
}

/// Open a frozen index from its stored parts: gate on the recorded
/// version first, then validate and decode the payload words.
pub fn open_checked(stored: Option<Version>, words: &Vec<u64>) -> (r: Result<
    InvertedIndexImmutableRam,
    StorageError,
>)
    ensures
        stored is None ==> r == Err::<InvertedIndexImmutableRam, StorageError>(
            StorageError::MissingVersion,
        ),
        forall|v: Version|
            stored == Some(v) && !compatible(v, IndexStorageVersion::spec_current()) ==> r == Err::<
                InvertedIndexImmutableRam,
                StorageError,
            >(StorageError::IncompatibleVersion),
        (match r {
            Ok(x) => (stored matches Some(v) && compatible(v, IndexStorageVersion::spec_current()))
                && x.wf() && encodes(words@, x),
            Err(e) => true,
        }),
        (stored matches Some(v) && compatible(v, IndexStorageVersion::spec_current())) ==> (match r {
            Ok(x) => x.wf() && encodes(words@, x),
            Err(e) => e == StorageError::CorruptData && (forall|x: InvertedIndexImmutableRam|
                !(x.wf() && #[trigger] encodes(words@, x))),
        }),
{
    let current = IndexStorageVersion::current();
    match crate::storage_version::check_compatibility(stored, current) {
        Ok(()) => InvertedIndexImmutableRam::decode(words),
        Err(e) => Err(e),
    }
}

} // verus!
