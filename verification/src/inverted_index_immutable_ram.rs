//! The frozen, heap-resident inverted index backend: a denser layout
//! than the mutable index, with every non-empty posting list packed
//! into one flat element array addressed by per-dimension offsets.
//!
//! The only write path is `from_ram_index`; mutation calls are accepted
//! and rejected as documented no-ops.
use vstd::prelude::*;

use crate::element::{DimOffset, ElementOffsetType, PostingElementEx};
use crate::inverted_index_ram::InvertedIndexRam;
use crate::posting_list::{
    bounds_ok_range, lemma_suffix_max_range_congr, lemma_suffix_max_range_full, sorted_range,
    suffix_max_range, wf_list, wf_seg, PostingListIterator,
};
use crate::sparse_vector::RemappedSparseVector;

verus! {

/// Immutable inverted index: sorted dimension ids, the half-open
/// element region of dimension `dims[i]` being
/// `elements[offsets[i]..offsets[i + 1]]`.
#[derive(Debug, Clone, PartialEq)]
pub struct InvertedIndexImmutableRam {
    /// Dimension ids with at least one posting, strictly ascending.
    pub dims: Vec<DimOffset>,
    /// Region bounds into `elements`; one more entry than `dims`.
    pub offsets: Vec<usize>,
    /// All posting elements, packed per dimension, each region sorted
    /// by row id.
    pub elements: Vec<PostingElementEx>,
    /// Rows upserted fresh minus rows removed, frozen from the source.
    pub vector_count: usize,
}

impl InvertedIndexImmutableRam {
    /// Layout invariant: offsets strictly ascend from zero to the
    /// element count (so every stored dimension is non-empty), dims
    /// strictly ascend, and every region is a well-formed posting list.
    pub open spec fn wf(self) -> bool {
        &&& self.offsets@.len() == self.dims@.len() + 1
        &&& self.offsets@[0] == 0
        &&& forall|i: int, j: int|
            0 <= i < j < self.offsets@.len() ==> (#[trigger] self.offsets@[i]) < (
            #[trigger] self.offsets@[j])
        &&& self.offsets@[self.dims@.len() as int] == self.elements@.len()
        &&& forall|i: int, j: int|
            0 <= i < j < self.dims@.len() ==> (#[trigger] self.dims@[i]) < (#[trigger] self.dims@[j])
        &&& forall|i: int|
            #![trigger self.offsets@[i]]
            0 <= i < self.dims@.len() ==> wf_seg(
                self.elements@,
                self.offsets@[i] as int,
                self.offsets@[i + 1] as int,
            )
    }

    /// The index stores dimension `d`.
    pub open spec fn has_dim(self, d: DimOffset) -> bool {
        exists|i: int| 0 <= i < self.dims@.len() && (#[trigger] self.dims@[i]) == d
    }

    /// Slot of dimension `d` (unique when stored, by sortedness).
    pub open spec fn slot_of(self, d: DimOffset) -> int {
        choose|i: int| 0 <= i < self.dims@.len() && (#[trigger] self.dims@[i]) == d
    }

    /// The posting list of dimension `d`; empty for absent dimensions.
    pub open spec fn list_at(self, d: DimOffset) -> Seq<PostingElementEx> {
        if self.has_dim(d) {
            self.elements@.subrange(
                self.offsets@[self.slot_of(d)] as int,
                self.offsets@[self.slot_of(d) + 1] as int,
            )
        } else {
            Seq::<PostingElementEx>::empty()
        }
    }

    /// A stored slot is the slot its dimension resolves to.
    pub proof fn lemma_slot(self, i: int)
        requires
            self.wf(),
            0 <= i < self.dims@.len(),
        ensures
            self.has_dim(self.dims@[i]),
            self.slot_of(self.dims@[i]) == i,
            self.list_at(self.dims@[i]) == self.elements@.subrange(
                self.offsets@[i] as int,
                self.offsets@[i + 1] as int,
            ),
    {
        let d = self.dims@[i];
        assert(self.has_dim(d));
        let j = self.slot_of(d);
        if i < j {
            assert(self.dims@[i] < self.dims@[j]);
        } else if j < i {
            assert(self.dims@[j] < self.dims@[i]);
        }
    }

    /// Freeze a RAM index: pack every non-empty posting list, in
    /// ascending dimension order, preserving each list's content and
    /// the vector count.
    pub fn from_ram_index(ram_index: &InvertedIndexRam) -> (r: Self)
        requires
            ram_index.wf(),
        ensures
            r.wf(),
            forall|d: DimOffset| #[trigger] r.list_at(d) == ram_index.list_at(d),
            r.vector_count == ram_index.vector_count,
    {
        let mut dims: Vec<DimOffset> = Vec::new();
        let mut offsets: Vec<usize> = Vec::new();
        let mut elements: Vec<PostingElementEx> = Vec::new();
        offsets.push(0);
        let mut d: usize = 0;
        while d < ram_index.postings.len()
            invariant
                ram_index.wf(),
                d <= ram_index.postings@.len(),
                offsets@.len() == dims@.len() + 1,
                offsets@[0] == 0,
                forall|i: int, j: int|
                    0 <= i < j < offsets@.len() ==> (#[trigger] offsets@[i]) < (
                    #[trigger] offsets@[j]),
                offsets@[dims@.len() as int] == elements@.len(),
                forall|i: int, j: int|
                    0 <= i < j < dims@.len() ==> (#[trigger] dims@[i]) < (#[trigger] dims@[j]),
                forall|i: int| 0 <= i < dims@.len() ==> (#[trigger] dims@[i]) < d,
                forall|i: int|
                    #![trigger offsets@[i]]
                    0 <= i < dims@.len() ==> wf_seg(
                        elements@,
                        offsets@[i] as int,
                        offsets@[i + 1] as int,
                    ),
                forall|i: int|
                    #![trigger offsets@[i]]
                    0 <= i < dims@.len() ==> elements@.subrange(
                        offsets@[i] as int,
                        offsets@[i + 1] as int,
                    ) == ram_index.list_at(dims@[i]),
                forall|d2: DimOffset|
                    (d2 as int) < d ==> ((exists|i: int|
                        0 <= i < dims@.len() && (#[trigger] dims@[i]) == d2)
                        <==> #[trigger] ram_index.list_at(d2).len() > 0),
            decreases ram_index.postings@.len() - d,
        {
            let pl = &ram_index.postings[d];
            let n = pl.len();
            if n > 0 {
                let ghost prev_dims = dims@;
                let ghost prev_offsets = offsets@;
                let ghost base = elements@;
                dims.push(d as u32);
                let mut j: usize = 0;
                while j < pl.elements.len()
                    invariant
                        j <= pl.elements@.len(),
                        elements@ == base.add(pl.elements@.subrange(0, j as int)),
                        elements@.len() == base.len() + j,
                    decreases pl.elements@.len() - j,
                {
                    let e = pl.elements[j];
                    elements.push(e);
                    proof {
                        assert(elements@ =~= base.add(pl.elements@.subrange(0, j + 1)));
                    }
                    j = j + 1;
                }
                offsets.push(elements.len());
                proof {
                    lemma_after_pack(
                        prev_dims,
                        prev_offsets,
                        base,
                        dims@,
                        offsets@,
                        elements@,
                        pl.elements@,
                        d as int,
                        ram_index,
                    );
                }
            } else {
                proof {
                    assert forall|d2: DimOffset| (d2 as int) < d + 1 implies ((exists|i: int|
                        0 <= i < dims@.len() && (#[trigger] dims@[i]) == d2)
                        <==> #[trigger] ram_index.list_at(d2).len() > 0) by {
                        if (d2 as int) == d as int {
                            assert(ram_index.list_at(d2).len() == 0);
                            assert forall|i: int| 0 <= i < dims@.len() implies (#[trigger] dims@[i])
                                != d2 by {}
                        }
                    }
                }
            }
            d = d + 1;
        }
        let r = InvertedIndexImmutableRam {
            dims,
            offsets,
            elements,
            vector_count: ram_index.vector_count,
        };
        proof {
            assert forall|d2: DimOffset| #[trigger] r.list_at(d2) == ram_index.list_at(d2) by {
                if r.has_dim(d2) {
                    let i = r.slot_of(d2);
                    r.lemma_slot(i);
                    assert(r.dims@[i] < ram_index.postings@.len());
                } else {
                    if (d2 as int) < ram_index.postings@.len() {
                        if ram_index.list_at(d2).len() > 0 {
                            let i = choose|i: int|
                                0 <= i < r.dims@.len() && (#[trigger] r.dims@[i]) == d2;
                            assert(false);
                        }
                    }
                    assert(ram_index.list_at(d2) =~= Seq::<PostingElementEx>::empty());
                }
            }
        }
        r
    }

    /// First slot whose dimension id is at least `d`.
    fn dims_lower_bound(&self, d: DimOffset) -> (r: usize)
        requires
            forall|i: int, j: int|
                0 <= i < j < self.dims@.len() ==> (#[trigger] self.dims@[i]) < (
                #[trigger] self.dims@[j]),
        ensures
            r <= self.dims@.len(),
            forall|i: int| 0 <= i < r ==> (#[trigger] self.dims@[i]) < d,
            forall|i: int| r <= i < self.dims@.len() ==> (#[trigger] self.dims@[i]) >= d,
    {
        let mut l: usize = 0;
        let mut h: usize = self.dims.len();
        while l < h
            invariant
                l <= h <= self.dims@.len(),
                forall|i: int, j: int|
                    0 <= i < j < self.dims@.len() ==> (#[trigger] self.dims@[i]) < (
                    #[trigger] self.dims@[j]),
                forall|i: int| 0 <= i < l ==> (#[trigger] self.dims@[i]) < d,
                forall|i: int| h <= i < self.dims@.len() ==> (#[trigger] self.dims@[i]) >= d,
            decreases h - l,
        {
            let m = l + (h - l) / 2;
            if self.dims[m] < d {
                assert forall|i: int| 0 <= i < m + 1 implies (#[trigger] self.dims@[i]) < d by {
                    if i < m {
                        assert(self.dims@[i] < self.dims@[m as int]);
                    }
                }
                l = m + 1;
            } else {
                assert forall|i: int| m <= i < self.dims@.len() implies (#[trigger] self.dims@[i])
                    >= d by {
                    if i > m {
                        assert(self.dims@[m as int] < self.dims@[i]);
                    }
                }
                h = m;
            }
        }
        l
    }

    /// Iterator over dimension `id`'s posting list, or `None` if that
    /// dimension has no entries.
    pub fn get(&self, id: &DimOffset) -> (r: Option<PostingListIterator<'_>>)
        requires
            self.wf(),
        ensures
            match r {
                Some(it) => it.wf() && self.list_at(*id).len() > 0 && it.remaining() =~= self.list_at(
                    *id,
                ),
                None => self.list_at(*id).len() == 0,
            },
    {
        let p = self.dims_lower_bound(*id);
        if p < self.dims.len() && self.dims[p] == *id {
            proof {
                self.lemma_slot(p as int);
            }
            let lo = self.offsets[p];
            let hi = self.offsets[p + 1];
            let it = PostingListIterator::new(&self.elements, lo, hi);
            proof {
                assert(it.remaining() =~= self.list_at(*id));
            }
            Some(it)
        } else {
            proof {
                assert forall|i: int| 0 <= i < self.dims@.len() implies (#[trigger] self.dims@[i])
                    != *id by {
                    if i < p {
                    } else {
                        if self.dims@[i] == *id {
                            if i > p {
                                assert(self.dims@[p as int] < self.dims@[i]);
                            }
                        }
                    }
                }
            }
            None
        }
    }

    /// Number of dimensions with at least one posting.
    pub fn len(&self) -> (r: usize)
        ensures
            r == self.dims@.len(),
    {
        self.dims.len()
    }

    /// Whether no dimension has a posting.
    pub fn is_empty(&self) -> (r: bool)
        ensures
            r == (self.dims@.len() == 0),
    {
        self.dims.len() == 0
    }

    /// Element count of dimension `id`'s posting list; `None` if that
    /// dimension has no entries.
    pub fn posting_list_len(&self, id: &DimOffset) -> (r: Option<usize>)
        requires
            self.wf(),
        ensures
            match r {
                Some(n) => n == self.list_at(*id).len() && n > 0,
                None => self.list_at(*id).len() == 0,
            },
    {
        let p = self.dims_lower_bound(*id);
        if p < self.dims.len() && self.dims[p] == *id {
            proof {
                self.lemma_slot(p as int);
            }
            Some(self.offsets[p + 1] - self.offsets[p])
        } else {
            proof {
                assert forall|i: int| 0 <= i < self.dims@.len() implies (#[trigger] self.dims@[i])
                    != *id by {
                    if i > p {
                        assert(self.dims@[p as int] < self.dims@[i]);
                    }
                }
            }
            None
        }
    }

    /// Largest dimension id with a non-empty posting list.
    pub fn max_index(&self) -> (r: Option<DimOffset>)
        requires
            self.wf(),
        ensures
            match r {
                Some(d) => self.list_at(d).len() > 0 && forall|d2: DimOffset|
                    d2 > d ==> #[trigger] self.list_at(d2).len() == 0,
                None => forall|d2: DimOffset| #[trigger] self.list_at(d2).len() == 0,
            },
    {
        let nd = self.dims.len();
        if nd == 0 {
            proof {
                assert forall|d2: DimOffset| #[trigger] self.list_at(d2).len() == 0 by {
                    assert(!self.has_dim(d2));
                }
            }
            None
        } else {
            let d = self.dims[nd - 1];
            proof {
                self.lemma_slot(nd - 1);
                assert forall|d2: DimOffset| d2 > d implies #[trigger] self.list_at(d2).len()
                    == 0 by {
                    assert forall|i: int| 0 <= i < self.dims@.len() implies (
                    #[trigger] self.dims@[i]) != d2 by {
                        if i < nd - 1 {
                            assert(self.dims@[i] < self.dims@[nd - 1]);
                        }
                    }
                    assert(!self.has_dim(d2));
                }
            }
            Some(d)
        }
    }

    /// Total indexed vectors, frozen from the source index.
    pub fn vector_count(&self) -> (r: usize)
        ensures
            r == self.vector_count,
    {
        self.vector_count
    }

    /// Frozen backend: removal is rejected as a documented no-op; the
    /// write path is a rebuild through `from_ram_index`.
    pub fn remove(&mut self, _id: ElementOffsetType, _old_vector: RemappedSparseVector)
        ensures
            *final(self) == *old(self),
    {
    }

    /// Frozen backend: upsert is rejected as a documented no-op; the
    /// write path is a rebuild through `from_ram_index`.
    pub fn upsert(
        &mut self,
        _id: ElementOffsetType,
        _vector: RemappedSparseVector,
        _old_vector: Option<RemappedSparseVector>,
    )
        ensures
            *final(self) == *old(self),
    {
    }
}

/// Packing one more non-empty list keeps every loop invariant of
/// `from_ram_index`: old regions are untouched, the new region is the
/// packed list.
proof fn lemma_after_pack(
    prev_dims: Seq<DimOffset>,
    prev_offsets: Seq<usize>,
    base: Seq<PostingElementEx>,
    dims: Seq<DimOffset>,
    offsets: Seq<usize>,
    elements: Seq<PostingElementEx>,
    pl: Seq<PostingElementEx>,
    d: int,
    ram_index: &InvertedIndexRam,
)
    requires
        ram_index.wf(),
        0 <= d < ram_index.postings@.len(),
        pl == ram_index.postings@[d]@,
        pl.len() > 0,
        dims == prev_dims.push(d as DimOffset),
        offsets == prev_offsets.push((base.len() + pl.len()) as usize),
        elements == base.add(pl.subrange(0, pl.len() as int)),
        prev_offsets.len() == prev_dims.len() + 1,
        prev_offsets[0] == 0,
        forall|i: int, j: int|
            0 <= i < j < prev_offsets.len() ==> (#[trigger] prev_offsets[i]) < (
            #[trigger] prev_offsets[j]),
        prev_offsets[prev_dims.len() as int] == base.len(),
        forall|i: int, j: int|
            0 <= i < j < prev_dims.len() ==> (#[trigger] prev_dims[i]) < (#[trigger] prev_dims[j]),
        forall|i: int| 0 <= i < prev_dims.len() ==> (#[trigger] prev_dims[i]) < d,
        forall|i: int|
            #![trigger prev_offsets[i]]
            0 <= i < prev_dims.len() ==> wf_seg(base, prev_offsets[i] as int, prev_offsets[i
                + 1] as int),
        forall|i: int|
            #![trigger prev_offsets[i]]
            0 <= i < prev_dims.len() ==> base.subrange(
                prev_offsets[i] as int,
                prev_offsets[i + 1] as int,
            ) == ram_index.list_at(prev_dims[i]),
        forall|d2: DimOffset|
            (d2 as int) < d ==> ((exists|i: int|
                0 <= i < prev_dims.len() && (#[trigger] prev_dims[i]) == d2)
                <==> #[trigger] ram_index.list_at(d2).len() > 0),
        base.len() + pl.len() <= usize::MAX,
    ensures
        offsets.len() == dims.len() + 1,
        offsets[0] == 0,
        forall|i: int, j: int|
            0 <= i < j < offsets.len() ==> (#[trigger] offsets[i]) < (#[trigger] offsets[j]),
        offsets[dims.len() as int] == elements.len(),
        forall|i: int, j: int|
            0 <= i < j < dims.len() ==> (#[trigger] dims[i]) < (#[trigger] dims[j]),
        forall|i: int| 0 <= i < dims.len() ==> (#[trigger] dims[i]) < d + 1,
        forall|i: int|
            #![trigger offsets[i]]
            0 <= i < dims.len() ==> wf_seg(elements, offsets[i] as int, offsets[i + 1] as int),
        forall|i: int|
            #![trigger offsets[i]]
            0 <= i < dims.len() ==> elements.subrange(offsets[i] as int, offsets[i + 1] as int)
                == ram_index.list_at(dims[i]),
        forall|d2: DimOffset|
            (d2 as int) < d + 1 ==> ((exists|i: int|
                0 <= i < dims.len() && (#[trigger] dims[i]) == d2)
                <==> #[trigger] ram_index.list_at(d2).len() > 0),
{
    let full = pl.subrange(0, pl.len() as int);
    assert(full =~= pl);
    assert(elements.len() == base.len() + pl.len());
    assert forall|k: int| 0 <= k < base.len() implies (#[trigger] elements[k]) == base[k] by {}
    assert forall|k: int| 0 <= k < pl.len() implies (#[trigger] elements[base.len() + k])
        == pl[k] by {}
    let nd = prev_dims.len() as int;
    // old regions keep their content and well-formedness
    assert forall|i: int|
        #![trigger offsets[i]]
        0 <= i < nd implies wf_seg(elements, offsets[i] as int, offsets[i + 1] as int)
            && elements.subrange(offsets[i] as int, offsets[i + 1] as int) == ram_index.list_at(
            dims[i],
        ) by {
        let lo = prev_offsets[i] as int;
        let hi = prev_offsets[i + 1] as int;
        assert(hi <= base.len()) by {
            if i + 1 < nd {
                assert(prev_offsets[i + 1] < prev_offsets[nd]);
            }
        }
        assert(offsets[i] == prev_offsets[i] && offsets[i + 1] == prev_offsets[i + 1]);
        assert(dims[i] == prev_dims[i]);
        assert(elements.subrange(lo, hi) =~= base.subrange(lo, hi));
        assert(sorted_range(elements, lo, hi)) by {
            assert forall|x: int, y: int| lo <= x < y < hi implies elements[x].row_id
                < elements[y].row_id by {
                assert(elements[x] == base[x] && elements[y] == base[y]);
            }
        }
        assert(bounds_ok_range(elements, lo, hi)) by {
            assert forall|x: int|
                #![trigger elements[x]]
                lo <= x < hi implies elements[x].max_next_weight as int == suffix_max_range(
                elements,
                x + 1,
                hi,
            ) by {
                assert(elements[x] == base[x]);
                assert(forall|k: int| #![trigger base[x + 1 + k]] 0 <= k < hi - (x + 1)
                    ==> base[x + 1 + k].weight == elements[x + 1 + k].weight);
                lemma_suffix_max_range_congr(base, x + 1, hi, elements, x + 1, hi);
            }
        }
    }
    // the new region is the packed list
    let lo = prev_offsets[nd] as int;
    let hi = elements.len() as int;
    assert(lo == base.len());
    assert(dims[nd] == d as DimOffset);
    assert(offsets[nd] == prev_offsets[nd] && offsets[nd + 1] == elements.len());
    assert(elements.subrange(lo, hi) =~= pl);
    assert(elements.subrange(lo, hi) == ram_index.list_at(dims[nd] as DimOffset)) by {
        assert(ram_index.list_at(d as DimOffset) == pl);
    }
    assert(wf_seg(elements, lo, hi)) by {
        assert(wf_list(pl));
        assert(sorted_range(elements, lo, hi)) by {
            assert forall|x: int, y: int| lo <= x < y < hi implies elements[x].row_id
                < elements[y].row_id by {
                assert(elements[x] == pl[x - lo] && elements[y] == pl[y - lo]);
            }
        }
        assert(bounds_ok_range(elements, lo, hi)) by {
            assert forall|x: int|
                #![trigger elements[x]]
                lo <= x < hi implies elements[x].max_next_weight as int == suffix_max_range(
                elements,
                x + 1,
                hi,
            ) by {
                assert(elements[x] == pl[x - lo]);
                lemma_suffix_max_range_full(pl, x - lo + 1);
                assert(forall|k: int| #![trigger pl[(x - lo + 1) + k]] 0 <= k < pl.len() - (x - lo
                    + 1) ==> pl[(x - lo + 1) + k].weight == elements[x + 1 + k].weight);
                lemma_suffix_max_range_congr(pl, x - lo + 1, pl.len() as int, elements, x + 1, hi);
            }
        }
    }
    // the dimension account extends by the packed dimension
    assert forall|d2: DimOffset| (d2 as int) < d + 1 implies ((exists|i: int|
        0 <= i < dims.len() && (#[trigger] dims[i]) == d2) <==> #[trigger] ram_index.list_at(
        d2,
    ).len() > 0) by {
        if (d2 as int) == d {
            assert(dims[nd] == d2);
            assert(ram_index.list_at(d2).len() > 0);
        } else {
            if exists|i: int| 0 <= i < dims.len() && (#[trigger] dims[i]) == d2 {
                let i = choose|i: int| 0 <= i < dims.len() && (#[trigger] dims[i]) == d2;
                assert(i != nd);
                assert(prev_dims[i] == d2);
            }
            if ram_index.list_at(d2).len() > 0 {
                let i = choose|i: int| 0 <= i < prev_dims.len() && (#[trigger] prev_dims[i]) == d2;
                assert(dims[i] == d2);
            }
        }
    }
}

} // verus!
