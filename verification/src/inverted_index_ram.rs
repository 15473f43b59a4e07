//! The mutable, heap-resident inverted index backend and its builder.
//!
//! Dimension `d`'s posting list sits at slot `d` of a dense array of
//! lists; slots never touched hold empty lists. Mutation happens in
//! place; freezing into other backends goes through `from_ram_index`
//! on those backends.
use vstd::prelude::*;

use crate::element::{DimOffset, ElementOffsetType, PostingElementEx};
use crate::posting_list::{
    has_row, list_removed, list_upserted, wf_list, PostingList, PostingListIterator,
    lemma_removed_then_upserted,
};
use crate::sparse_vector::{dim_in_prefix, lemma_weight_at, RemappedSparseVector};

verus! {

/// Number of posting lists in `s` that hold at least one element.
pub open spec fn count_nonempty(s: Seq<PostingList>) -> int
    decreases s.len(),
{
    if s.len() == 0 {
        0
    } else {
        count_nonempty(s.drop_last()) + (if s.last()@.len() > 0 {
            1int
        } else {
            0int
        })
    }
}

/// Mutable RAM-resident inverted index.
#[derive(Debug, Clone, PartialEq)]
pub struct InvertedIndexRam {
    /// Posting list of dimension `d`, at slot `d`.
    pub postings: Vec<PostingList>,
    /// Rows upserted fresh minus rows removed, maintained from the
    /// caller's `old_vector` discipline.
    pub vector_count: usize,
}

impl InvertedIndexRam {
    /// The posting list of dimension `d`; empty for untouched slots.
    pub open spec fn list_at(self, d: DimOffset) -> Seq<PostingElementEx> {
        if (d as int) < self.postings@.len() {
            self.postings@[d as int]@
        } else {
            Seq::<PostingElementEx>::empty()
        }
    }

    /// Every stored list is well-formed, and slots stay addressable by
    /// a dimension id.
    pub open spec fn wf(self) -> bool {
        &&& self.postings@.len() <= u32::MAX as int + 1
        &&& forall|k: int| 0 <= k < self.postings@.len() ==> wf_list((#[trigger] self.postings@[k])@)
    }

    /// A fresh, empty index.
    pub fn new() -> (r: Self)
        ensures
            r.wf(),
            r.vector_count == 0,
            forall|d: DimOffset| r.list_at(d) =~= Seq::<PostingElementEx>::empty(),
    {
        InvertedIndexRam { postings: Vec::new(), vector_count: 0 }
    }

    /// Iterator over dimension `id`'s posting list, or `None` if that
    /// dimension has no entries.
    pub fn get(&self, id: &DimOffset) -> (r: Option<PostingListIterator<'_>>)
        requires
            self.wf(),
        ensures
            match r {
                Some(it) => it.wf() && self.list_at(*id).len() > 0 && it.remaining() =~= self.list_at(
                    *id,
                ),
                None => self.list_at(*id).len() == 0,
            },
    {
        let d = *id as usize;
        if d < self.postings.len() {
            let pl = &self.postings[d];
            if pl.len() > 0 {
                Some(pl.iter())
            } else {
                None
            }
        } else {
            None
        }
    }

    /// Number of dimensions with at least one posting.
    pub fn len(&self) -> (r: usize)
        ensures
            r == count_nonempty(self.postings@),
    {
        let mut acc: usize = 0;
        let mut k: usize = 0;
        proof {
            assert(self.postings@.subrange(0, 0) =~= Seq::<PostingList>::empty());
        }
        while k < self.postings.len()
            invariant
                k <= self.postings@.len(),
                acc == count_nonempty(self.postings@.subrange(0, k as int)),
                acc <= k,
            decreases self.postings@.len() - k,
        {
            proof {
                let pre = self.postings@.subrange(0, k as int);
                let post = self.postings@.subrange(0, k + 1);
                assert(post.drop_last() =~= pre);
                assert(post.last() == self.postings@[k as int]);
            }
            if self.postings[k].len() > 0 {
                acc = acc + 1;
            }
            k = k + 1;
        }
        proof {
            assert(self.postings@.subrange(0, self.postings@.len() as int) =~= self.postings@);
        }
        acc
    }

    /// Whether no dimension has a posting.
    pub fn is_empty(&self) -> (r: bool)
        ensures
            r == (count_nonempty(self.postings@) == 0),
    {
        self.len() == 0
    }

    /// Element count of dimension `id`'s posting list; `None` if that
    /// dimension has no entries.
    pub fn posting_list_len(&self, id: &DimOffset) -> (r: Option<usize>)
        ensures
            match r {
                Some(n) => n == self.list_at(*id).len() && n > 0,
                None => self.list_at(*id).len() == 0,
            },
    {
        let d = *id as usize;
        if d < self.postings.len() {
            let n = self.postings[d].len();
            if n > 0 {
                Some(n)
            } else {
                None
            }
        } else {
            None
        }
    }

    /// Largest dimension id with a non-empty posting list.
    pub fn max_index(&self) -> (r: Option<DimOffset>)
        requires
            self.wf(),
        ensures
            match r {
                Some(d) => self.list_at(d).len() > 0 && forall|d2: DimOffset|
                    d2 > d ==> #[trigger] self.list_at(d2).len() == 0,
                None => forall|d2: DimOffset| #[trigger] self.list_at(d2).len() == 0,
            },
    {
        let mut k = self.postings.len();
        while k > 0
            invariant
                k <= self.postings@.len() <= u32::MAX as int + 1,
                forall|j: int| k <= j < self.postings@.len() ==> (#[trigger] self.postings@[j])@.len()
                    == 0,
            decreases k,
        {
            if self.postings[k - 1].len() > 0 {
                let d = (k - 1) as u32;
                proof {
                    assert forall|d2: DimOffset| d2 > d implies #[trigger] self.list_at(d2).len()
                        == 0 by {
                        if (d2 as int) < self.postings@.len() {
                            assert(self.postings@[d2 as int]@.len() == 0);
                        }
                    }
                }
                return Some(d);
            }
            k = k - 1;
        }
        proof {
            assert forall|d2: DimOffset| #[trigger] self.list_at(d2).len() == 0 by {
                if (d2 as int) < self.postings@.len() {
                    assert(self.postings@[d2 as int]@.len() == 0);
                }
            }
        }
        None
    }

    /// Total indexed vectors: rows upserted fresh minus rows removed.
    pub fn vector_count(&self) -> (r: usize)
        ensures
            r == self.vector_count,
    {
        self.vector_count
    }

    /// Remove row `id`'s contribution to every dimension of
    /// `old_vector`; every other list is untouched. The count drops by
    /// one exactly when some listed dimension actually held the row.
    pub fn remove(&mut self, id: ElementOffsetType, old_vector: RemappedSparseVector)
        requires
            old(self).wf(),
            old_vector.wf(),
        ensures
            final(self).wf(),
            forall|d: DimOffset|
                #![trigger final(self).list_at(d)]
                if old_vector.has_dim(d) {
                    list_removed(old(self).list_at(d), final(self).list_at(d), id)
                } else {
                    final(self).list_at(d) == old(self).list_at(d)
                },
            final(self).vector_count == if (exists|d: DimOffset|
                #[trigger] old_vector.has_dim(d) && has_row(old(self).list_at(d), id)) && old(
                self,
            ).vector_count > 0 {
                (old(self).vector_count - 1) as usize
            } else {
                old(self).vector_count
            },
    {
        let ghost pre = *self;
        let mut removed = false;
        let mut k: usize = 0;
        while k < old_vector.indices.len()
            invariant
                self.wf(),
                pre.wf(),
                old_vector.wf(),
                k <= old_vector.indices@.len(),
                self.vector_count == pre.vector_count,
                self.postings@.len() == pre.postings@.len(),
                forall|d: DimOffset|
                    #![trigger self.list_at(d)]
                    if dim_in_prefix(old_vector, d, k as int) {
                        list_removed(pre.list_at(d), self.list_at(d), id)
                    } else {
                        self.list_at(d) == pre.list_at(d)
                    },
                removed == exists|d: DimOffset|
                    #[trigger] dim_in_prefix(old_vector, d, k as int) && has_row(
                    pre.list_at(d),
                    id,
                ),
            decreases old_vector.indices@.len() - k,
        {
            let d = old_vector.indices[k];
            let di = d as usize;
            let ghost before = *self;
            proof {
                assert(!dim_in_prefix(old_vector, d, k as int)) by {
                    assert forall|i: int| 0 <= i < k implies (#[trigger] old_vector.indices@[i])
                        != d by {
                        assert(old_vector.indices@[i] < old_vector.indices@[k as int]);
                    }
                }
                assert(self.list_at(d) == pre.list_at(d));
            }
            if di < self.postings.len() {
                let n_before = self.postings[di].len();
                self.postings[di].delete(id);
                if self.postings[di].len() < n_before {
                    removed = true;
                }
            } else {
                proof {
                    assert(pre.list_at(d) =~= Seq::<PostingElementEx>::empty());
                }
            }
            proof {
                lemma_step_frame(before, *self, pre, old_vector, d, k as int, id);
                assert(removed == exists|d2: DimOffset|
                    #[trigger] dim_in_prefix(old_vector, d2, k + 1) && has_row(
                    pre.list_at(d2),
                    id,
                )) by {
                    lemma_prefix_extend(old_vector, d, k as int, pre, id, removed);
                }
            }
            k = k + 1;
        }
        let ghost endst = *self;
        if removed && self.vector_count > 0 {
            self.vector_count = self.vector_count - 1;
        }
        proof {
            lemma_prefix_full(old_vector);
            let ghost n = old_vector.indices@.len() as int;
            assert forall|d: DimOffset| #![trigger self.list_at(d)] self.list_at(d) == endst.list_at(
                d,
            ) by {
                assert(self.postings@ == endst.postings@);
            }
            assert forall|d: DimOffset|
                #![trigger self.list_at(d)]
                true implies if old_vector.has_dim(d) {
                list_removed(pre.list_at(d), self.list_at(d), id)
            } else {
                self.list_at(d) == pre.list_at(d)
            } by {
                assert(dim_in_prefix(old_vector, d, n) == old_vector.has_dim(d));
            }
            assert(removed == exists|d: DimOffset|
                #[trigger] old_vector.has_dim(d) && has_row(pre.list_at(d), id)) by {
                if removed {
                    let d = choose|d: DimOffset|
                        #[trigger] dim_in_prefix(old_vector, d, n) && has_row(pre.list_at(d), id);
                    assert(old_vector.has_dim(d) && has_row(pre.list_at(d), id));
                }
                if exists|d: DimOffset| #[trigger] old_vector.has_dim(d) && has_row(
                    pre.list_at(d),
                    id,
                ) {
                    let d = choose|d: DimOffset|
                        #[trigger] old_vector.has_dim(d) && has_row(pre.list_at(d), id);
                    assert(dim_in_prefix(old_vector, d, n) && has_row(pre.list_at(d), id));
                }
            }
        }
    }

    /// Insert or replace row `id`: first drop the row's old
    /// contribution (per `old_vector`), then upsert each weight of
    /// `vector` into its dimension's list. A call without `old_vector`
    /// counts a fresh row.
    pub fn upsert(
        &mut self,
        id: ElementOffsetType,
        vector: RemappedSparseVector,
        old_vector: Option<RemappedSparseVector>,
    )
        requires
            old(self).wf(),
            vector.wf(),
            match old_vector {
                Some(ov) => ov.wf(),
                None => old(self).vector_count < usize::MAX,
            },
        ensures
            final(self).wf(),
            forall|d: DimOffset|
                #![trigger final(self).list_at(d)]
                if vector.has_dim(d) {
                    list_upserted(
                        old(self).list_at(d),
                        final(self).list_at(d),
                        id,
                        vector.weight_of(d),
                    )
                } else if old_vector matches Some(ov) && ov.has_dim(d) {
                    list_removed(old(self).list_at(d), final(self).list_at(d), id)
                } else {
                    final(self).list_at(d) == old(self).list_at(d)
                },
            final(self).vector_count == old(self).vector_count + (match old_vector {
                Some(_) => 0int,
                None => 1int,
            }),
    {
        let ghost pre = *self;
        match &old_vector {
            Some(ov) => {
                let mut k: usize = 0;
                while k < ov.indices.len()
                    invariant
                        self.wf(),
                        pre.wf(),
                        ov.wf(),
                        k <= ov.indices@.len(),
                        self.vector_count == pre.vector_count,
                        self.postings@.len() == pre.postings@.len(),
                        forall|d: DimOffset|
                            #![trigger self.list_at(d)]
                            if dim_in_prefix(*ov, d, k as int) {
                                list_removed(pre.list_at(d), self.list_at(d), id)
                            } else {
                                self.list_at(d) == pre.list_at(d)
                            },
                    decreases ov.indices@.len() - k,
                {
                    let d = ov.indices[k];
                    let di = d as usize;
                    let ghost before = *self;
                    proof {
                        assert(!dim_in_prefix(*ov, d, k as int)) by {
                            assert forall|i: int| 0 <= i < k implies (#[trigger] ov.indices@[i])
                                != d by {
                                assert(ov.indices@[i] < ov.indices@[k as int]);
                            }
                        }
                        assert(self.list_at(d) == pre.list_at(d));
                    }
                    if di < self.postings.len() {
                        self.postings[di].delete(id);
                    } else {
                        proof {
                            assert(pre.list_at(d) =~= Seq::<PostingElementEx>::empty());
                        }
                    }
                    proof {
                        lemma_step_frame(before, *self, pre, *ov, d, k as int, id);
                    }
                    k = k + 1;
                }
                proof {
                    lemma_prefix_full(*ov);
                }
            },
            None => {},
        }
        let ghost mid = *self;
        let mut k: usize = 0;
        while k < vector.indices.len()
            invariant
                self.wf(),
                mid.wf(),
                vector.wf(),
                k <= vector.indices@.len(),
                self.vector_count == mid.vector_count,
                forall|d: DimOffset|
                    #![trigger self.list_at(d)]
                    if dim_in_prefix(vector, d, k as int) {
                        list_upserted(mid.list_at(d), self.list_at(d), id, vector.weight_of(d))
                    } else {
                        self.list_at(d) == mid.list_at(d)
                    },
            decreases vector.indices@.len() - k,
        {
            let d = vector.indices[k];
            let w = vector.values[k];
            let di = d as usize;
            let ghost before = *self;
            proof {
                lemma_weight_at(vector, k as int);
                assert(!dim_in_prefix(vector, d, k as int)) by {
                    assert forall|i: int| 0 <= i < k implies (#[trigger] vector.indices@[i])
                        != d by {
                        assert(vector.indices@[i] < vector.indices@[k as int]);
                    }
                }
                assert(self.list_at(d) == mid.list_at(d));
            }
            while self.postings.len() <= di
                invariant
                    self.wf(),
                    di <= u32::MAX as usize,
                    self.vector_count == before.vector_count,
                    forall|d2: DimOffset| #![trigger self.list_at(d2)] self.list_at(d2)
                        == before.list_at(d2),
                decreases di + 1 - self.postings@.len(),
            {
                let ghost g = *self;
                self.postings.push(PostingList::new());
                proof {
                    assert(di <= u32::MAX as usize);
                    assert(self.postings@.len() == g.postings@.len() + 1 <= u32::MAX as int + 1);
                    assert(wf_list(Seq::<PostingElementEx>::empty()));
                    assert forall|k2: int| 0 <= k2 < self.postings@.len() implies wf_list(
                        (#[trigger] self.postings@[k2])@,
                    ) by {
                        if k2 < g.postings@.len() {
                            assert(self.postings@[k2] == g.postings@[k2]);
                        } else {
                            assert(self.postings@[k2]@ =~= Seq::<PostingElementEx>::empty());
                        }
                    }
                    assert forall|d2: DimOffset| #![trigger self.list_at(d2)] self.list_at(d2)
                        == g.list_at(d2) by {
                        if (d2 as int) < g.postings@.len() {
                            assert(self.postings@[d2 as int] == g.postings@[d2 as int]);
                        } else if (d2 as int) == g.postings@.len() {
                            assert(self.list_at(d2) =~= Seq::<PostingElementEx>::empty());
                        }
                    }
                }
            }
            let ghost grown = *self;
            self.postings[di].upsert(PostingElementEx::new(id, w));
            proof {
                assert forall|d2: DimOffset|
                    #![trigger self.list_at(d2)]
                    true implies if dim_in_prefix(vector, d2, k + 1) {
                    list_upserted(mid.list_at(d2), self.list_at(d2), id, vector.weight_of(d2))
                } else {
                    self.list_at(d2) == mid.list_at(d2)
                } by {
                    if d2 == d {
                        assert(dim_in_prefix(vector, d2, k + 1)) by {
                            assert(vector.indices@[k as int] == d);
                        }
                        assert(self.list_at(d) == self.postings@[di as int]@);
                        assert(grown.list_at(d) == mid.list_at(d));
                    } else {
                        assert((d2 as int) != di as int);
                        if (d2 as int) < self.postings@.len() {
                            assert(self.postings@[d2 as int] == grown.postings@[d2 as int]);
                        }
                        assert(self.list_at(d2) == grown.list_at(d2));
                        if dim_in_prefix(vector, d2, k + 1) {
                            assert(dim_in_prefix(vector, d2, k as int)) by {
                                let i = choose|i: int|
                                    0 <= i < k + 1 && i < vector.indices@.len() && (
                                    #[trigger] vector.indices@[i]) == d2;
                                assert(i != k);
                            }
                        } else {
                            assert(!dim_in_prefix(vector, d2, k as int));
                        }
                    }
                }
            }
            k = k + 1;
        }
        let ghost endst = *self;
        if old_vector.is_none() {
            self.vector_count = self.vector_count + 1;
        }
        proof {
            lemma_prefix_full(vector);
            let ghost nv = vector.indices@.len() as int;
            assert forall|d: DimOffset| #![trigger self.list_at(d)] self.list_at(d) == endst.list_at(
                d,
            ) by {
                assert(self.postings@ == endst.postings@);
            }
            assert forall|d: DimOffset|
                #![trigger self.list_at(d)]
                true implies if vector.has_dim(d) {
                list_upserted(pre.list_at(d), self.list_at(d), id, vector.weight_of(d))
            } else if old_vector matches Some(ov) && ov.has_dim(d) {
                list_removed(pre.list_at(d), self.list_at(d), id)
            } else {
                self.list_at(d) == pre.list_at(d)
            } by {
                assert(dim_in_prefix(vector, d, nv) == vector.has_dim(d));
                match old_vector {
                    Some(ov) => {
                        assert(dim_in_prefix(ov, d, ov.indices@.len() as int) == ov.has_dim(d));
                        if vector.has_dim(d) && ov.has_dim(d) {
                            lemma_removed_then_upserted(
                                pre.list_at(d),
                                mid.list_at(d),
                                self.list_at(d),
                                id,
                                vector.weight_of(d),
                            );
                        }
                    },
                    None => {},
                }
            }
        }
    }
}

/// One delete step keeps the per-dimension removal account: the
/// processed dimension becomes removed, every other stays as it was.
proof fn lemma_step_frame(
    before: InvertedIndexRam,
    after: InvertedIndexRam,
    pre: InvertedIndexRam,
    ov: RemappedSparseVector,
    d: DimOffset,
    k: int,
    id: ElementOffsetType,
)
    requires
        ov.wf(),
        0 <= k < ov.indices@.len(),
        ov.indices@[k] == d,
        before.list_at(d) == pre.list_at(d),
        after.postings@.len() == before.postings@.len(),
        // only slot `d` may have changed, into a removal of its content
        forall|d2: DimOffset|
            #![trigger after.list_at(d2)]
            d2 != d ==> after.list_at(d2) == before.list_at(d2),
        list_removed(pre.list_at(d), after.list_at(d), id),
        forall|d2: DimOffset|
            #![trigger before.list_at(d2)]
            if dim_in_prefix(ov, d2, k) {
                list_removed(pre.list_at(d2), before.list_at(d2), id)
            } else {
                before.list_at(d2) == pre.list_at(d2)
            },
    ensures
        forall|d2: DimOffset|
            #![trigger after.list_at(d2)]
            if dim_in_prefix(ov, d2, k + 1) {
                list_removed(pre.list_at(d2), after.list_at(d2), id)
            } else {
                after.list_at(d2) == pre.list_at(d2)
            },
{
    assert forall|d2: DimOffset|
        #![trigger after.list_at(d2)]
        true implies if dim_in_prefix(ov, d2, k + 1) {
        list_removed(pre.list_at(d2), after.list_at(d2), id)
    } else {
        after.list_at(d2) == pre.list_at(d2)
    } by {
        if d2 == d {
            assert(dim_in_prefix(ov, d2, k + 1)) by {
                assert(ov.indices@[k] == d2);
            }
        } else {
            assert(after.list_at(d2) == before.list_at(d2));
            if dim_in_prefix(ov, d2, k + 1) {
                assert(dim_in_prefix(ov, d2, k)) by {
                    let i = choose|i: int|
                        0 <= i < k + 1 && i < ov.indices@.len() && (#[trigger] ov.indices@[i])
                            == d2;
                    assert(i != k);
                }
            } else {
                assert(!dim_in_prefix(ov, d2, k));
            }
        }
    }
}

/// Extending the processed prefix by one dimension keeps the
/// "some processed dimension held the row" account.
proof fn lemma_prefix_extend(
    ov: RemappedSparseVector,
    d: DimOffset,
    k: int,
    pre: InvertedIndexRam,
    id: ElementOffsetType,
    removed_now: bool,
)
    requires
        ov.wf(),
        0 <= k < ov.indices@.len(),
        ov.indices@[k] == d,
        removed_now == ((exists|d2: DimOffset|
            #[trigger] dim_in_prefix(ov, d2, k) && has_row(pre.list_at(d2), id)) || has_row(
            pre.list_at(d),
            id,
        )),
    ensures
        removed_now == exists|d2: DimOffset|
            #[trigger] dim_in_prefix(ov, d2, k + 1) && has_row(pre.list_at(d2), id),
{
    if removed_now {
        if exists|d2: DimOffset| #[trigger] dim_in_prefix(ov, d2, k) && has_row(
            pre.list_at(d2),
            id,
        ) {
            let d2 = choose|d2: DimOffset|
                #[trigger] dim_in_prefix(ov, d2, k) && has_row(pre.list_at(d2), id);
            let i = choose|i: int|
                0 <= i < k && i < ov.indices@.len() && (#[trigger] ov.indices@[i]) == d2;
            assert(dim_in_prefix(ov, d2, k + 1));
        } else {
            assert(dim_in_prefix(ov, d, k + 1)) by {
                assert(ov.indices@[k] == d);
            }
        }
    } else {
        assert forall|d2: DimOffset|
            #[trigger] dim_in_prefix(ov, d2, k + 1) implies !has_row(pre.list_at(d2), id) by {
            let i = choose|i: int|
                0 <= i < k + 1 && i < ov.indices@.len() && (#[trigger] ov.indices@[i]) == d2;
            if i < k {
                assert(dim_in_prefix(ov, d2, k));
            } else {
                assert(d2 == d);
            }
        }
    }
}

/// The full prefix of a vector's dimensions is exactly its dimensions.
proof fn lemma_prefix_full(v: RemappedSparseVector)
    ensures
        forall|d: DimOffset| #[trigger] dim_in_prefix(v, d, v.indices@.len() as int) == v.has_dim(
            d,
        ),
{
}

/// Accumulates vectors into a RAM index, counting each added row as
/// fresh.
#[derive(Debug)]
pub struct InvertedIndexBuilder {
    /// The index grown so far.
    pub index: InvertedIndexRam,
}

impl InvertedIndexBuilder {
    /// The index grown so far.
    pub open spec fn spec_index(self) -> InvertedIndexRam {
        self.index
    }

    /// Start with an empty index.
    pub fn new() -> (r: Self)
        ensures
            r.spec_index().wf(),
            r.spec_index().vector_count == 0,
            forall|d: DimOffset| r.spec_index().list_at(d) =~= Seq::<PostingElementEx>::empty(),
    {
        InvertedIndexBuilder { index: InvertedIndexRam::new() }
    }

    /// Add one fresh row.
    pub fn add(&mut self, id: ElementOffsetType, vector: RemappedSparseVector)
        requires
            old(self).spec_index().wf(),
            vector.wf(),
            old(self).spec_index().vector_count < usize::MAX,
        ensures
            final(self).spec_index().wf(),
            forall|d: DimOffset|
                #![trigger final(self).spec_index().list_at(d)]
                if vector.has_dim(d) {
                    list_upserted(
                        old(self).spec_index().list_at(d),
                        final(self).spec_index().list_at(d),
                        id,
                        vector.weight_of(d),
                    )
                } else {
                    final(self).spec_index().list_at(d) == old(self).spec_index().list_at(d)
                },
            final(self).spec_index().vector_count == old(self).spec_index().vector_count + 1,
    {
        self.index.upsert(id, vector, None);
    }

    /// Hand over the accumulated index.
    pub fn build(self) -> (r: InvertedIndexRam)
        ensures
            r == self.spec_index(),
    {
        self.index
    }
}

} // verus!
