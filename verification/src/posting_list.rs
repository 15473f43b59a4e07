//! Posting lists: per dimension, the elements of all rows holding a
//! weight in that dimension, ordered by ascending row id, each element
//! carrying the maximum weight of all elements after it.
use vstd::prelude::*;

use crate::element::{DimWeight, ElementOffsetType, PostingElementEx, DEFAULT_MAX_NEXT_WEIGHT};

verus! {

/// The larger of two weights.
pub open spec fn weight_max(a: int, b: int) -> int {
    if a >= b {
        a
    } else {
        b
    }
}

/// Maximum weight among `s[i..]`, or the sentinel if that suffix is empty.
pub open spec fn suffix_max(s: Seq<PostingElementEx>, i: int) -> int
    decreases s.len() - i when 0 <= i <= s.len()
{
    if i >= s.len() {
        DEFAULT_MAX_NEXT_WEIGHT as int
    } else {
        weight_max(s[i].weight as int, suffix_max(s, i + 1))
    }
}

/// Maximum weight among `s[i..hi]`, or the sentinel if that range is
/// empty; the range form serves lists stored as regions of one flat
/// element array.
pub open spec fn suffix_max_range(s: Seq<PostingElementEx>, i: int, hi: int) -> int
    decreases hi - i when i <= hi
{
    if i >= hi {
        DEFAULT_MAX_NEXT_WEIGHT as int
    } else {
        weight_max(s[i].weight as int, suffix_max_range(s, i + 1, hi))
    }
}

/// Row ids strictly ascend within `s[lo..hi]`.
pub open spec fn sorted_range(s: Seq<PostingElementEx>, lo: int, hi: int) -> bool {
    forall|i: int, j: int| lo <= i < j < hi ==> s[i].row_id < s[j].row_id
}

/// Every element of `s[lo..hi]` carries the exact maximum weight of the
/// range elements after it.
pub open spec fn bounds_ok_range(s: Seq<PostingElementEx>, lo: int, hi: int) -> bool {
    forall|i: int|
        #![trigger s[i]]
        lo <= i < hi ==> s[i].max_next_weight as int == suffix_max_range(s, i + 1, hi)
}

/// Well-formed posting list stored as the region `s[lo..hi]`.
pub open spec fn wf_seg(s: Seq<PostingElementEx>, lo: int, hi: int) -> bool {
    sorted_range(s, lo, hi) && bounds_ok_range(s, lo, hi)
}

/// Range suffix maxima agree between two regions of equal length whose
/// weights agree pointwise.
pub proof fn lemma_suffix_max_range_congr(
    s1: Seq<PostingElementEx>,
    i1: int,
    h1: int,
    s2: Seq<PostingElementEx>,
    i2: int,
    h2: int,
)
    requires
        0 <= i1 <= h1 <= s1.len(),
        0 <= i2 <= h2 <= s2.len(),
        h1 - i1 == h2 - i2,
        forall|k: int| #![trigger s1[i1 + k]] 0 <= k < h1 - i1 ==> s1[i1 + k].weight == s2[i2
            + k].weight,
    ensures
        suffix_max_range(s1, i1, h1) == suffix_max_range(s2, i2, h2),
    decreases h1 - i1,
{
    if i1 < h1 {
        assert(s1[i1 + 0].weight == s2[i2 + 0].weight);
        assert forall|k: int| #![trigger s1[i1 + 1 + k]] 0 <= k < h1 - (i1 + 1) implies s1[i1 + 1
            + k].weight == s2[i2 + 1 + k].weight by {
            assert(s1[i1 + (k + 1)].weight == s2[i2 + (k + 1)].weight);
        }
        lemma_suffix_max_range_congr(s1, i1 + 1, h1, s2, i2 + 1, h2);
    }
}

/// On a whole sequence the range form and the plain form agree.
pub proof fn lemma_suffix_max_range_full(s: Seq<PostingElementEx>, i: int)
    requires
        0 <= i <= s.len(),
    ensures
        suffix_max_range(s, i, s.len() as int) == suffix_max(s, i),
    decreases s.len() - i,
{
    if i < s.len() {
        lemma_suffix_max_range_full(s, i + 1);
    }
}

/// Row ids strictly ascend, so each row appears at most once.
pub open spec fn sorted_by_row(s: Seq<PostingElementEx>) -> bool {
    forall|i: int, j: int| 0 <= i < j < s.len() ==> s[i].row_id < s[j].row_id
}

/// Every element from position `k` on carries the exact maximum weight
/// of the elements after it.
pub open spec fn bounds_ok_from(s: Seq<PostingElementEx>, k: int) -> bool {
    forall|i: int|
        #![trigger s[i]]
        k <= i < s.len() ==> s[i].max_next_weight as int == suffix_max(s, i + 1)
}

/// The pruning-bound invariant of a whole posting list.
pub open spec fn bounds_ok(s: Seq<PostingElementEx>) -> bool {
    bounds_ok_from(s, 0)
}

/// Well-formed posting list: sorted by row id and bound-correct.
pub open spec fn wf_list(s: Seq<PostingElementEx>) -> bool {
    sorted_by_row(s) && bounds_ok(s)
}

/// Some element of `s` belongs to row `id`.
pub open spec fn has_row(s: Seq<PostingElementEx>, id: ElementOffsetType) -> bool {
    exists|i: int| 0 <= i < s.len() && (#[trigger] s[i]).row_id == id
}

/// Some element of `s` belongs to row `id` and has weight `w`.
pub open spec fn has_elem(s: Seq<PostingElementEx>, id: ElementOffsetType, w: DimWeight) -> bool {
    exists|i: int| 0 <= i < s.len() && (#[trigger] s[i]).row_id == id && s[i].weight == w
}

/// `new` is `old` with row `id` now carrying weight `w` (inserted or
/// replaced), every other row untouched, and both invariants restored.
pub open spec fn list_upserted(
    old: Seq<PostingElementEx>,
    new: Seq<PostingElementEx>,
    id: ElementOffsetType,
    w: DimWeight,
) -> bool {
    &&& wf_list(new)
    &&& has_elem(new, id, w)
    &&& forall|r: ElementOffsetType, v: DimWeight|
        r != id ==> (#[trigger] has_elem(old, r, v) <==> #[trigger] has_elem(new, r, v))
    &&& new.len() == old.len() + (if has_row(old, id) {
        0int
    } else {
        1int
    })
}

/// `new` is `old` with every element of row `id` gone, every other row
/// untouched, and both invariants restored.
pub open spec fn list_removed(
    old: Seq<PostingElementEx>,
    new: Seq<PostingElementEx>,
    id: ElementOffsetType,
) -> bool {
    &&& wf_list(new)
    &&& !has_row(new, id)
    &&& forall|r: ElementOffsetType, v: DimWeight|
        r != id ==> (#[trigger] has_elem(old, r, v) <==> #[trigger] has_elem(new, r, v))
    &&& new.len() == old.len() - (if has_row(old, id) {
        1int
    } else {
        0int
    })
}

/// Suffix maxima agree between two sequences whose weights agree
/// pointwise over suffixes of the same length.
proof fn lemma_suffix_max_offset(
    s1: Seq<PostingElementEx>,
    i1: int,
    s2: Seq<PostingElementEx>,
    i2: int,
)
    requires
        0 <= i1 <= s1.len(),
        0 <= i2 <= s2.len(),
        s1.len() - i1 == s2.len() - i2,
        forall|k: int| #![trigger s1[i1 + k]] 0 <= k < s1.len() - i1 ==> s1[i1 + k].weight == s2[i2 + k].weight,
    ensures
        suffix_max(s1, i1) == suffix_max(s2, i2),
    decreases s1.len() - i1,
{
    if i1 < s1.len() {
        assert(s1[i1 + 0].weight == s2[i2 + 0].weight);
        assert forall|k: int| #![trigger s1[i1 + 1 + k]]
            0 <= k < s1.len() - (i1 + 1) implies s1[i1 + 1 + k].weight == s2[i2 + 1 + k].weight by {
            assert(s1[i1 + (k + 1)].weight == s2[i2 + (k + 1)].weight);
        }
        lemma_suffix_max_offset(s1, i1 + 1, s2, i2 + 1);
    }
}

/// The suffix maximum dominates every weight in the suffix.
pub proof fn lemma_suffix_max_dominates(s: Seq<PostingElementEx>, i: int, j: int)
    requires
        0 <= i <= j < s.len(),
    ensures
        s[j].weight as int <= suffix_max(s, i),
    decreases j - i,
{
    if i < j {
        lemma_suffix_max_dominates(s, i + 1, j);
    }
}

/// Law (pruning bound): in a bound-correct list, each element's
/// `max_next_weight` equals the maximum weight of all later elements
/// and so dominates each of them; it is the sentinel for the last one.
pub proof fn lemma_bound_prunes(s: Seq<PostingElementEx>, i: int)
    requires
        bounds_ok(s),
        0 <= i < s.len(),
    ensures
        s[i].max_next_weight as int == suffix_max(s, i + 1),
        forall|j: int| i < j < s.len() ==> (#[trigger] s[j]).weight as int <= s[i].max_next_weight as int,
        i == s.len() - 1 ==> s[i].max_next_weight == DEFAULT_MAX_NEXT_WEIGHT,
{
    assert forall|j: int| i < j < s.len() implies (#[trigger] s[j]).weight as int <= s[i].max_next_weight as int by {
        lemma_suffix_max_dominates(s, i + 1, j);
    }
}

/// Law (upsert idempotence on row replace): upserting the same row a
/// second time leaves one single entry for it, holding the latest
/// weight, and is itself an upsert of the original list.
pub proof fn lemma_upsert_idempotent_on_replace(
    s0: Seq<PostingElementEx>,
    s1: Seq<PostingElementEx>,
    s2: Seq<PostingElementEx>,
    id: ElementOffsetType,
    w1: DimWeight,
    w2: DimWeight,
)
    requires
        list_upserted(s0, s1, id, w1),
        list_upserted(s1, s2, id, w2),
    ensures
        list_upserted(s0, s2, id, w2),
        has_elem(s2, id, w2),
        forall|i: int, j: int|
            0 <= i < j < s2.len() ==> !(s2[i].row_id == id && s2[j].row_id == id),
{
    assert(has_row(s1, id)) by {
        let i = choose|i: int| 0 <= i < s1.len() && (#[trigger] s1[i]).row_id == id && s1[i].weight == w1;
        assert(0 <= i < s1.len() && s1[i].row_id == id);
    }
    assert forall|r: ElementOffsetType, v: DimWeight| r != id implies (#[trigger] has_elem(
        s0,
        r,
        v,
    ) <==> #[trigger] has_elem(s2, r, v)) by {
        assert(has_elem(s0, r, v) <==> has_elem(s1, r, v));
        assert(has_elem(s1, r, v) <==> has_elem(s2, r, v));
    }
}

/// Removing a row and then upserting it amounts to one upsert.
pub proof fn lemma_removed_then_upserted(
    s0: Seq<PostingElementEx>,
    s1: Seq<PostingElementEx>,
    s2: Seq<PostingElementEx>,
    id: ElementOffsetType,
    w: DimWeight,
)
    requires
        list_removed(s0, s1, id),
        list_upserted(s1, s2, id, w),
    ensures
        list_upserted(s0, s2, id, w),
{
    assert forall|r: ElementOffsetType, v: DimWeight| r != id implies (#[trigger] has_elem(
        s0,
        r,
        v,
    ) <==> #[trigger] has_elem(s2, r, v)) by {
        assert(has_elem(s0, r, v) <==> has_elem(s1, r, v));
        assert(has_elem(s1, r, v) <==> has_elem(s2, r, v));
    }
}

/// First index in `els[lo..hi)` whose row id is at least `id`.
pub fn lower_bound(els: &Vec<PostingElementEx>, lo: usize, hi: usize, id: ElementOffsetType) -> (r:
    usize)
    requires
        lo <= hi <= els@.len(),
        forall|i: int, j: int|
            lo <= i < j < hi ==> (#[trigger] els@[i]).row_id < (#[trigger] els@[j]).row_id,
    ensures
        lo <= r <= hi,
        forall|i: int| lo <= i < r ==> (#[trigger] els@[i]).row_id < id,
        forall|i: int| r <= i < hi ==> (#[trigger] els@[i]).row_id >= id,
{
    let mut l = lo;
    let mut h = hi;
    while l < h
        invariant
            lo <= l <= h <= hi <= els@.len(),
            forall|i: int, j: int|
                lo <= i < j < hi ==> (#[trigger] els@[i]).row_id < (#[trigger] els@[j]).row_id,
            forall|i: int| lo <= i < l ==> (#[trigger] els@[i]).row_id < id,
            forall|i: int| h <= i < hi ==> (#[trigger] els@[i]).row_id >= id,
        decreases h - l,
    {
        let m = l + (h - l) / 2;
        if els[m].row_id < id {
            assert forall|i: int| lo <= i < m + 1 implies (#[trigger] els@[i]).row_id < id by {
                if i < m {
                    assert(els@[i].row_id < els@[m as int].row_id);
                }
            }
            l = m + 1;
        } else {
            assert forall|i: int| m <= i < hi implies (#[trigger] els@[i]).row_id >= id by {
                if i > m {
                    assert(els@[m as int].row_id < els@[i].row_id);
                }
            }
            h = m;
        }
    }
    l
}

/// One dimension's ordered elements together with their pruning bounds.
#[derive(Debug, Clone, PartialEq)]
pub struct PostingList {
    /// Elements ordered by ascending row id.
    pub elements: Vec<PostingElementEx>,
}

impl View for PostingList {
    type V = Seq<PostingElementEx>;

    open spec fn view(&self) -> Seq<PostingElementEx> {
        self.elements@
    }
}

impl PostingList {
    /// An empty posting list.
    pub fn new() -> (r: Self)
        ensures
            r@ =~= Seq::<PostingElementEx>::empty(),
    {
        PostingList { elements: Vec::new() }
    }

    /// Number of elements in the list.
    pub fn len(&self) -> (r: usize)
        ensures
            r == self@.len(),
    {
        self.elements.len()
    }

    /// A cursor over the whole list.
    pub fn iter(&self) -> (r: PostingListIterator<'_>)
        requires
            sorted_by_row(self@),
        ensures
            r.wf(),
            r.remaining() =~= self@,
    {
        PostingListIterator::new(&self.elements, 0, self.elements.len())
    }

    /// Back-fill `max_next_weight` for every position below `pos`,
    /// assuming positions from `pos` on are already correct.
    fn propagate_from(&mut self, pos: usize)
        requires
            pos <= old(self)@.len(),
            bounds_ok_from(old(self)@, pos as int),
        ensures
            final(self)@.len() == old(self)@.len(),
            forall|j: int|
                0 <= j < old(self)@.len() ==> (#[trigger] final(self)@[j]).row_id == old(
                    self,
                )@[j].row_id && final(self)@[j].weight == old(self)@[j].weight,
            bounds_ok(final(self)@),
    {
        let ghost orig = self@;
        let mut i = pos;
        while i > 0
            invariant
                i <= pos <= self@.len(),
                self@.len() == orig.len(),
                forall|j: int|
                    0 <= j < orig.len() ==> (#[trigger] self@[j]).row_id == orig[j].row_id
                        && self@[j].weight == orig[j].weight,
                bounds_ok_from(self@, i as int),
            decreases i,
        {
            let nb: DimWeight = if i < self.elements.len() {
                let e = self.elements[i];
                if e.weight >= e.max_next_weight {
                    e.weight
                } else {
                    e.max_next_weight
                }
            } else {
                DEFAULT_MAX_NEXT_WEIGHT
            };
            let ghost before = self@;
            proof {
                if (i as int) < before.len() {
                    assert(before[i as int].max_next_weight as int == suffix_max(before, i + 1));
                    assert(nb as int == suffix_max(before, i as int));
                } else {
                    assert(nb as int == suffix_max(before, i as int));
                }
            }
            let mut el = self.elements[i - 1];
            el.max_next_weight = nb;
            self.elements[i - 1] = el;
            proof {
                let cur = self@;
                assert(forall|k: int| #![trigger before[i + k]] 0 <= k < cur.len() - i ==> before[i + k].weight == cur[i
                    + k].weight);
                lemma_suffix_max_offset(before, i as int, cur, i as int);
                assert forall|j: int|
                    #![trigger cur[j]]
                    i - 1 <= j < cur.len() implies cur[j].max_next_weight as int == suffix_max(
                    cur,
                    j + 1,
                ) by {
                    assert(forall|k: int| #![trigger before[j + 1 + k]] 0 <= k < cur.len() - (j + 1) ==> before[j + 1
                        + k].weight == cur[j + 1 + k].weight);
                    lemma_suffix_max_offset(before, j + 1, cur, j + 1);
                    if j >= i {
                        assert(before[j].max_next_weight as int == suffix_max(before, j + 1));
                        assert(cur[j] == before[j]);
                    }
                }
            }
            i = i - 1;
        }
    }

    /// Insert the element's row and weight, or replace the row's weight
    /// if it is already present, restoring both list invariants.
    pub fn upsert(&mut self, posting_element: PostingElementEx)
        requires
            wf_list(old(self)@),
        ensures
            list_upserted(old(self)@, final(self)@, posting_element.row_id, posting_element.weight),
    {
        let ghost orig = self@;
        let id = posting_element.row_id;
        let len = self.elements.len();
        let pos = lower_bound(&self.elements, 0, len, id);
        if pos < self.elements.len() && self.elements[pos].row_id == id {
            let mut el = self.elements[pos];
            el.weight = posting_element.weight;
            self.elements[pos] = el;
            proof {
                let mid = self@;
                assert forall|j: int|
                    #![trigger mid[j]]
                    pos <= j < mid.len() implies mid[j].max_next_weight as int == suffix_max(
                    mid,
                    j + 1,
                ) by {
                    assert(forall|k: int| #![trigger orig[j + 1 + k]] 0 <= k < orig.len() - (j + 1) ==> orig[j + 1 + k].weight
                        == mid[j + 1 + k].weight);
                    lemma_suffix_max_offset(orig, j + 1, mid, j + 1);
                }
            }
            self.propagate_from(pos);
            proof {
                lemma_after_update(orig, self@, pos as int, id, posting_element.weight);
            }
        } else {
            let el = PostingElementEx {
                row_id: id,
                weight: posting_element.weight,
                max_next_weight: DEFAULT_MAX_NEXT_WEIGHT,
            };
            self.elements.insert(pos, el);
            proof {
                orig.insert_ensures(pos as int, el);
            }
            let ln = self.elements.len();
            let nb: DimWeight = if pos < ln - 1 {
                let e = self.elements[pos + 1];
                if e.weight >= e.max_next_weight {
                    e.weight
                } else {
                    e.max_next_weight
                }
            } else {
                DEFAULT_MAX_NEXT_WEIGHT
            };
            let ghost inserted = self@;
            let mut e2 = self.elements[pos];
            e2.max_next_weight = nb;
            self.elements[pos] = e2;
            proof {
                let cur = self@;
                // elements after pos kept their bounds, which stay exact
                // because weights from any later suffix are unchanged.
                assert forall|j: int|
                    #![trigger cur[j]]
                    pos < j < cur.len() implies cur[j].max_next_weight as int == suffix_max(
                    cur,
                    j + 1,
                ) by {
                    assert(cur[j] == orig[j - 1]);
                    assert(forall|k: int| #![trigger orig[j + k]] 0 <= k < orig.len() - j ==> orig[j + k].weight == cur[j
                        + 1 + k].weight);
                    lemma_suffix_max_offset(orig, j, cur, j + 1);
                    assert(orig[j - 1].max_next_weight as int == suffix_max(orig, j));
                }
                // the inserted element's own bound is exact as well.
                if pos + 1 < cur.len() {
                    assert(cur[pos + 1] == orig[pos as int]);
                    assert(forall|k: int| #![trigger orig[pos + 1 + k]] 0 <= k < orig.len() - (pos + 1) ==> orig[pos + 1
                        + k].weight == cur[pos + 2 + k].weight);
                    lemma_suffix_max_offset(orig, pos as int, cur, pos + 1);
                    assert(nb as int == suffix_max(cur, pos + 1));
                } else {
                    assert(nb as int == suffix_max(cur, pos + 1));
                }
                assert(bounds_ok_from(cur, pos as int));
            }
            self.propagate_from(pos);
            proof {
                lemma_after_insert(orig, self@, pos as int, id, posting_element.weight);
            }
        }
    }

    /// Remove the row's element, if present, restoring both invariants.
    pub fn delete(&mut self, row_id: ElementOffsetType)
        requires
            wf_list(old(self)@),
        ensures
            list_removed(old(self)@, final(self)@, row_id),
    {
        let ghost orig = self@;
        let len = self.elements.len();
        let pos = lower_bound(&self.elements, 0, len, row_id);
        if pos < self.elements.len() && self.elements[pos].row_id == row_id {
            self.elements.remove(pos);
            proof {
                let mid = self@;
                assert forall|j: int|
                    #![trigger mid[j]]
                    pos <= j < mid.len() implies mid[j].max_next_weight as int == suffix_max(
                    mid,
                    j + 1,
                ) by {
                    assert(mid[j] == orig[j + 1]);
                    assert(forall|k: int| #![trigger orig[j + 2 + k]] 0 <= k < orig.len() - (j + 2) ==> orig[j + 2 + k].weight
                        == mid[j + 1 + k].weight);
                    lemma_suffix_max_offset(orig, j + 2, mid, j + 1);
                    assert(orig[j + 1].max_next_weight as int == suffix_max(orig, j + 2));
                }
            }
            self.propagate_from(pos);
            proof {
                lemma_after_delete(orig, self@, pos as int, row_id);
            }
        } else {
            proof {
                assert forall|i: int| 0 <= i < orig.len() implies (#[trigger] orig[i]).row_id
                    != row_id by {}
            }
        }
    }
}

/// A cursor over a contiguous, row-sorted region of posting elements.
///
/// Duplicating the cursor copies only its position, never the storage,
/// so multi-way query algorithms can fork it freely.
#[derive(Debug, Clone, Copy)]
pub struct PostingListIterator<'a> {
    /// Backing element storage (shared, never copied).
    pub elements: &'a Vec<PostingElementEx>,
    /// One past the last element of the region.
    pub end: usize,
    /// Current position of the cursor.
    pub pos: usize,
}

impl<'a> PostingListIterator<'a> {
    /// The cursor stays inside its region and the region is row-sorted.
    pub open spec fn wf(self) -> bool {
        &&& self.pos <= self.end <= self.elements@.len()
        &&& forall|i: int, j: int|
            self.pos <= i < j < self.end ==> (#[trigger] self.elements@[i]).row_id
                < (#[trigger] self.elements@[j]).row_id
    }

    /// Elements not yet consumed.
    pub open spec fn remaining(self) -> Seq<PostingElementEx> {
        self.elements@.subrange(self.pos as int, self.end as int)
    }

    /// A cursor over `els[lo..hi)`.
    pub fn new(els: &'a Vec<PostingElementEx>, lo: usize, hi: usize) -> (r: Self)
        requires
            lo <= hi <= els@.len(),
            forall|i: int, j: int|
                lo <= i < j < hi ==> (#[trigger] els@[i]).row_id < (#[trigger] els@[j]).row_id,
        ensures
            r.wf(),
            r.elements@ == els@,
            r.remaining() == els@.subrange(lo as int, hi as int),
    {
        PostingListIterator { elements: els, end: hi, pos: lo }
    }

    /// Current element, without consuming it.
    pub fn peek(&self) -> (r: Option<PostingElementEx>)
        requires
            self.wf(),
        ensures
            match r {
                Some(e) => self.remaining().len() > 0 && e == self.remaining()[0],
                None => self.remaining().len() == 0,
            },
    {
        if self.pos < self.end {
            Some(self.elements[self.pos])
        } else {
            None
        }
    }

    /// Consume and return the current element.
    pub fn next(&mut self) -> (r: Option<PostingElementEx>)
        requires
            old(self).wf(),
        ensures
            final(self).wf(),
            final(self).elements@ == old(self).elements@,
            final(self).end == old(self).end,
            match r {
                Some(e) => old(self).remaining().len() > 0 && e == old(self).remaining()[0]
                    && final(self).remaining() =~= old(self).remaining().drop_first(),
                None => old(self).remaining().len() == 0 && final(self).pos == old(self).pos,
            },
    {
        if self.pos < self.end {
            let e = self.elements[self.pos];
            self.pos = self.pos + 1;
            Some(e)
        } else {
            None
        }
    }

    /// Skip forward to the first element whose row id is at least
    /// `row_id`, and return it; `None` exhausts the cursor.
    pub fn skip_to(&mut self, row_id: ElementOffsetType) -> (r: Option<PostingElementEx>)
        requires
            old(self).wf(),
        ensures
            final(self).wf(),
            final(self).elements@ == old(self).elements@,
            final(self).end == old(self).end,
            old(self).pos <= final(self).pos <= final(self).end,
            forall|i: int|
                old(self).pos <= i < final(self).pos ==> (#[trigger] old(self).elements@[i]).row_id
                    < row_id,
            match r {
                Some(e) => final(self).pos < final(self).end && e
                    == final(self).elements@[final(self).pos as int] && e.row_id >= row_id,
                None => final(self).pos == final(self).end,
            },
    {
        let p = lower_bound(self.elements, self.pos, self.end, row_id);
        self.pos = p;
        if p < self.end {
            Some(self.elements[p])
        } else {
            None
        }
    }

    /// Number of elements left to iterate.
    pub fn len_to_end(&self) -> (r: usize)
        requires
            self.wf(),
        ensures
            r == self.remaining().len(),
    {
        self.end - self.pos
    }
}

/// After replacing the weight at `pos` (row ids untouched, weights of
/// other positions untouched), the list is an upsert of the original.
proof fn lemma_after_update(
    orig: Seq<PostingElementEx>,
    new: Seq<PostingElementEx>,
    pos: int,
    id: ElementOffsetType,
    w: DimWeight,
)
    requires
        sorted_by_row(orig),
        bounds_ok(new),
        0 <= pos < orig.len(),
        new.len() == orig.len(),
        orig[pos].row_id == id,
        forall|j: int| 0 <= j < new.len() ==> (#[trigger] new[j]).row_id == orig[j].row_id,
        new[pos].weight == w,
        forall|j: int| 0 <= j < new.len() && j != pos ==> (#[trigger] new[j]).weight == orig[j].weight,
    ensures
        list_upserted(orig, new, id, w),
{
    assert(sorted_by_row(new));
    assert(has_elem(new, id, w)) by {
        assert(new[pos].row_id == id && new[pos].weight == w);
    }
    assert(has_row(orig, id)) by {
        assert(orig[pos].row_id == id);
    }
    assert forall|r: ElementOffsetType, v: DimWeight| r != id implies (#[trigger] has_elem(
        orig,
        r,
        v,
    ) <==> #[trigger] has_elem(new, r, v)) by {
        if has_elem(orig, r, v) {
            let i = choose|i: int|
                0 <= i < orig.len() && (#[trigger] orig[i]).row_id == r && orig[i].weight == v;
            assert(i != pos);
            assert(new[i].row_id == r && new[i].weight == v);
        }
        if has_elem(new, r, v) {
            let i = choose|i: int|
                0 <= i < new.len() && (#[trigger] new[i]).row_id == r && new[i].weight == v;
            assert(i != pos);
            assert(orig[i].row_id == r && orig[i].weight == v);
        }
    }
}

/// After inserting a fresh row at its sorted position (and rewriting
/// bounds only), the list is an upsert of the original.
proof fn lemma_after_insert(
    orig: Seq<PostingElementEx>,
    new: Seq<PostingElementEx>,
    pos: int,
    id: ElementOffsetType,
    w: DimWeight,
)
    requires
        sorted_by_row(orig),
        bounds_ok(new),
        0 <= pos <= orig.len(),
        new.len() == orig.len() + 1,
        forall|i: int| 0 <= i < pos ==> (#[trigger] orig[i]).row_id < id,
        forall|i: int| pos <= i < orig.len() ==> (#[trigger] orig[i]).row_id > id,
        new[pos].row_id == id,
        new[pos].weight == w,
        forall|j: int| 0 <= j < pos ==> (#[trigger] new[j]).row_id == orig[j].row_id && new[j].weight
            == orig[j].weight,
        forall|j: int| pos < j < new.len() ==> (#[trigger] new[j]).row_id == orig[j - 1].row_id
            && new[j].weight == orig[j - 1].weight,
    ensures
        list_upserted(orig, new, id, w),
{
    assert(sorted_by_row(new)) by {
        assert forall|i: int, j: int| 0 <= i < j < new.len() implies new[i].row_id
            < new[j].row_id by {
            if i < pos && j < pos {
            } else if i < pos && j == pos {
            } else if i == pos && j > pos {
            } else if i < pos && j > pos {
                assert(orig[i].row_id < id);
                assert(orig[j - 1].row_id > id);
            } else {
            }
        }
    }
    assert(has_elem(new, id, w)) by {
        assert(new[pos].row_id == id && new[pos].weight == w);
    }
    assert(!has_row(orig, id)) by {
        assert forall|i: int| 0 <= i < orig.len() implies (#[trigger] orig[i]).row_id != id by {}
    }
    assert forall|r: ElementOffsetType, v: DimWeight| r != id implies (#[trigger] has_elem(
        orig,
        r,
        v,
    ) <==> #[trigger] has_elem(new, r, v)) by {
        if has_elem(orig, r, v) {
            let i = choose|i: int|
                0 <= i < orig.len() && (#[trigger] orig[i]).row_id == r && orig[i].weight == v;
            if i < pos {
                assert(new[i].row_id == r && new[i].weight == v);
            } else {
                assert(new[i + 1].row_id == r && new[i + 1].weight == v);
            }
        }
        if has_elem(new, r, v) {
            let i = choose|i: int|
                0 <= i < new.len() && (#[trigger] new[i]).row_id == r && new[i].weight == v;
            assert(i != pos);
            if i < pos {
                assert(orig[i].row_id == r && orig[i].weight == v);
            } else {
                assert(orig[i - 1].row_id == r && orig[i - 1].weight == v);
            }
        }
    }
}

/// After removing the one element of a row (and rewriting bounds only),
/// the list is a removal of the original.
proof fn lemma_after_delete(
    orig: Seq<PostingElementEx>,
    new: Seq<PostingElementEx>,
    pos: int,
    id: ElementOffsetType,
)
    requires
        sorted_by_row(orig),
        bounds_ok(new),
        0 <= pos < orig.len(),
        orig[pos].row_id == id,
        new.len() == orig.len() - 1,
        forall|j: int| 0 <= j < pos ==> (#[trigger] new[j]).row_id == orig[j].row_id && new[j].weight
            == orig[j].weight,
        forall|j: int| pos <= j < new.len() ==> (#[trigger] new[j]).row_id == orig[j + 1].row_id
            && new[j].weight == orig[j + 1].weight,
    ensures
        list_removed(orig, new, id),
{
    assert(sorted_by_row(new)) by {
        assert forall|i: int, j: int| 0 <= i < j < new.len() implies new[i].row_id
            < new[j].row_id by {
            if i < pos && j >= pos {
                assert(orig[i].row_id < orig[j + 1].row_id);
            }
        }
    }
    assert(has_row(orig, id)) by {
        assert(orig[pos].row_id == id);
    }
    assert(!has_row(new, id)) by {
        assert forall|i: int| 0 <= i < new.len() implies (#[trigger] new[i]).row_id != id by {
            if i < pos {
                assert(orig[i].row_id < orig[pos].row_id);
            } else {
                assert(orig[pos].row_id < orig[i + 1].row_id);
            }
        }
    }
    assert forall|r: ElementOffsetType, v: DimWeight| r != id implies (#[trigger] has_elem(
        orig,
        r,
        v,
    ) <==> #[trigger] has_elem(new, r, v)) by {
        if has_elem(orig, r, v) {
            let i = choose|i: int|
                0 <= i < orig.len() && (#[trigger] orig[i]).row_id == r && orig[i].weight == v;
            assert(i != pos);
            if i < pos {
                assert(new[i].row_id == r && new[i].weight == v);
            } else {
                assert(new[i - 1].row_id == r && new[i - 1].weight == v);
            }
        }
        if has_elem(new, r, v) {
            let i = choose|i: int|
                0 <= i < new.len() && (#[trigger] new[i]).row_id == r && new[i].weight == v;
            if i < pos {
                assert(orig[i].row_id == r && orig[i].weight == v);
            } else {
                assert(orig[i + 1].row_id == r && orig[i + 1].weight == v);
            }
        }
    }
}

} // verus!
