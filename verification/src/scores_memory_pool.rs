//! A bounded last-in-first-out pool of score-accumulation buffers, so
//! query scoring reuses allocations instead of growing fresh ones.
//!
//! The pool itself is a plain sequential structure; a serving process
//! shares it behind one short-held lock taken only around `get` and
//! `return_back`. Reused buffers keep their old contents: the borrower
//! treats a handed-out buffer as logically empty.
use vstd::prelude::*;

verus! {

/// Accumulated per-row score value.
pub type ScoreType = i64;

/// A growable buffer of per-row scores.
pub type PooledScores = Vec<ScoreType>;

/// Most buffers the pool retains; releases beyond it drop the buffer.
pub const POOL_KEEP_LIMIT: usize = 16;

/// Exclusive ownership of one score buffer between `get` and
/// `return_back`.
#[derive(Debug)]
pub struct PooledScoresHandle {
    /// The borrowed buffer.
    pub scores: PooledScores,
}

/// Bounded LIFO stack of recycled score buffers.
#[derive(Debug)]
pub struct ScoresMemoryPool {
    /// Retained buffers, most recently released last.
    pub pool: Vec<PooledScores>,
}

impl View for ScoresMemoryPool {
    type V = Seq<PooledScores>;

    open spec fn view(&self) -> Seq<PooledScores> {
        self.pool@
    }
}

impl ScoresMemoryPool {
    /// An empty pool.
    pub fn new() -> (r: Self)
        ensures
            r@.len() == 0,
    {
        ScoresMemoryPool { pool: Vec::with_capacity(POOL_KEEP_LIMIT) }
    }

    /// Hand out the most recently retained buffer, or a fresh empty one
    /// when the pool is empty.
    pub fn get(&mut self) -> (h: PooledScoresHandle)
        ensures
            old(self)@.len() > 0 ==> h.scores == old(self)@.last() && final(self)@ == old(
                self,
            )@.drop_last(),
            old(self)@.len() == 0 ==> h.scores@ =~= Seq::<ScoreType>::empty() && final(self)@
                == old(self)@,
    {
        match self.pool.pop() {
            Some(data) => PooledScoresHandle { scores: data },
            None => PooledScoresHandle { scores: Vec::new() },
        }
    }

    /// Take a buffer back, retaining it only while the pool is under
    /// its keep limit; the pool never grows past that limit.
    pub fn return_back(&mut self, handle: PooledScoresHandle)
        ensures
            old(self)@.len() < POOL_KEEP_LIMIT ==> final(self)@ == old(self)@.push(handle.scores),
            old(self)@.len() >= POOL_KEEP_LIMIT ==> final(self)@ == old(self)@,
            old(self)@.len() <= POOL_KEEP_LIMIT ==> final(self)@.len() <= POOL_KEEP_LIMIT,
    {
        if self.pool.len() < POOL_KEEP_LIMIT {
            self.pool.push(handle.scores);
        }
    }
}

impl Default for ScoresMemoryPool {
    /// An empty pool.
    fn default() -> (r: Self)
        ensures
            r@.len() == 0,
    {
        ScoresMemoryPool::new()
    }
}

/// Law (pool bounds and LIFO reuse): releasing into a pool under its
/// keep limit stays within the limit, and an immediate `get` hands the
/// just-released buffer back, restoring the pool.
pub proof fn lemma_pool_lifo_reuse(p: Seq<PooledScores>, d: PooledScores)
    requires
        p.len() < POOL_KEEP_LIMIT,
    ensures
        p.push(d).len() <= POOL_KEEP_LIMIT,
        p.push(d).last() == d,
        p.push(d).drop_last() == p,
{
    assert(p.push(d).drop_last() =~= p);
}

} // verus!
