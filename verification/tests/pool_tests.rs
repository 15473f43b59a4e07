use sparse_index::scores_memory_pool::{
    PooledScoresHandle, ScoresMemoryPool, POOL_KEEP_LIMIT,
};

#[test]
fn fresh_pool_hands_out_empty_buffers() {
    let mut pool = ScoresMemoryPool::new();
    let h = pool.get();
    assert!(h.scores.is_empty());
}

#[test]
fn lifo_reuse_returns_the_just_released_buffer() {
    let mut pool = ScoresMemoryPool::new();
    let mut h = pool.get();
    h.scores.push(41);
    h.scores.push(42);
    pool.return_back(h);
    let h2 = pool.get();
    // reused storage is handed back as-is; the caller owns clearing
    assert_eq!(h2.scores, vec![41, 42]);
}

#[test]
fn pool_never_retains_more_than_the_keep_limit() {
    let mut pool = ScoresMemoryPool::new();
    for i in 0..(POOL_KEEP_LIMIT + 5) {
        pool.return_back(PooledScoresHandle { scores: vec![i as i64] });
        assert!(pool.pool.len() <= POOL_KEEP_LIMIT);
    }
    assert_eq!(pool.pool.len(), POOL_KEEP_LIMIT);
}

#[test]
fn default_pool_is_empty() {
    let mut pool = ScoresMemoryPool::default();
    assert_eq!(pool.pool.len(), 0);
    let h = pool.get();
    assert!(h.scores.is_empty());
}
