use river::byob::BufferPool;

#[test]
fn pool_hands_out_fresh_buffers_when_empty() {
    let mut pool = BufferPool::new(4, 2);
    assert_eq!(pool.available(), 0);
    assert_eq!(pool.acquire(), vec![0, 0, 0, 0]);
    assert_eq!(pool.available(), 0);
}

#[test]
fn pool_reuses_released_buffers_zeroed() {
    let mut pool = BufferPool::new(3, 2);
    pool.release(vec![9, 9, 9, 9, 9]);
    assert_eq!(pool.available(), 1);
    assert_eq!(pool.acquire(), vec![0, 0, 0]);
    assert_eq!(pool.available(), 0);
}

#[test]
fn pool_drops_buffers_beyond_its_limit() {
    let mut pool = BufferPool::new(1, 2);
    pool.release(vec![1]);
    pool.release(vec![2]);
    pool.release(vec![3]);
    assert_eq!(pool.available(), 2);
    let mut zero_limit = BufferPool::new(8, 0);
    zero_limit.release(vec![1, 2]);
    assert_eq!(zero_limit.available(), 0);
}
