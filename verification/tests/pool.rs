use sqfs::pool::Pool;
use sqfs::pool::Recyclable;

#[test]
fn pool_recycles_buffers() {
    let mut pool: Pool<Vec<u8>> = Pool::new(2, 3);
    assert_eq!(pool.len(), 2);
    let mut a = pool.detached();
    let b = pool.detached();
    // the pool is empty: a fresh buffer is made
    let c = pool.detached();
    let d = pool.detached();
    assert_eq!(pool.len(), 0);
    assert!(a.is_empty() && b.is_empty() && c.is_empty() && d.is_empty());
    a.extend_from_slice(&[1, 2, 3]);
    pool.return_item(a);
    pool.return_item(b);
    pool.return_item(c);
    assert_eq!(pool.len(), 3);
    // the pool is full: the buffer is dropped
    pool.return_item(d);
    assert_eq!(pool.len(), 3);
    for _ in 0..3 {
        assert!(pool.detached().is_empty());
    }
    assert_eq!(pool.len(), 0);
}

#[test]
fn buffers_are_reset() {
    let mut buffer: Vec<u8> = Recyclable::new();
    assert!(buffer.is_empty());
    buffer.push(1);
    buffer.reset();
    assert!(buffer.is_empty());
    let empty: Pool<Vec<u8>> = Pool::new(0, 0);
    assert_eq!(empty.len(), 0);
}

#[test]
fn a_pool_keeps_what_it_starts_with() {
    let mut pool: Pool<Vec<u8>> = Pool::new(3, 1);
    assert_eq!(pool.len(), 3);
    let a = pool.detached();
    let b = pool.detached();
    assert_eq!(pool.len(), 1);
    pool.return_item(a);
    pool.return_item(b);
    assert_eq!(pool.len(), 3);
    pool.return_item(Vec::new());
    assert_eq!(pool.len(), 3);
}
