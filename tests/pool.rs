use ratchet::descriptor::{BufferDescriptor, UsageFlags};
use ratchet::pool::BufferPool;

#[test]
fn parked_buffer_is_reused_for_same_descriptor() {
    let mut pool = BufferPool::new();
    let d = BufferDescriptor::new(128, UsageFlags::standard(), false);
    let other = BufferDescriptor::new(128, UsageFlags::from_bits(64), false);
    let a = pool.get_or_create(&d);
    let b = pool.get_or_create(&d);
    assert_ne!(a.id, b.id);
    pool.release(a.id);
    pool.release(a.id);
    let c = pool.get_or_create(&other);
    assert_ne!(c.id, a.id);
    let e = pool.get_or_create(&d);
    assert_eq!(e, a);
    assert_eq!(pool.num_resources(), 3);
    assert_eq!(pool.total_gpu_size_in_bytes(), 384);
    assert_eq!(pool.get(b.id), Some(b));
    assert_eq!(pool.get(9), None);
}

#[test]
fn standard_usage_bits() {
    assert_eq!(UsageFlags::standard().bits, 128 | 4 | 8);
    assert!(UsageFlags::standard().contains(UsageFlags::from_bits(4)));
    assert!(!UsageFlags::standard().contains(UsageFlags::from_bits(64)));
}
