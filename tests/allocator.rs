use ratchet::allocator::{AllocatorError, BufferAllocator};
use ratchet::descriptor::{BufferDescriptor, GraphBuffer, PooledGPUBuffer, UsageFlags, COPY_DST, UNIFORM};
use ratchet::graph::{consumer_counts, determine_tensor_source, DType, Op, Tensor};

fn node(id: u64, srcs: Vec<usize>, inplace: bool, num_bytes: u64) -> Tensor {
    Tensor {
        id,
        op: Op { srcs, inplace },
        num_bytes,
        resolved: false,
        storage: None,
        shape: vec![num_bytes as usize / 4],
        dt: DType::F32,
    }
}

fn constant(id: u64, buf: PooledGPUBuffer) -> Tensor {
    Tensor {
        id,
        op: Op { srcs: vec![], inplace: false },
        num_bytes: buf.descriptor.size,
        resolved: true,
        storage: Some(buf),
        shape: vec![buf.descriptor.size as usize / 4],
        dt: DType::F32,
    }
}

fn standard(size: u64) -> BufferDescriptor {
    BufferDescriptor::new(size, UsageFlags::standard(), false)
}

#[test]
fn inplace_chain_shares_constant_buffer() {
    let mut alloc = BufferAllocator::new();
    let cbuf = alloc.create_buffer(&standard(1024));
    let order = vec![
        constant(10, cbuf),
        node(11, vec![0], true, 1024),
        node(12, vec![1], true, 1024),
        node(13, vec![2], false, 1024),
    ];
    let before = alloc.num_resources();
    let m = alloc.allocate_cfg(&order).unwrap();
    assert_eq!(m.len(), 4);
    assert_eq!(m[&10], GraphBuffer(cbuf));
    assert_eq!(m[&11], GraphBuffer(cbuf));
    assert_eq!(m[&12], GraphBuffer(cbuf));
    assert_ne!(m[&13].0.id, cbuf.id);
    assert_eq!(m[&13].0.descriptor.size, 1024);
    assert_eq!(alloc.num_resources() - before, 1);
}

#[test]
fn linear_chain_ping_pongs_two_buffers() {
    let mut alloc = BufferAllocator::new();
    let order = vec![
        node(1, vec![], false, 4096),
        node(2, vec![0], false, 4096),
        node(3, vec![1], false, 4096),
        node(4, vec![2], false, 4096),
    ];
    let m = alloc.allocate_cfg(&order).unwrap();
    assert_eq!(alloc.num_resources(), 2);
    assert_eq!(alloc.total_gpu_size_in_bytes(), 2 * 4096);
    assert_ne!(m[&1].0.id, m[&2].0.id);
    assert_ne!(m[&2].0.id, m[&3].0.id);
    assert_ne!(m[&3].0.id, m[&4].0.id);
}

fn free_list(alloc: &mut BufferAllocator, sizes: &[u64]) -> Vec<GraphBuffer> {
    sizes.iter().map(|s| GraphBuffer::from(alloc.create_buffer(&standard(*s)))).collect()
}

#[test]
fn best_fit_takes_smallest_adequate_buffer() {
    let mut alloc = BufferAllocator::new();
    let mut free = free_list(&mut alloc, &[2048, 8192, 3072]);
    let created = alloc.num_resources();
    let got = alloc.graph_allocate(standard(2560), &mut free);
    assert_eq!(got.0.descriptor.size, 3072);
    let left: Vec<u64> = free.iter().map(|b| b.0.descriptor.size).collect();
    assert_eq!(left, vec![2048, 8192]);
    assert_eq!(alloc.num_resources(), created);
}

#[test]
fn best_fit_prefers_first_of_equal_sizes() {
    let mut alloc = BufferAllocator::new();
    let mut free = free_list(&mut alloc, &[4096, 1024, 4096]);
    let first = free[0];
    let got = alloc.graph_allocate(standard(2000), &mut free);
    assert_eq!(got, first);
    assert_eq!(free.len(), 2);
}

#[test]
fn debug_mode_bypasses_free_list() {
    let mut alloc = BufferAllocator::new();
    let mut free = free_list(&mut alloc, &[2048, 8192, 3072]);
    let snapshot = free.clone();
    alloc.set_debug(true);
    let created = alloc.num_resources();
    let got = alloc.graph_allocate(standard(2560), &mut free);
    assert_eq!(got.0.descriptor.size, 2560);
    assert_eq!(alloc.num_resources(), created + 1);
    assert_eq!(free, snapshot);
}

#[test]
fn no_fit_falls_back_to_pool() {
    let mut alloc = BufferAllocator::new();
    let mut free = free_list(&mut alloc, &[512, 1024]);
    let got = alloc.graph_allocate(standard(2048), &mut free);
    assert_eq!(got.0.descriptor, standard(2048));
    assert_eq!(free.len(), 2);
    assert_eq!(alloc.num_resources(), 3);
}

#[test]
fn uniform_is_padded_to_alignment() {
    let mut alloc = BufferAllocator::new();
    let payload: Vec<u8> = (0..100u8).map(|b| b + 1).collect();
    let (buf, bytes) = alloc.create_uniform_init(payload.clone());
    assert_eq!(buf.descriptor.size, 256);
    assert_eq!(buf.descriptor.usage.bits, UNIFORM | COPY_DST);
    assert_eq!(bytes.len(), 256);
    assert_eq!(&bytes[..100], &payload[..]);
    assert!(bytes[100..].iter().all(|b| *b == 0));
}

#[test]
fn uniform_of_exact_multiple_gains_a_block() {
    let mut alloc = BufferAllocator::new();
    let (buf, bytes) = alloc.create_uniform_init(vec![7u8; 256]);
    assert_eq!(buf.descriptor.size, 512);
    assert_eq!(bytes.len(), 512);
}

#[test]
fn fan_out_stops_inplace_traversal() {
    let mut alloc = BufferAllocator::new();
    let order = vec![
        node(1, vec![], false, 64),
        node(2, vec![0], true, 64),
        node(3, vec![1], false, 64),
        node(4, vec![1], false, 64),
        node(5, vec![2, 3], false, 64),
    ];
    let uses = consumer_counts(&order);
    assert_eq!(uses, vec![1, 2, 1, 1, 0]);
    assert_eq!(determine_tensor_source(&order, &uses, 1), 1);
    let m = alloc.allocate_cfg(&order).unwrap();
    assert_ne!(m[&2].0.id, m[&1].0.id);
}

#[test]
fn single_consumer_inplace_follows_source() {
    let order = vec![
        node(1, vec![], false, 64),
        node(2, vec![0], true, 64),
        node(3, vec![1], true, 64),
        node(4, vec![2], false, 64),
    ];
    let uses = consumer_counts(&order);
    assert_eq!(determine_tensor_source(&order, &uses, 2), 0);
    assert_eq!(determine_tensor_source(&order, &uses, 3), 3);
}

#[test]
fn single_tensor_graph_allocates_its_size() {
    let mut alloc = BufferAllocator::new();
    let before = alloc.total_gpu_size_in_bytes();
    let order = vec![node(7, vec![], false, 1000)];
    let m = alloc.allocate_cfg(&order).unwrap();
    assert_eq!(m.len(), 1);
    assert_eq!(alloc.total_gpu_size_in_bytes() - before, 1000);
}

#[test]
fn all_inplace_graph_uses_one_buffer() {
    let mut alloc = BufferAllocator::new();
    let order = vec![
        node(1, vec![], false, 256),
        node(2, vec![0], true, 256),
        node(3, vec![1], true, 256),
        node(4, vec![2], true, 256),
    ];
    let m = alloc.allocate_cfg(&order).unwrap();
    assert_eq!(alloc.num_resources(), 1);
    for id in 1..=4u64 {
        assert_eq!(m[&id], m[&1]);
    }
}

#[test]
fn released_descriptor_is_served_from_free_list() {
    let mut alloc = BufferAllocator::new();
    let mut free = Vec::new();
    let first = alloc.graph_allocate(standard(4096), &mut free);
    assert_eq!(alloc.num_resources(), 1);
    free.push(first);
    let second = alloc.graph_allocate(standard(4096), &mut free);
    assert_eq!(second, first);
    assert!(free.is_empty());
    assert_eq!(alloc.num_resources(), 1);
}

fn sharing(order: &[Tensor], m: &rustc_hash::FxHashMap<u64, GraphBuffer>) -> Vec<Vec<bool>> {
    order
        .iter()
        .map(|a| order.iter().map(|b| m[&a.id].0.id == m[&b.id].0.id).collect())
        .collect()
}

fn mixed_graph() -> Vec<Tensor> {
    vec![
        node(1, vec![], false, 512),
        node(2, vec![0], true, 512),
        node(3, vec![1], false, 1024),
        node(4, vec![2], false, 256),
        node(5, vec![3, 1], false, 512),
    ]
}

#[test]
fn second_pass_has_same_sharing_structure() {
    let mut alloc = BufferAllocator::new();
    let order = mixed_graph();
    let first = alloc.allocate_cfg(&order).unwrap();
    alloc.begin_pass(1);
    let second = alloc.allocate_cfg(&order).unwrap();
    assert_eq!(sharing(&order, &first), sharing(&order, &second));
    let ids_first: Vec<usize> = order.iter().map(|t| first[&t.id].0.id).collect();
    let ids_second: Vec<usize> = order.iter().map(|t| second[&t.id].0.id).collect();
    assert_ne!(ids_first, ids_second);
}

#[test]
fn released_pool_buffers_serve_next_pass() {
    let mut alloc = BufferAllocator::new();
    let order = mixed_graph();
    let first = alloc.allocate_cfg(&order).unwrap();
    let created = alloc.num_resources();
    let mut ids: Vec<usize> = first.values().map(|b| b.0.id).collect();
    ids.sort();
    ids.dedup();
    for id in ids {
        alloc.release(id);
    }
    alloc.begin_pass(1);
    let second = alloc.allocate_cfg(&order).unwrap();
    assert_eq!(alloc.num_resources(), created);
    assert_eq!(sharing(&order, &first), sharing(&order, &second));
}

#[test]
fn debug_mode_allocates_one_buffer_per_tensor() {
    let mut alloc = BufferAllocator::new();
    alloc.set_debug(true);
    let cbuf = alloc.create_buffer(&standard(4096));
    let order = vec![
        constant(1, cbuf),
        node(2, vec![0], false, 4096),
        node(3, vec![1], false, 4096),
        node(4, vec![2], false, 4096),
        node(5, vec![3], false, 4096),
    ];
    let before = alloc.num_resources();
    alloc.allocate_cfg(&order).unwrap();
    assert_eq!(alloc.num_resources() - before, 4);
}

#[test]
fn plan_free_list_never_holds_constants() {
    let mut alloc = BufferAllocator::new();
    let cbuf = alloc.create_buffer(&standard(1024));
    let order = vec![
        constant(10, cbuf),
        node(11, vec![0], true, 1024),
        node(12, vec![1], false, 1024),
        node(13, vec![2], false, 1024),
    ];
    let plan = alloc.allocate_plan(&order).unwrap();
    assert_eq!(plan.assignments.len(), 4);
    assert!(!plan.free.is_empty());
    assert!(plan.free.iter().all(|f| f.0.id != cbuf.id));
}

#[test]
fn sizes_fit_their_tensors() {
    let mut alloc = BufferAllocator::new();
    let order = mixed_graph();
    let plan = alloc.allocate_plan(&order).unwrap();
    for (t, b) in order.iter().zip(plan.assignments.iter()) {
        assert!(b.0.descriptor.size >= t.num_bytes);
    }
}

#[test]
fn resolved_without_storage_is_an_error() {
    let mut alloc = BufferAllocator::new();
    let mut c = node(1, vec![], false, 64);
    c.resolved = true;
    let order = vec![c, node(2, vec![0], false, 64)];
    assert_eq!(alloc.allocate_cfg(&order).err(), Some(AllocatorError::BufferNotFound));
}

#[test]
fn get_unknown_handle_is_not_found() {
    let mut alloc = BufferAllocator::new();
    let b = alloc.create_buffer(&standard(16));
    assert_eq!(alloc.get(b.id), Ok(b));
    assert_eq!(alloc.get(b.id + 1), Err(AllocatorError::BufferNotFound));
}
