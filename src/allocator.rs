use vstd::prelude::*;
use crate::descriptor::{
    BufferDescriptor, GpuBufferHandle, GraphBuffer, PooledGPUBuffer, UsageFlags, UNIFORM_ALIGN,
    COPY_DST, UNIFORM,
};
use crate::graph::{
    Tensor, sources_precede, ids_unique, inplace_fits, storage_fits, consumer_counts, determine_tensor_source, valid_order, follows, true_source,
    lemma_true_source, capped, consumers,
};
use crate::graph::TensorId;
use crate::pool::{BufferPool, PoolView, parks, first_parked};
use crate::model::{
    PassModel, refines, m_lease, m_alloc, m_lease_srcs, m_release, m_visit, m_walk, m_init,
    pass_model, best_upto, lemma_best_upto, free_sizes, id_of,
};
use rustc_hash::FxHashMap;

verus! {

/// rustc-hash's hasher, carried opaquely as the hasher of the assignment map.
#[verifier::external_type_specification]
#[verifier::external_body]
pub struct ExFxHasher(rustc_hash::FxHasher);

/// std's `BuildHasherDefault`, which builds the map's `FxHasher`s.
#[verifier::external_type_specification]
#[verifier::external_body]
#[verifier::reject_recursive_types(H)]
pub struct ExBuildHasherDefault<H>(std::hash::BuildHasherDefault<H>);

/// Relies on `HashMap::insert` under rustc-hash's `FxHasher`, whose hash of a
/// key depends on the key alone: afterwards `k` maps to `v`.
#[verifier::external_body]
fn insert_assignment(m: &mut FxHashMap<TensorId, GraphBuffer>, k: TensorId, v: GraphBuffer)
    ensures
        final(m)@ == old(m)@.insert(k, v),
{
    m.insert(k, v);
}

/// Length of a uniform block of `n` bytes once padded: the next multiple of
/// `UNIFORM_ALIGN` above `n` (a whole block more when `n` is a multiple).
pub open spec fn padded_len(n: int) -> int {
    n + UNIFORM_ALIGN - n % (UNIFORM_ALIGN as int)
}

/// Pads a uniform block with zero bytes to `padded_len` of its length.
pub fn pad_uniform(uniform: Vec<u8>) -> (r: Vec<u8>)
    requires
        uniform@.len() + UNIFORM_ALIGN <= usize::MAX,
    ensures
        r@.len() == padded_len(uniform@.len() as int),
        r@.subrange(0, uniform@.len() as int) == uniform@,
        forall|i: int| uniform@.len() <= i < r@.len() ==> #[trigger] r@[i] == 0u8,
{
    let mut padded = uniform;
    let target = padded.len() + UNIFORM_ALIGN - padded.len() % UNIFORM_ALIGN;
    let ghost orig = padded@;
    while padded.len() < target
        invariant
            orig.len() <= padded@.len() <= target,
            target == padded_len(orig.len() as int),
            padded@.subrange(0, orig.len() as int) == orig,
            forall|i: int| orig.len() <= i < padded@.len() ==> #[trigger] padded@[i] == 0u8,
        decreases target - padded@.len(),
    {
        padded.push(0u8);
        assert(padded@.subrange(0, orig.len() as int) =~= orig);
    }
    padded
}

/// No tensor of `g` shares its input's buffer.
pub open spec fn no_inplace_sharing(g: Seq<Tensor>) -> bool {
    forall|i: int| 0 <= i < g.len() ==> !#[trigger] follows(g, i)
}

/// Number of unresolved tensors among the first `n` of `g`.
pub open spec fn nonconstant_count(g: Seq<Tensor>, n: int) -> nat
    decreases n,
{
    if n <= 0 {
        0
    } else {
        nonconstant_count(g, n - 1) + if !g[n - 1].resolved {
            1nat
        } else {
            0nat
        }
    }
}

/// Number of unresolved tensors among the first `n` of `g` that `a` assigns.
pub open spec fn assigned_count(g: Seq<Tensor>, a: Seq<Option<GraphBuffer>>, n: int) -> nat
    decreases n,
{
    if n <= 0 {
        0
    } else {
        assigned_count(g, a, n - 1) + if !g[n - 1].resolved && a[n - 1].is_some() {
            1nat
        } else {
            0nat
        }
    }
}

proof fn lemma_assigned_count_set(
    g: Seq<Tensor>,
    a: Seq<Option<GraphBuffer>>,
    x: int,
    v: GraphBuffer,
    n: int,
)
    requires
        0 <= x < a.len(),
        a.len() == g.len(),
        a[x].is_none(),
        !g[x].resolved,
        0 <= n <= a.len(),
    ensures
        assigned_count(g, a.update(x, Some(v)), n) == assigned_count(g, a, n) + if x < n {
            1nat
        } else {
            0nat
        },
    decreases n,
{
    if n > 0 {
        lemma_assigned_count_set(g, a, x, v, n - 1);
    }
}

proof fn lemma_assigned_count_bounds(g: Seq<Tensor>, a: Seq<Option<GraphBuffer>>, n: int)
    requires
        0 <= n <= a.len(),
        a.len() == g.len(),
    ensures
        (forall|i: int| 0 <= i < n ==> (#[trigger] a[i].is_some() <==> g[i].resolved)) ==> assigned_count(g, a, n) == 0,
        (forall|i: int| 0 <= i < n ==> #[trigger] a[i].is_some()) ==> assigned_count(g, a, n) == nonconstant_count(g, n),
    decreases n,
{
    if n > 0 {
        lemma_assigned_count_bounds(g, a, n - 1);
    }
}

/// One buffer for each tensor; a tensor that shares its input's buffer has
/// the buffer of its true source; each buffer holds its tensor; a resolved
/// tensor keeps the buffer it had.
pub open spec fn assignment_laws(g: Seq<Tensor>, a: Seq<GraphBuffer>) -> bool {
    &&& a.len() == g.len()
    &&& forall|i: int| 0 <= i < g.len() && #[trigger] follows(g, i) ==> a[i] == a[true_source(g, i)]
    &&& forall|i: int| 0 <= i < g.len() ==> #[trigger] a[i].0.descriptor.size >= g[i].num_bytes
    &&& forall|i: int| 0 <= i < g.len() && #[trigger] g[i].resolved ==> a[i] == GraphBuffer(g[i].storage.unwrap())
}

/// In a chain in which every tensor after the first is computed in place over
/// the one before it and read at most once, every tensor is assigned the
/// buffer of the first.
pub proof fn lemma_inplace_chain_shares_one_buffer(g: Seq<Tensor>, a: Seq<GraphBuffer>)
    requires
        valid_order(g),
        assignment_laws(g, a),
        forall|i: int| 0 < i < g.len() ==> #[trigger] follows(g, i) && g[i].op.srcs@[0] == i - 1,
    ensures
        forall|i: int| 0 <= i < g.len() ==> #[trigger] a[i] == a[0],
{
    assert forall|i: int| 0 <= i < g.len() implies #[trigger] a[i] == a[0] by {
        lemma_chain_source(g, i);
        if i > 0 {
            assert(follows(g, i));
        }
    }
}

proof fn lemma_chain_source(g: Seq<Tensor>, i: int)
    requires
        valid_order(g),
        0 <= i < g.len(),
        forall|j: int| 0 < j < g.len() ==> #[trigger] follows(g, j) && g[j].op.srcs@[0] == j - 1,
    ensures
        true_source(g, i) == 0,
    decreases i,
{
    if i > 0 {
        assert(follows(g, i));
        lemma_chain_source(g, i - 1);
    } else {
        assert(!follows(g, 0)) by {
            if follows(g, 0) {
                assert(g[0].op.srcs@[0] < 0);
            }
        }
    }
}

/// Tensors `i` and `j` are assigned the same physical buffer.
pub open spec fn shares(a: Seq<GraphBuffer>, i: int, j: int) -> bool {
    a[i].0.id == a[j].0.id
}

/// Sharing is safe: a resolved tensor's buffer is shared only within classes
/// (tensors with one true source) whose true source is resolved; and when two
/// unresolved classes share a buffer, every tensor of the earlier one is
/// computed, and read by every unresolved reader, before the later class's
/// first tensor is computed.
pub open spec fn lifetimes_disjoint(g: Seq<Tensor>, a: Seq<GraphBuffer>) -> bool {
    &&& forall|c: int, j: int|
        0 <= c < g.len() && 0 <= j < g.len() && g[c].resolved && #[trigger] shares(a, c, j)
            ==> g[true_source(g, j)].resolved
    &&& forall|i: int, j: int|
        0 <= i < g.len() && 0 <= j < g.len() && #[trigger] shares(a, i, j) && true_source(g, i)
            < true_source(g, j) && !g[true_source(g, i)].resolved && !g[true_source(g, j)].resolved
            ==> i < true_source(g, j) && forall|c: int, m: int|
            0 <= c < g.len() && !g[c].resolved && 0 <= m < g[c].op.srcs@.len() && #[trigger] g[c].op.srcs@[m]
                == i ==> c < true_source(g, j)
}

/// The buffers of `m`, in the order of the tensors of `g`.
pub open spec fn by_position(g: Seq<Tensor>, m: Map<TensorId, GraphBuffer>) -> Seq<GraphBuffer> {
    Seq::new(g.len(), |i: int| m[g[i].id])
}

/// Which tensors share a buffer is what the model of the pass says, and so
/// depends on the order and on whether reuse is off, not on the pool.
pub open spec fn follows_model(g: Seq<Tensor>, debug: bool, a: Seq<GraphBuffer>) -> bool {
    forall|i: int, j: int|
        0 <= i < g.len() && 0 <= j < g.len() ==> (#[trigger] shares(a, i, j) <==> pass_model(g, debug).slot[i]
            == pass_model(g, debug).slot[j])
}

/// Two allocation passes over one order, with reuse switched the same way,
/// share buffers between the same pairs of tensors, whatever the pool held
/// before each.
pub proof fn lemma_passes_share_alike(g: Seq<Tensor>, debug: bool, a1: Seq<GraphBuffer>, a2: Seq<GraphBuffer>)
    requires
        follows_model(g, debug, a1),
        follows_model(g, debug, a2),
    ensures
        forall|i: int, j: int|
            0 <= i < g.len() && 0 <= j < g.len() ==> (#[trigger] shares(a1, i, j) <==> shares(a2, i, j)),
{
    assert forall|i: int, j: int| 0 <= i < g.len() && 0 <= j < g.len() implies (#[trigger] shares(a1, i, j)
        <==> shares(a2, i, j)) by {
        assert(shares(a1, i, j) <==> pass_model(g, debug).slot[i] == pass_model(g, debug).slot[j]);
        assert(shares(a2, i, j) <==> pass_model(g, debug).slot[i] == pass_model(g, debug).slot[j]);
    }
}

proof fn lemma_same_id_same_slot(
    g: Seq<Tensor>,
    st: PassModel,
    a: Seq<Option<GraphBuffer>>,
    free: Seq<GraphBuffer>,
    ren: Seq<usize>,
    i: int,
    j: int,
)
    requires
        valid_order(g),
        a.len() == g.len(),
        refines(g, st, a, free, ren),
        0 <= i < g.len(),
        0 <= j < g.len(),
        a[i].is_some(),
        a[j].is_some(),
    ensures
        (a[i].unwrap().0.id == a[j].unwrap().0.id) <==> (st.slot[i] == st.slot[j]),
{
    assert(st.slot[i].is_some());
    assert(st.slot[j].is_some());
    let vi = st.slot[i].unwrap();
    let vj = st.slot[j].unwrap();
    lemma_true_source(g, i);
    lemma_true_source(g, j);
    if vi >= 0 && vj < 0 {
        let c = true_source(g, j);
        assert(g[c].resolved);
        assert(ren[vi] != g[c].storage.unwrap().id);
    } else if vi < 0 && vj >= 0 {
        let c = true_source(g, i);
        assert(g[c].resolved);
        assert(ren[vj] != g[c].storage.unwrap().id);
    }
}

/// The same laws, over a map keyed by tensor id.
pub open spec fn keyed_laws(g: Seq<Tensor>, m: Map<TensorId, GraphBuffer>) -> bool {
    &&& lifetimes_disjoint(g, by_position(g, m))
    &&& forall|key: TensorId| #[trigger] m.contains_key(key) ==> exists|i: int|
        0 <= i < g.len() && g[i].id == key
    &&& forall|i: int| 0 <= i < g.len() ==> #[trigger] m.contains_key(g[i].id)
    &&& forall|i: int| 0 <= i < g.len() && #[trigger] follows(g, i) ==> m[g[i].id] == m[g[true_source(g, i)].id]
    &&& forall|i: int| 0 <= i < g.len() ==> #[trigger] m[g[i].id].0.descriptor.size >= g[i].num_bytes
    &&& forall|i: int| 0 <= i < g.len() && #[trigger] g[i].resolved ==> m[g[i].id] == GraphBuffer(g[i].storage.unwrap())
}

proof fn lemma_keyed_laws(g: Seq<Tensor>, a: Seq<GraphBuffer>, m: Map<TensorId, GraphBuffer>)
    requires
        valid_order(g),
        assignment_laws(g, a),
        lifetimes_disjoint(g, a),
        keyed_by_id(g, a, m),
    ensures
        keyed_laws(g, m),
        by_position(g, m) == a,
{
    assert forall|i: int| 0 <= i < g.len() implies #[trigger] by_position(g, m)[i] == a[i] by {
        assert(m.contains_key(g[i].id));
    }
    assert(by_position(g, m) =~= a);
    assert forall|x: int| 0 <= x < g.len() && #[trigger] follows(g, x) implies m[g[x].id] == m[g[true_source(g, x)].id] by {
        lemma_true_source(g, x);
        let y = true_source(g, x);
        assert(m.contains_key(g[x].id));
        assert(m.contains_key(g[y].id));
        assert(m[g[x].id] == a[x]);
        assert(m[g[y].id] == a[y]);
        assert(a[x] == a[y]);
    }
    assert forall|x: int| 0 <= x < g.len() implies #[trigger] m[g[x].id].0.descriptor.size >= g[x].num_bytes by {
        assert(m.contains_key(g[x].id));
    }
    assert forall|x: int| 0 <= x < g.len() && #[trigger] g[x].resolved implies m[g[x].id] == GraphBuffer(g[x].storage.unwrap()) by {
        assert(m.contains_key(g[x].id));
    }
}

/// `m` maps the id of each tensor of `g` to its buffer in `a`, and holds no
/// other key.
pub open spec fn keyed_by_id(g: Seq<Tensor>, a: Seq<GraphBuffer>, m: Map<TensorId, GraphBuffer>) -> bool {
    &&& forall|i: int| 0 <= i < g.len() ==> #[trigger] m.contains_key(g[i].id) && m[g[i].id] == a[i]
    &&& forall|key: TensorId| #[trigger] m.contains_key(key) ==> exists|i: int| 0 <= i < g.len() && g[i].id == key
}

#[derive(Clone, Copy, Debug, PartialEq, Eq, Structural)]
pub enum AllocatorError {
    BufferNotFound,
}

/// Free buffer `j` is at least `size` bytes.
pub open spec fn fits(free: Seq<GraphBuffer>, size: u64, j: int) -> bool {
    0 <= j < free.len() && free[j].0.descriptor.size >= size
}

/// Free buffer `j` is the smallest that fits `size`, and the first of that size.
pub open spec fn best_fit(free: Seq<GraphBuffer>, size: u64, j: int) -> bool {
    &&& fits(free, size, j)
    &&& forall|i: int| #[trigger]
        fits(free, size, i) ==> free[i].0.descriptor.size >= free[j].0.descriptor.size
    &&& forall|i: int|
        0 <= i < j && #[trigger] fits(free, size, i) ==> free[i].0.descriptor.size
            > free[j].0.descriptor.size
}

/// Every tensor that shares its input's buffer is assigned that buffer.
pub open spec fn aliases_ok(g: Seq<Tensor>, a: Seq<Option<GraphBuffer>>) -> bool {
    forall|i: int|
        0 <= i < g.len() && #[trigger] a[i].is_some() && follows(g, i) ==> a[true_source(
            g,
            i,
        )].is_some() && a[i] == a[true_source(g, i)]
}

/// Every assigned buffer holds its tensor.
pub open spec fn sizes_ok(g: Seq<Tensor>, a: Seq<Option<GraphBuffer>>) -> bool {
    forall|i: int|
        0 <= i < g.len() && #[trigger] a[i].is_some() ==> a[i].unwrap().0.descriptor.size
            >= g[i].num_bytes
}

/// Every resolved tensor is assigned the buffer it already has.
pub open spec fn constants_ok(g: Seq<Tensor>, a: Seq<Option<GraphBuffer>>) -> bool {
    forall|i: int|
        0 <= i < g.len() && #[trigger] g[i].resolved ==> g[i].storage.is_some() && a[i] == Some(
            GraphBuffer(g[i].storage.unwrap()),
        )
}

/// Assigned and free buffers are all handed out by the pool.
pub open spec fn held_leased(
    pool: PoolView,
    a: Seq<Option<GraphBuffer>>,
    free: Seq<GraphBuffer>,
) -> bool {
    &&& forall|i: int| 0 <= i < a.len() && #[trigger] a[i].is_some() ==> pool.leased(a[i].unwrap().0.id)
    &&& forall|f: int| 0 <= f < free.len() ==> pool.leased(#[trigger] free[f].0.id)
}

/// Free buffers are distinct, and none is held by a tensor before position
/// `k` or by a resolved tensor.
pub open spec fn free_ok(
    g: Seq<Tensor>,
    a: Seq<Option<GraphBuffer>>,
    free: Seq<GraphBuffer>,
    k: int,
) -> bool {
    &&& forall|f1: int, f2: int|
        0 <= f1 < f2 < free.len() ==> #[trigger] free[f1].0.id != #[trigger] free[f2].0.id
    &&& forall|f: int, j: int|
        0 <= f < free.len() && 0 <= j < g.len() && (j < k || g[j].resolved) && #[trigger] a[j].is_some()
            ==> a[j].unwrap().0.id != #[trigger] free[f].0.id
}

/// Tensors from position `k` on are assigned, and so are the inputs of the
/// unresolved ones.
pub open spec fn processed(g: Seq<Tensor>, a: Seq<Option<GraphBuffer>>, k: int) -> bool {
    forall|j: int|
        k <= j < g.len() ==> #[trigger] a[j].is_some() && (!g[j].resolved ==> forall|m: int|
            0 <= m < g[j].op.srcs@.len() ==> a[g[j].op.srcs@[m] as int].is_some())
}

/// Tensors `i` and `j` are both assigned, to the same physical buffer.
pub open spec fn same_buf(a: Seq<Option<GraphBuffer>>, i: int, j: int) -> bool {
    a[i].is_some() && a[j].is_some() && a[i].unwrap().0.id == a[j].unwrap().0.id
}

/// Among tensors before position `k`, one whose class (the tensors with its
/// true source) is not resolved shares its buffer with its class only.
pub open spec fn pending_exclusive(g: Seq<Tensor>, a: Seq<Option<GraphBuffer>>, k: int) -> bool {
    forall|i: int, j: int|
        0 <= i < k && 0 <= j < k && #[trigger] same_buf(a, i, j) && !g[true_source(g, i)].resolved
            ==> true_source(g, i) == true_source(g, j)
}

/// A resolved tensor's buffer is shared only by tensors whose true source is
/// resolved.
pub open spec fn const_exclusive(g: Seq<Tensor>, a: Seq<Option<GraphBuffer>>) -> bool {
    forall|c: int, j: int|
        0 <= c < g.len() && 0 <= j < g.len() && g[c].resolved && #[trigger] same_buf(a, c, j)
            ==> g[true_source(g, j)].resolved
}

/// When tensors of two unresolved classes share a buffer, the tensors of the
/// earlier class are computed, and read by every unresolved reader, before
/// the later class's first tensor is computed.
pub open spec fn no_overlap(g: Seq<Tensor>, a: Seq<Option<GraphBuffer>>) -> bool {
    forall|i: int, j: int|
        0 <= i < g.len() && 0 <= j < g.len() && #[trigger] same_buf(a, i, j) && true_source(g, i)
            < true_source(g, j) && !g[true_source(g, i)].resolved && !g[true_source(g, j)].resolved
            ==> i < true_source(g, j) && forall|c: int, m: int|
            0 <= c < g.len() && !g[c].resolved && 0 <= m < g[c].op.srcs@.len() && #[trigger] g[c].op.srcs@[m]
                == i ==> c < true_source(g, j)
}

/// What holds of the assignment state while walking an order backwards, with
/// the tensors before position `k` still to visit.
pub open spec fn walk_inv(
    g: Seq<Tensor>,
    pool: PoolView,
    a: Seq<Option<GraphBuffer>>,
    free: Seq<GraphBuffer>,
    k: int,
) -> bool {
    &&& valid_order(g)
    &&& pool.wf()
    &&& a.len() == g.len()
    &&& aliases_ok(g, a)
    &&& sizes_ok(g, a)
    &&& constants_ok(g, a)
    &&& held_leased(pool, a, free)
    &&& free_ok(g, a, free, k)
    &&& pending_exclusive(g, a, k)
    &&& const_exclusive(g, a)
    &&& no_overlap(g, a)
}

proof fn lemma_step_assign(g: Seq<Tensor>, a0: Seq<Option<GraphBuffer>>, k: int, x: int, buf: GraphBuffer)
    requires
        valid_order(g),
        a0.len() == g.len(),
        aliases_ok(g, a0),
        pending_exclusive(g, a0, k),
        const_exclusive(g, a0),
        no_overlap(g, a0),
        processed(g, a0, k),
        0 <= x < k <= g.len(),
        a0[x].is_none(),
        !follows(g, x),
        !g[x].resolved,
        forall|j: int| 0 <= j < g.len() && #[trigger] a0[j].is_some() && a0[j].unwrap().0.id == buf.0.id ==> j >= k && !g[j].resolved,
    ensures
        pending_exclusive(g, a0.update(x, Some(buf)), k),
        const_exclusive(g, a0.update(x, Some(buf))),
        no_overlap(g, a0.update(x, Some(buf))),
{
    let a1 = a0.update(x, Some(buf));
    lemma_true_source(g, x);
    assert forall|j: int| 0 <= j < g.len() && #[trigger] a0[j].is_some() && a0[j].unwrap().0.id == buf.0.id implies true_source(g, j) >= k by {
        lemma_true_source(g, j);
        if follows(g, j) {
            assert(a0[true_source(g, j)] == a0[j]);
        }
    }
    assert forall|c: int, m: int| 0 <= c < g.len() && !g[c].resolved && 0 <= m < g[c].op.srcs@.len() && #[trigger] g[c].op.srcs@[m] == x implies c < k by {
        if c >= k {
            assert(a0[c].is_some());
        }
    }
    assert forall|i: int, j: int| 0 <= i < k && 0 <= j < k && #[trigger] same_buf(a1, i, j) && !g[true_source(g, i)].resolved
        implies true_source(g, i) == true_source(g, j) by {
        if i == x && j != x {
            assert(a0[j].is_some());
        } else if j == x && i != x {
            assert(a0[i].is_some());
        } else if i != x && j != x {
            assert(same_buf(a0, i, j));
        }
    }
    assert forall|c: int, j: int| 0 <= c < g.len() && 0 <= j < g.len() && g[c].resolved && #[trigger] same_buf(a1, c, j)
        implies g[true_source(g, j)].resolved by {
        if j == x {
            assert(a0[c].is_some());
        } else {
            assert(same_buf(a0, c, j));
        }
    }
    assert forall|i: int, j: int| 0 <= i < g.len() && 0 <= j < g.len() && #[trigger] same_buf(a1, i, j) && true_source(g, i)
        < true_source(g, j) && !g[true_source(g, i)].resolved && !g[true_source(g, j)].resolved
        implies i < true_source(g, j) && forall|c: int, m: int|
            0 <= c < g.len() && !g[c].resolved && 0 <= m < g[c].op.srcs@.len() && #[trigger] g[c].op.srcs@[m]
                == i ==> c < true_source(g, j) by {
        lemma_true_source(g, i);
        lemma_true_source(g, j);
        if i == x && j != x {
            assert(a0[j].is_some());
        } else if j == x && i != x {
            assert(a0[i].is_some());
        } else if i != x && j != x {
            assert(same_buf(a0, i, j));
        }
    }
}

proof fn lemma_step_alias(g: Seq<Tensor>, a1: Seq<Option<GraphBuffer>>, k: int, s: int, x: int)
    requires
        valid_order(g),
        a1.len() == g.len(),
        aliases_ok(g, a1),
        pending_exclusive(g, a1, k),
        const_exclusive(g, a1),
        no_overlap(g, a1),
        processed(g, a1, k),
        0 <= s < k <= g.len(),
        follows(g, s),
        true_source(g, s) == x,
        a1[x].is_some(),
        a1[s].is_none(),
    ensures
        pending_exclusive(g, a1.update(s, a1[x]), k),
        const_exclusive(g, a1.update(s, a1[x])),
        no_overlap(g, a1.update(s, a1[x])),
{
    let a2 = a1.update(s, a1[x]);
    lemma_true_source(g, s);
    assert(x != s);
    assert forall|c: int, m: int| 0 <= c < g.len() && !g[c].resolved && 0 <= m < g[c].op.srcs@.len() && #[trigger] g[c].op.srcs@[m] == s implies c < k by {
        if c >= k {
            assert(a1[c].is_some());
        }
    }
    assert forall|i: int, j: int| 0 <= i < k && 0 <= j < k && #[trigger] same_buf(a2, i, j) && !g[true_source(g, i)].resolved
        implies true_source(g, i) == true_source(g, j) by {
        if i == s && j != s {
            assert(same_buf(a1, x, j));
        } else if j == s && i != s {
            assert(same_buf(a1, i, x));
        } else if i != s && j != s {
            assert(same_buf(a1, i, j));
        }
    }
    assert forall|c: int, j: int| 0 <= c < g.len() && 0 <= j < g.len() && g[c].resolved && #[trigger] same_buf(a2, c, j)
        implies g[true_source(g, j)].resolved by {
        if j == s {
            assert(same_buf(a1, c, x));
        } else {
            assert(same_buf(a1, c, j));
        }
    }
    assert forall|i: int, j: int| 0 <= i < g.len() && 0 <= j < g.len() && #[trigger] same_buf(a2, i, j) && true_source(g, i)
        < true_source(g, j) && !g[true_source(g, i)].resolved && !g[true_source(g, j)].resolved
        implies i < true_source(g, j) && forall|c: int, m: int|
            0 <= c < g.len() && !g[c].resolved && 0 <= m < g[c].op.srcs@.len() && #[trigger] g[c].op.srcs@[m]
                == i ==> c < true_source(g, j) by {
        lemma_true_source(g, i);
        lemma_true_source(g, j);
        if i == s && j != s {
            let tj = true_source(g, j);
            if tj < k {
                if follows(g, j) {
                    assert(a1[tj] == a1[j]);
                }
                assert(same_buf(a1, x, tj));
                lemma_true_source(g, tj);
            }
        } else if j == s && i != s {
            assert(same_buf(a1, i, x));
            lemma_true_source(g, x);
        } else if i != s && j != s {
            assert(same_buf(a1, i, j));
        }
    }
}

/// Use counts, capped at two, of every tensor of `g`.
pub open spec fn counts_of(g: Seq<Tensor>, uses: Seq<usize>) -> bool {
    &&& uses.len() == g.len()
    &&& forall|x: int| 0 <= x < g.len() ==> uses[x] == capped(#[trigger] consumers(g, x))
}

/// The outcome of an allocation pass: the buffer of each tensor, by position
/// in the execution order, and the free list the pass ended with.
pub struct AllocationPlan {
    pub assignments: Vec<GraphBuffer>,
    pub free: Vec<GraphBuffer>,
}

/// Some resolved tensor of `g` carries no buffer.
pub open spec fn storage_missing(g: Seq<Tensor>) -> bool {
    exists|i: int| 0 <= i < g.len() && #[trigger] g[i].resolved && g[i].storage.is_none()
}

/// The buffers of resolved tensors are in use, handed out by `pool`.
pub open spec fn constants_leased(g: Seq<Tensor>, pool: PoolView) -> bool {
    forall|i: int|
        0 <= i < g.len() && #[trigger] g[i].resolved && g[i].storage.is_some() ==> pool.leased(
            g[i].storage.unwrap().id,
        )
}

/// Owns the buffer pool; assigns buffers to the tensors of an execution order.
pub struct BufferAllocator {
    pool: BufferPool,
    debug: bool,
}

impl BufferAllocator {
    /// What the pool holds.
    pub closed spec fn pool(&self) -> PoolView {
        self.pool@
    }

    /// Whether reuse of freed graph buffers is switched off.
    pub closed spec fn debug(&self) -> bool {
        self.debug
    }

    pub fn new() -> (r: BufferAllocator)
        ensures
            r.pool().wf(),
            r.pool().buffers.len() == 0,
            r.pool().parked.len() == 0,
            !r.debug(),
    {
        BufferAllocator { pool: BufferPool::new(), debug: false }
    }

    /// Switches reuse of freed graph buffers off (`true`) or on.
    pub fn set_debug(&mut self, on: bool)
        ensures
            final(self).pool() == old(self).pool(),
            final(self).debug() == on,
    {
        self.debug = on;
    }

    pub fn begin_pass(&mut self, pass_index: u64)
        ensures
            final(self).pool() == (PoolView { current_pass: pass_index, ..old(self).pool() }),
            final(self).debug() == old(self).debug(),
    {
        self.pool.begin_pass(pass_index);
    }

    pub fn get(&self, handle: GpuBufferHandle) -> (r: Result<PooledGPUBuffer, AllocatorError>)
        requires
            self.pool().wf(),
        ensures
            r == if handle < self.pool().buffers.len() {
                Ok::<PooledGPUBuffer, AllocatorError>(self.pool().buffers[handle as int])
            } else {
                Err(AllocatorError::BufferNotFound)
            },
    {
        match self.pool.get(handle) {
            Some(b) => Ok(b),
            None => Err(AllocatorError::BufferNotFound),
        }
    }

    pub fn create_buffer(&mut self, desc: &BufferDescriptor) -> (r: PooledGPUBuffer)
        requires
            old(self).pool().wf(),
        ensures
            final(self).pool().wf(),
            final(self).debug() == old(self).debug(),
            final(self).pool().current_pass == old(self).pool().current_pass,
            r.descriptor == *desc,
            final(self).pool().leased(r.id),
            !old(self).pool().leased(r.id),
            (exists|j: int| parks(old(self).pool(), *desc, j)) ==> exists|j: int|
                first_parked(old(self).pool(), *desc, j) && r.id == old(self).pool().parked[j]
                    && r == old(self).pool().buffers[r.id as int]
                    && final(self).pool().buffers == old(self).pool().buffers
                    && final(self).pool().parked == old(self).pool().parked.remove(j),
            !(exists|j: int| parks(old(self).pool(), *desc, j)) ==> {
                &&& r.id == old(self).pool().buffers.len()
                &&& final(self).pool().buffers == old(self).pool().buffers.push(r)
                &&& final(self).pool().parked == old(self).pool().parked
            },
            forall|id: GpuBufferHandle| #[trigger]
                old(self).pool().leased(id) ==> final(self).pool().leased(id),
    {
        let r = self.pool.get_or_create(desc);
        proof {
            if old(self).pool().parked.contains(r.id) {
            } else {
                assert(r.id == old(self).pool().buffers.len()) by {
                    if exists|j: int| parks(old(self).pool(), *desc, j) {
                        let j = choose|j: int|
                            first_parked(old(self).pool(), *desc, j) && r.id == old(
                                self,
                            ).pool().parked[j];
                        assert(old(self).pool().parked[j] == r.id);
                    }
                }
            }
        }
        r
    }

    /// Parks a buffer handed out earlier for reuse by later requests.
    pub fn release(&mut self, handle: GpuBufferHandle)
        requires
            old(self).pool().wf(),
        ensures
            final(self).pool().wf(),
            final(self).debug() == old(self).debug(),
            final(self).pool().buffers == old(self).pool().buffers,
            final(self).pool().parked == if old(self).pool().leased(handle) {
                old(self).pool().parked.push(handle)
            } else {
                old(self).pool().parked
            },
    {
        self.pool.release(handle);
    }

    pub fn total_gpu_size_in_bytes(&self) -> (r: u64)
        ensures
            r == if crate::pool::sum_sizes(self.pool().buffers) <= u64::MAX {
                crate::pool::sum_sizes(self.pool().buffers) as u64
            } else {
                u64::MAX
            },
    {
        self.pool.total_gpu_size_in_bytes()
    }

    pub fn num_resources(&self) -> (r: usize)
        ensures
            r == self.pool().buffers.len(),
    {
        self.pool.num_resources()
    }

    /// Takes the smallest free buffer that holds `descriptor.size` bytes (the
    /// first of that size), or, when none does or reuse is switched off, a
    /// buffer from the pool.
    pub fn graph_allocate(&mut self, descriptor: BufferDescriptor, free: &mut Vec<GraphBuffer>) -> (r:
        GraphBuffer)
        requires
            old(self).pool().wf(),
        ensures
            final(self).pool().wf(),
            final(self).debug() == old(self).debug(),
            final(self).pool().current_pass == old(self).pool().current_pass,
            r.0.descriptor.size >= descriptor.size,
            !old(self).debug() && (exists|j: int| fits(old(free)@, descriptor.size, j)) ==> exists|
                j: int,
            |
                best_fit(old(free)@, descriptor.size, j) && r == old(free)@[j] && final(free)@ == old(
                    free,
                )@.remove(j) && final(self).pool() == old(self).pool(),
            old(self).debug() || !(exists|j: int| fits(old(free)@, descriptor.size, j)) ==> {
                &&& final(free)@ == old(free)@
                &&& r.0.descriptor == descriptor
                &&& final(self).pool().leased(r.0.id)
                &&& !old(self).pool().leased(r.0.id)
                &&& forall|id: GpuBufferHandle| #[trigger]
                    old(self).pool().leased(id) ==> final(self).pool().leased(id)
                &&& !(exists|j: int| parks(old(self).pool(), descriptor, j)) ==> final(self).pool().buffers
                    == old(self).pool().buffers.push(r.0) && final(self).pool().parked == old(
                    self,
                ).pool().parked
            },
    {
        let required = descriptor.size;
        let mut closest: Option<usize> = None;
        let mut idx: usize = 0;
        while idx < free.len()
            invariant
                0 <= idx <= free@.len(),
                match closest {
                    None => forall|i: int| 0 <= i < idx ==> !#[trigger] fits(free@, required, i),
                    Some(b) => {
                        &&& b < idx
                        &&& fits(free@, required, b as int)
                        &&& forall|i: int|
                            0 <= i < idx && #[trigger] fits(free@, required, i)
                                ==> free@[i].0.descriptor.size >= free@[b as int].0.descriptor.size
                        &&& forall|i: int|
                            0 <= i < b && #[trigger] fits(free@, required, i)
                                ==> free@[i].0.descriptor.size > free@[b as int].0.descriptor.size
                    },
                },
            decreases free@.len() - idx,
        {
            let size = free[idx].0.descriptor.size;
            if size >= required {
                match closest {
                    None => {
                        closest = Some(idx);
                    },
                    Some(b) => {
                        if size - required < free[b].0.descriptor.size - required {
                            closest = Some(idx);
                        }
                    },
                }
            }
            idx = idx + 1;
        }
        if self.debug {
            return GraphBuffer::from(self.create_buffer(&descriptor));
        }
        match closest {
            Some(b) => {
                assert(best_fit(free@, required, b as int));
                free.remove(b)
            },
            None => {
                GraphBuffer::from(self.create_buffer(&descriptor))
            },
        }
    }

    /// Makes sure the tensor whose buffer `s` writes into has a buffer, and
    /// assigns that buffer to `s` too.
    #[verifier::rlimit(100)]
    #[verifier::spinoff_prover]
    fn lease_source(
        &mut self,
        order: &[Tensor],
        uses: &Vec<usize>,
        a: &mut Vec<Option<GraphBuffer>>,
        free: &mut Vec<GraphBuffer>,
        s: usize,
        k: Ghost<int>,
        st: Ghost<PassModel>,
        ren: Ghost<Seq<usize>>,
    ) -> (r: Ghost<(PassModel, Seq<usize>)>)
        requires
            walk_inv(order@, old(self).pool(), old(a)@, old(free)@, k@),
            processed(order@, old(a)@, k@),
            counts_of(order@, uses@),
            s < k@ <= order@.len(),
            refines(order@, st@, old(a)@, old(free)@, ren@),
            forall|v: int| 0 <= v < ren@.len() ==> old(self).pool().leased(#[trigger] ren@[v]),
        ensures
            r@.0 == m_lease(order@, old(self).debug(), st@, s as int),
            refines(order@, r@.0, final(a)@, final(free)@, r@.1),
            forall|v: int| 0 <= v < r@.1.len() ==> final(self).pool().leased(#[trigger] r@.1[v]),
            walk_inv(order@, final(self).pool(), final(a)@, final(free)@, k@),
            final(self).debug() == old(self).debug(),
            final(a)@[s as int].is_some(),
            forall|i: int| 0 <= i < old(a)@.len() && #[trigger] old(a)@[i].is_some() ==> final(a)@[i] == old(a)@[i],
            old(self).debug() && old(self).pool().parked.len() == 0 && no_inplace_sharing(order@) ==> {
                &&& final(self).pool().parked.len() == 0
                &&& final(self).pool().buffers.len() + assigned_count(order@, old(a)@, order@.len() as int)
                    == old(self).pool().buffers.len() + assigned_count(order@, final(a)@, order@.len() as int)
            },
    {
        let ghost g = order@;
        let ghost debug = self.debug();
        let ghost mut stc = st@;
        let ghost mut renc = ren@;
        let x = determine_tensor_source(order, uses, s);
        proof {
            lemma_true_source(g, s as int);
        }
        if a[x].is_none() {
            let ghost a0 = a@;
            let ghost f0 = free@;
            let ghost p0 = self.pool();
            let desc = BufferDescriptor::new(order[x].num_bytes, UsageFlags::standard(), false);
            let buf = self.graph_allocate(desc, free);
            a.set(x, Some(buf));
            proof {
                assert(!g[x as int].resolved);
                assert forall|j: int| 0 <= j < g.len() && #[trigger] a0[j].is_some() && a0[j].unwrap().0.id == buf.0.id
                    implies j >= k@ && !g[j].resolved by {
                    if self.pool() == p0 && free@.len() < f0.len() {
                        let jf = choose|jf: int| best_fit(f0, desc.size, jf) && buf == f0[jf] && free@ == f0.remove(jf);
                        if j < k@ || g[j].resolved {
                            assert(a0[j].unwrap().0.id != f0[jf].0.id);
                        }
                    } else {
                        assert(p0.leased(a0[j].unwrap().0.id));
                    }
                }
                lemma_step_assign(g, a0, k@, x as int, buf);
                let sz = free_sizes(st@);
                assert forall|i: int| 0 <= i < f0.len() implies #[trigger] sz[i] == f0[i].0.descriptor.size by {
                    assert(0 <= st@.free[i] < ren@.len());
                }
                lemma_best_upto(sz, desc.size, f0.len() as int);
                let (st2, v) = m_alloc(st@, g[x as int].num_bytes, debug);
                assert(a0[x as int].is_some() <==> st@.slot[x as int].is_some());
                assert(st@.slot[x as int].is_none());
                if !debug && exists|j: int| fits(f0, desc.size, j) {
                    let j = choose|j: int| best_fit(f0, desc.size, j) && buf == f0[j] && free@ == f0.remove(j) && self.pool() == p0;
                    let b = best_upto(sz, desc.size, f0.len() as int);
                    assert(fits(f0, desc.size, j));
                    assert(b is Some) by {
                        if b is None {
                            assert(sz[j] < desc.size);
                        }
                    }
                    let j2 = b.unwrap();
                    assert(fits(f0, desc.size, j2));
                    assert(j2 == j) by {
                        assert(sz[j] == f0[j].0.descriptor.size);
                        assert(sz[j2] == f0[j2].0.descriptor.size);
                        assert(sz[j] >= sz[j2]);
                        assert(f0[j2].0.descriptor.size >= f0[j].0.descriptor.size);
                        if j2 < j {
                            assert(f0[j2].0.descriptor.size > f0[j].0.descriptor.size);
                        } else if j < j2 {
                            assert(sz[j] > sz[j2]);
                        }
                    }
                    assert(v == st@.free[j]);
                    assert(st2.free == st@.free.remove(j));
                    assert(st2.sizes == st@.sizes);
                    stc = PassModel { slot: st2.slot.update(x as int, Some(v)), ..st2 };
                    renc = ren@;
                    assert forall|f: int| 0 <= f < free@.len() implies 0 <= #[trigger] stc.free[f] < renc.len() && free@[f].0.id == renc[stc.free[f]]
                        && free@[f].0.descriptor.size == stc.sizes[stc.free[f]] by {
                        if f < j {
                            assert(0 <= st@.free[f] < ren@.len());
                        } else {
                            assert(0 <= st@.free[f + 1] < ren@.len());
                        }
                    }
                    assert(0 <= st@.free[j] < ren@.len());
                } else {
                    let b = best_upto(sz, desc.size, f0.len() as int);
                    if !debug {
                        assert(b is None) by {
                            if b is Some {
                                assert(fits(f0, desc.size, b.unwrap()));
                            }
                        }
                    }
                    assert(v == st@.sizes.len());
                    stc = PassModel { slot: st2.slot.update(x as int, Some(v)), ..st2 };
                    renc = ren@.push(buf.0.id);
                    assert forall|f: int| 0 <= f < free@.len() implies 0 <= #[trigger] stc.free[f] < renc.len() && free@[f].0.id == renc[stc.free[f]]
                        && free@[f].0.descriptor.size == stc.sizes[stc.free[f]] by {
                        assert(0 <= st@.free[f] < ren@.len());
                    }
                    assert forall|v1: int, v2: int|
                        0 <= v1 < renc.len() && 0 <= v2 < renc.len() && v1 != v2 implies #[trigger] renc[v1] != #[trigger] renc[v2] by {
                        if v1 < ren@.len() && v2 < ren@.len() {
                        } else if v1 < ren@.len() {
                            assert(p0.leased(ren@[v1]));
                        } else if v2 < ren@.len() {
                            assert(p0.leased(ren@[v2]));
                        }
                    }
                    assert forall|vv: int, c: int|
                        0 <= vv < renc.len() && 0 <= c < g.len() && #[trigger] g[c].resolved implies #[trigger] renc[vv]
                            != g[c].storage.unwrap().id by {
                        if vv == ren@.len() {
                            assert(a0[c].is_some());
                            assert(p0.leased(a0[c].unwrap().0.id));
                        }
                    }
                }
                assert forall|i: int| 0 <= i < a@.len() && #[trigger] stc.slot[i].is_some() implies {
                    let w = stc.slot[i].unwrap();
                    &&& w < renc.len()
                    &&& a@[i].unwrap().0.id == id_of(renc, w)
                    &&& w >= 0 ==> a@[i].unwrap().0.descriptor.size == stc.sizes[w]
                    &&& w < 0 ==> g[true_source(g, i)].resolved && w == -(g[true_source(g, i)].storage.unwrap().id as int) - 1
                } by {
                    if i != x {
                        assert(st@.slot[i].is_some());
                    }
                }
                assert forall|i: int| 0 <= i < a@.len() implies (#[trigger] a@[i].is_some() <==> stc.slot[i].is_some()) by {
                    if i != x {
                        assert(a0[i].is_some() <==> st@.slot[i].is_some());
                    }
                }
                assert(refines(g, stc, a@, free@, renc));
                assert forall|vv: int| 0 <= vv < renc.len() implies self.pool().leased(#[trigger] renc[vv]) by {
                    if vv < ren@.len() {
                        assert(p0.leased(ren@[vv]));
                    }
                }
                lemma_assigned_count_set(g, a0, x as int, buf, g.len() as int);
                assert(a@ == a0.update(x as int, Some(buf)));
                if p0.parked.len() == 0 {
                    assert(!(exists|j: int| parks(p0, desc, j)));
                }
                assert(!g[x as int].resolved);
                assert forall|i: int| 0 <= i < g.len() && #[trigger] a@[i].is_some() && follows(g, i)
                    implies a@[true_source(g, i)].is_some() && a@[i] == a@[true_source(g, i)] by {
                    if i != x {
                        lemma_true_source(g, i);
                        assert(a0[i].is_some());
                        assert(a0[true_source(g, i)].is_some());
                        assert(true_source(g, i) != x);
                    }
                }
                assert(forall|id: GpuBufferHandle| #[trigger] p0.leased(id) ==> self.pool().leased(id));
                if self.pool() == p0 && free@.len() < f0.len() {
                    let j = choose|j: int| best_fit(f0, desc.size, j) && buf == f0[j] && free@ == f0.remove(j);
                    assert forall|f: int| 0 <= f < free@.len() implies #[trigger] free@[f].0.id != buf.0.id by {
                        if f < j {
                            assert(f0[f].0.id != f0[j].0.id);
                        } else {
                            assert(f0[f + 1].0.id != f0[j].0.id);
                        }
                    }
                    assert forall|f1: int, f2: int| 0 <= f1 < f2 < free@.len() implies #[trigger] free@[f1].0.id
                        != #[trigger] free@[f2].0.id by {
                        let a1 = if f1 < j { f1 } else { f1 + 1 };
                        let a2 = if f2 < j { f2 } else { f2 + 1 };
                        assert(f0[a1].0.id != f0[a2].0.id);
                    }
                    assert forall|f: int| 0 <= f < free@.len() implies self.pool().leased(#[trigger] free@[f].0.id) by {
                        if f < j {
                            assert(p0.leased(f0[f].0.id));
                        } else {
                            assert(p0.leased(f0[f + 1].0.id));
                        }
                    }
                    assert forall|f: int, jj: int|
                        0 <= f < free@.len() && 0 <= jj < g.len() && (jj < k@ || g[jj].resolved) && #[trigger] a@[jj].is_some()
                        implies a@[jj].unwrap().0.id != #[trigger] free@[f].0.id by {
                        if jj != x {
                            if f < j {
                                assert(a0[jj].unwrap().0.id != f0[f].0.id);
                            } else {
                                assert(a0[jj].unwrap().0.id != f0[f + 1].0.id);
                            }
                        }
                    }
                    assert(p0.leased(f0[j].0.id));
                } else {
                    assert(free@ == f0);
                    assert forall|f: int| 0 <= f < free@.len() implies self.pool().leased(#[trigger] free@[f].0.id) by {
                        assert(p0.leased(f0[f].0.id));
                    }
                    assert forall|f: int, jj: int|
                        0 <= f < free@.len() && 0 <= jj < g.len() && (jj < k@ || g[jj].resolved) && #[trigger] a@[jj].is_some()
                        implies a@[jj].unwrap().0.id != #[trigger] free@[f].0.id by {
                        if jj != x {
                            assert(a0[jj].unwrap().0.id != f0[f].0.id);
                        } else {
                            assert(p0.leased(f0[f].0.id));
                        }
                    }
                }
                assert forall|i: int| 0 <= i < a@.len() && #[trigger] a@[i].is_some() implies self.pool().leased(a@[i].unwrap().0.id) by {
                    if i != x {
                        assert(p0.leased(a0[i].unwrap().0.id));
                    }
                }
            }
        }
        if x != s {
            let ghost a1 = a@;
            let b = a[x];
            a.set(s, b);
            proof {
                assert(follows(g, s as int));
                let st1 = stc;
                stc = PassModel { slot: st1.slot.update(s as int, st1.slot[x as int]), ..st1 };
                if a1[s as int].is_none() {
                    lemma_step_alias(g, a1, k@, s as int, x as int);
                } else {
                    assert(a1[s as int] == a1[x as int]);
                    assert(a@ =~= a1);
                }
                assert(st1.slot[x as int].is_some());
                assert forall|i: int| 0 <= i < a@.len() && #[trigger] stc.slot[i].is_some() implies {
                    let w = stc.slot[i].unwrap();
                    &&& w < renc.len()
                    &&& a@[i].unwrap().0.id == id_of(renc, w)
                    &&& w >= 0 ==> a@[i].unwrap().0.descriptor.size == stc.sizes[w]
                    &&& w < 0 ==> g[true_source(g, i)].resolved && w == -(g[true_source(g, i)].storage.unwrap().id as int) - 1
                } by {
                    if i != s {
                        assert(st1.slot[i].is_some());
                    } else {
                        assert(st1.slot[x as int].is_some());
                        lemma_true_source(g, x as int);
                    }
                }
                assert forall|i: int| 0 <= i < a@.len() implies (#[trigger] a@[i].is_some() <==> stc.slot[i].is_some()) by {
                    if i != s {
                        assert(a1[i].is_some() <==> st1.slot[i].is_some());
                    }
                }
                assert(refines(g, stc, a@, free@, renc));
                assert forall|i: int| 0 <= i < g.len() && #[trigger] a@[i].is_some() && follows(g, i)
                    implies a@[true_source(g, i)].is_some() && a@[i] == a@[true_source(g, i)] by {
                    if i != s {
                        assert(a1[i].is_some());
                        lemma_true_source(g, i);
                    }
                }
                assert forall|f: int, jj: int|
                    0 <= f < free@.len() && 0 <= jj < g.len() && (jj < k@ || g[jj].resolved) && #[trigger] a@[jj].is_some()
                    implies a@[jj].unwrap().0.id != #[trigger] free@[f].0.id by {
                    if jj == s {
                        assert(a1[x as int].is_some());
                    } else {
                        assert(a1[jj].is_some());
                    }
                }
                assert(aliases_ok(g, a@));
            }
        }
        Ghost((stc, renc))
    }

    /// One allocation pass over `order`: seeds resolved tensors with their
    /// buffers, gives the output a buffer, then walks the order backwards,
    /// leasing a buffer for each input of each tensor and freeing each tensor's
    /// buffer for earlier tensors once nothing before it holds it.
    #[verifier::rlimit(100)]
    #[verifier::spinoff_prover]
    pub fn allocate_plan(&mut self, order: &[Tensor]) -> (r: Result<AllocationPlan, AllocatorError>)
        requires
            old(self).pool().wf(),
            valid_order(order@),
            constants_leased(order@, old(self).pool()),
        ensures
            final(self).pool().wf(),
            final(self).debug() == old(self).debug(),
            r is Err <==> storage_missing(order@),
            r is Err ==> r == Err::<AllocationPlan, AllocatorError>(AllocatorError::BufferNotFound),
            old(self).debug() && old(self).pool().parked.len() == 0 && no_inplace_sharing(order@) && r is Ok
                ==> final(self).pool().buffers.len() == old(self).pool().buffers.len() + nonconstant_count(
                order@,
                order@.len() as int,
            ),
            r matches Ok(p) ==> {
                let g = order@;
                let a = p.assignments@;
                &&& assignment_laws(g, a)
                &&& lifetimes_disjoint(g, a)
                &&& follows_model(g, old(self).debug(), a)
                &&& forall|f: int, i: int| 0 <= f < p.free@.len() && 0 <= i < g.len() && #[trigger] g[i].resolved
                    ==> #[trigger] p.free@[f].0.id != a[i].0.id
                &&& forall|i: int| 0 <= i < g.len() ==> final(self).pool().leased(#[trigger] a[i].0.id)
            },
    {
        let ghost g = order@;
        let n = order.len();
        let mut i: usize = 0;
        while i < n
            invariant
                n == g.len(),
                g == order@,
                0 <= i <= n,
                self.pool() == old(self).pool(),
                self.pool().wf(),
                self.debug() == old(self).debug(),
                forall|j: int| 0 <= j < i ==> !(#[trigger] g[j].resolved && g[j].storage.is_none()),
            decreases n - i,
        {
            if order[i].resolved && order[i].storage.is_none() {
                return Err(AllocatorError::BufferNotFound);
            }
            i = i + 1;
        }
        let uses = consumer_counts(order);
        let mut a: Vec<Option<GraphBuffer>> = Vec::new();
        let mut i: usize = 0;
        while i < n
            invariant
                n == g.len(),
                g == order@,
                valid_order(g),
                !storage_missing(g),
                self.pool() == old(self).pool(),
                self.debug() == old(self).debug(),
                0 <= i <= n,
                a@.len() == i,
                forall|j: int| 0 <= j < i ==> #[trigger] a@[j] == if g[j].resolved {
                    Some(GraphBuffer(g[j].storage.unwrap()))
                } else {
                    None::<GraphBuffer>
                },
            decreases n - i,
        {
            if order[i].resolved {
                match order[i].storage {
                    Some(b) => a.push(Some(GraphBuffer(b))),
                    None => a.push(None),
                }
            } else {
                a.push(None);
            }
            i = i + 1;
        }
        let mut free: Vec<GraphBuffer> = Vec::new();
        proof {
            assert forall|j: int| 0 <= j < g.len() && #[trigger] g[j].resolved implies g[j].storage.is_some() by {
                if g[j].storage.is_none() {
                    assert(storage_missing(g));
                }
            }
            assert(walk_inv(g, self.pool(), a@, free@, n as int));
            lemma_assigned_count_bounds(g, a@, n as int);
        }
        let ghost d = old(self).debug();
        let ghost st0 = m_init(g);
        proof {
            assert forall|i: int| 0 <= i < a@.len() && #[trigger] st0.slot[i].is_some() implies {
                let w = st0.slot[i].unwrap();
                &&& w < 0
                &&& a@[i].unwrap().0.id == id_of(Seq::<usize>::empty(), w)
                &&& w < 0 ==> g[true_source(g, i)].resolved && w == -(g[true_source(g, i)].storage.unwrap().id as int) - 1
            } by {
                assert(g[i].resolved);
                assert(!follows(g, i));
            }
            assert(refines(g, st0, a@, free@, Seq::<usize>::empty()));
        }
        let gr = self.lease_source(order, &uses, &mut a, &mut free, n - 1, Ghost(n as int), Ghost(st0), Ghost(Seq::<usize>::empty()));
        let ghost mut stc = gr@.0;
        let ghost mut renc = gr@.1;
        let mut k: usize = n;
        while k > 0
            invariant
                n == g.len(),
                g == order@,
                0 <= k <= n,
                counts_of(g, uses@),
                walk_inv(g, self.pool(), a@, free@, k as int),
                processed(g, a@, k as int),
                a@[n - 1].is_some(),
                self.debug() == old(self).debug(),
                d == old(self).debug(),
                refines(g, stc, a@, free@, renc),
                forall|v: int| 0 <= v < renc.len() ==> self.pool().leased(#[trigger] renc[v]),
                m_walk(g, d, stc, k as int) == pass_model(g, d),
                (old(self).debug() && old(self).pool().parked.len() == 0 && no_inplace_sharing(g)) ==> self.pool().parked.len() == 0
                    && self.pool().buffers.len() == old(self).pool().buffers.len() + assigned_count(g, a@, n as int),
            decreases k,
        {
            let t = k - 1;
            let ghost st_start = stc;
            if !order[t].resolved {
                let srcs = &order[t].op.srcs;
                let mut m: usize = 0;
                while m < srcs.len()
                    invariant
                        n == g.len(),
                        g == order@,
                        0 <= t < k <= n,
                        srcs@ == g[t as int].op.srcs@,
                        0 <= m <= srcs@.len(),
                        counts_of(g, uses@),
                        walk_inv(g, self.pool(), a@, free@, k as int),
                        processed(g, a@, k as int),
                        a@[n - 1].is_some(),
                        forall|mm: int| 0 <= mm < m ==> a@[#[trigger] srcs@[mm] as int].is_some(),
                        self.debug() == old(self).debug(),
                        d == old(self).debug(),
                        refines(g, stc, a@, free@, renc),
                        forall|v: int| 0 <= v < renc.len() ==> self.pool().leased(#[trigger] renc[v]),
                        stc == m_lease_srcs(g, d, st_start, t as int, m as int),
                        (old(self).debug() && old(self).pool().parked.len() == 0 && no_inplace_sharing(g)) ==> self.pool().parked.len() == 0
                    && self.pool().buffers.len() == old(self).pool().buffers.len() + assigned_count(g, a@, n as int),

                    decreases srcs@.len() - m,
                {
                    let ghost a0 = a@;
                    assert(g[t as int].op.srcs@[m as int] < t);
                    let gr = self.lease_source(order, &uses, &mut a, &mut free, srcs[m], Ghost(k as int), Ghost(stc), Ghost(renc));
                    proof {
                        stc = gr@.0;
                        renc = gr@.1;
                    }
                    proof {
                        assert forall|mm: int| 0 <= mm < m + 1 implies a@[#[trigger] srcs@[mm] as int].is_some() by {
                            if mm < m {
                                assert(a0[srcs@[mm] as int].is_some());
                            }
                        }
                        assert forall|j: int| k <= j < g.len() implies #[trigger] a@[j].is_some() && (!g[j].resolved ==> forall|mm: int|
                            0 <= mm < g[j].op.srcs@.len() ==> a@[g[j].op.srcs@[mm] as int].is_some()) by {
                            assert(a0[j].is_some());
                            if !g[j].resolved {
                                assert forall|mm: int| 0 <= mm < g[j].op.srcs@.len() implies a@[g[j].op.srcs@[mm] as int].is_some() by {
                                    assert(g[j].op.srcs@[mm] < j);
                                    assert(a0[g[j].op.srcs@[mm] as int].is_some());
                                }
                            }
                        }
                        assert(a0[n - 1].is_some());
                    }
                    m = m + 1;
                }
                let ghost st1 = stc;
                assert(a@[t as int].is_some() <==> stc.slot[t as int].is_some());
                if a[t].is_none() {
                    let ghost a0 = a@;
                    let gr = self.lease_source(order, &uses, &mut a, &mut free, t, Ghost(k as int), Ghost(stc), Ghost(renc));
                    proof {
                        stc = gr@.0;
                        renc = gr@.1;
                    }
                    proof {
                        assert forall|mm: int| 0 <= mm < srcs@.len() implies a@[#[trigger] srcs@[mm] as int].is_some() by {
                            assert(a0[srcs@[mm] as int].is_some());
                        }
                        assert forall|j: int| k <= j < g.len() implies #[trigger] a@[j].is_some() && (!g[j].resolved ==> forall|mm: int|
                            0 <= mm < g[j].op.srcs@.len() ==> a@[g[j].op.srcs@[mm] as int].is_some()) by {
                            assert(a0[j].is_some());
                            if !g[j].resolved {
                                assert forall|mm: int| 0 <= mm < g[j].op.srcs@.len() implies a@[g[j].op.srcs@[mm] as int].is_some() by {
                                    assert(g[j].op.srcs@[mm] < j);
                                    assert(a0[g[j].op.srcs@[mm] as int].is_some());
                                }
                            }
                        }
                        assert(a0[n - 1].is_some());
                    }
                }
                let ghost st2 = stc;
                let buf = a[t].unwrap();
                let mut held = false;
                let mut j: usize = 0;
                while j < n
                    invariant
                        n == g.len(),
                        g == order@,
                        a@.len() == n,
                        0 <= t < n,
                        0 <= j <= n,
                        !held ==> forall|jj: int| 0 <= jj < j && (jj < t || g[jj].resolved) && #[trigger] a@[jj].is_some()
                            ==> a@[jj].unwrap().0.id != buf.0.id,
                        held ==> exists|jj: int| 0 <= jj < j && (jj < t || g[jj].resolved) && #[trigger] a@[jj].is_some()
                            && a@[jj].unwrap().0.id == buf.0.id,
                    decreases n - j,
                {
                    if j < t || order[j].resolved {
                        match a[j] {
                            Some(b) => {
                                if b.0.id == buf.0.id {
                                    held = true;
                                }
                            },
                            None => {},
                        }
                    }
                    j = j + 1;
                }
                proof {
                    let v = st2.slot[t as int].unwrap();
                    assert(st2.slot[t as int].is_some());
                    let ex = exists|jj: int| 0 <= jj < g.len() && (jj < t || g[jj].resolved) && st2.slot[jj] == Some(v);
                    assert(held <==> ex) by {
                        if held {
                            let jj = choose|jj: int| 0 <= jj < n && (jj < t || g[jj].resolved) && #[trigger] a@[jj].is_some() && a@[jj].unwrap().0.id == buf.0.id;
                            lemma_same_id_same_slot(g, st2, a@, free@, renc, jj, t as int);
                        }
                        if ex {
                            let jj = choose|jj: int| 0 <= jj < g.len() && (jj < t || g[jj].resolved) && st2.slot[jj] == Some(v);
                            assert(st2.slot[jj].is_some());
                            lemma_same_id_same_slot(g, st2, a@, free@, renc, jj, t as int);
                        }
                    }
                    if !held {
                        lemma_true_source(g, t as int);
                        if v < 0 {
                            let c = true_source(g, t as int);
                            assert(st2.slot[c] == Some(v));
                        }
                    }
                    stc = m_release(g, st2, t as int);
                }
                if !held {
                    let ghost f0 = free@;
                    free.push(buf);
                    proof {
                        assert(a@[t as int].is_some());
                        assert forall|f: int| 0 <= f < f0.len() implies #[trigger] f0[f].0.id != buf.0.id by {
                            assert(a@[t as int].unwrap().0.id != f0[f].0.id);
                        }
                        assert forall|f1: int, f2: int| 0 <= f1 < f2 < free@.len() implies #[trigger] free@[f1].0.id
                            != #[trigger] free@[f2].0.id by {
                            if f2 < f0.len() {
                                assert(f0[f1].0.id != f0[f2].0.id);
                            } else {
                                assert(f0[f1].0.id != buf.0.id);
                            }
                        }
                        assert forall|f: int, jj: int|
                            0 <= f < free@.len() && 0 <= jj < g.len() && (jj < t || g[jj].resolved) && #[trigger] a@[jj].is_some()
                            implies a@[jj].unwrap().0.id != #[trigger] free@[f].0.id by {
                            if f < f0.len() {
                                assert(a@[jj].unwrap().0.id != f0[f].0.id);
                            }
                        }
                        assert forall|f: int| 0 <= f < free@.len() implies self.pool().leased(#[trigger] free@[f].0.id) by {
                            if f < f0.len() {
                                assert(self.pool().leased(f0[f].0.id));
                            }
                        }
                    }
                }
                proof {
                    assert(stc == m_visit(g, d, st_start, t as int));
                    assert(refines(g, stc, a@, free@, renc)) by {
                        if !held {
                            let v = st2.slot[t as int].unwrap();
                            assert(a@[t as int].is_some());
                            assert forall|f: int| 0 <= f < free@.len() implies 0 <= #[trigger] stc.free[f] < renc.len() && free@[f].0.id == renc[stc.free[f]]
                                && free@[f].0.descriptor.size == stc.sizes[stc.free[f]] by {
                                if f < free@.len() - 1 {
                                    assert(0 <= st2.free[f] < renc.len());
                                }
                            }
                        }
                    }
                    assert(free_ok(g, a@, free@, t as int));
                    assert forall|jj: int| t <= jj < g.len() implies #[trigger] a@[jj].is_some() && (!g[jj].resolved ==> forall|mm: int|
                        0 <= mm < g[jj].op.srcs@.len() ==> a@[g[jj].op.srcs@[mm] as int].is_some()) by {
                        if jj == t {
                            assert forall|mm: int| 0 <= mm < g[jj].op.srcs@.len() implies a@[g[jj].op.srcs@[mm] as int].is_some() by {
                                assert(a@[srcs@[mm] as int].is_some());
                            }
                        }
                    }
                }
            } else {
                proof {
                    assert(stc == m_visit(g, d, st_start, t as int));
                    assert(a@[t as int].is_some());
                    assert forall|jj: int| t <= jj < g.len() implies #[trigger] a@[jj].is_some() && (!g[jj].resolved ==> forall|mm: int|
                        0 <= mm < g[jj].op.srcs@.len() ==> a@[g[jj].op.srcs@[mm] as int].is_some()) by {
                        if jj > t {
                            assert(processed(g, a@, k as int));
                        }
                    }
                }
            }
            k = t;
        }
        let mut out: Vec<GraphBuffer> = Vec::new();
        let mut i: usize = 0;
        while i < n
            invariant
                n == g.len(),
                a@.len() == n,
                processed(g, a@, 0),
                0 <= i <= n,
                out@.len() == i,
                forall|j: int| 0 <= j < i ==> out@[j] == #[trigger] a@[j].unwrap(),
            decreases n - i,
        {
            assert(a@[i as int].is_some());
            out.push(a[i].unwrap());
            i = i + 1;
        }
        proof {
            let ao = out@;
            assert forall|x: int| 0 <= x < n implies #[trigger] a@[x].is_some() by {
                assert(processed(g, a@, 0));
            }
            lemma_assigned_count_bounds(g, a@, n as int);
            assert(m_walk(g, d, stc, 0) == stc);
            assert forall|x: int, y: int| 0 <= x < g.len() && 0 <= y < g.len() implies (#[trigger] shares(ao, x, y)
                <==> pass_model(g, d).slot[x] == pass_model(g, d).slot[y]) by {
                assert(a@[x].is_some());
                assert(a@[y].is_some());
                lemma_same_id_same_slot(g, stc, a@, free@, renc, x, y);
            }
            assert forall|x: int| 0 <= x < g.len() && follows(g, x) implies #[trigger] ao[x] == ao[true_source(g, x)] by {
                lemma_true_source(g, x);
                assert(a@[x].is_some());
            }
            assert forall|x: int| 0 <= x < g.len() implies #[trigger] ao[x].0.descriptor.size >= g[x].num_bytes by {
                assert(a@[x].is_some());
            }
            assert forall|f: int, x: int| 0 <= f < free@.len() && 0 <= x < g.len() && #[trigger] g[x].resolved
                implies #[trigger] free@[f].0.id != ao[x].0.id by {
                assert(a@[x].is_some());
            }
            assert forall|x: int| 0 <= x < g.len() implies self.pool().leased(#[trigger] ao[x].0.id) by {
                assert(a@[x].is_some());
            }
            assert forall|x: int| 0 <= x < g.len() && #[trigger] g[x].resolved implies ao[x] == GraphBuffer(g[x].storage.unwrap()) by {
                assert(a@[x].is_some());
            }
            assert forall|x: int, y: int| 0 <= x < g.len() && 0 <= y < g.len() implies (#[trigger] shares(ao, x, y)
                <==> same_buf(a@, x, y)) by {
                assert(a@[x].is_some());
                assert(a@[y].is_some());
            }
        }
        Ok(AllocationPlan { assignments: out, free })
    }

    /// One allocation pass over `execution_order`; the buffer of every tensor,
    /// keyed by tensor id.
    pub fn allocate_cfg(&mut self, execution_order: &[Tensor]) -> (r: Result<
        FxHashMap<TensorId, GraphBuffer>,
        AllocatorError,
    >)
        requires
            old(self).pool().wf(),
            valid_order(execution_order@),
            constants_leased(execution_order@, old(self).pool()),
        ensures
            final(self).pool().wf(),
            final(self).debug() == old(self).debug(),
            r is Err <==> storage_missing(execution_order@),
            r is Err ==> r == Err::<FxHashMap<TensorId, GraphBuffer>, AllocatorError>(
                AllocatorError::BufferNotFound,
            ),
            r matches Ok(m) ==> keyed_laws(execution_order@, m@),
            r matches Ok(m) ==> follows_model(
                execution_order@,
                old(self).debug(),
                by_position(execution_order@, m@),
            ),
            old(self).debug() && old(self).pool().parked.len() == 0 && no_inplace_sharing(execution_order@)
                && r is Ok ==> final(self).pool().buffers.len() == old(self).pool().buffers.len()
                + nonconstant_count(execution_order@, execution_order@.len() as int),
    {
        let ghost g = execution_order@;
        let plan = match self.allocate_plan(execution_order) {
            Ok(p) => p,
            Err(e) => {
                return Err(e);
            },
        };
        let a = plan.assignments;
        let mut m: FxHashMap<TensorId, GraphBuffer> = FxHashMap::default();
        let n = execution_order.len();
        let mut i: usize = 0;
        while i < n
            invariant
                n == g.len(),
                g == execution_order@,
                a@.len() == n,
                valid_order(g),
                assignment_laws(g, a@),
                lifetimes_disjoint(g, a@),
                follows_model(g, old(self).debug(), a@),
                0 <= i <= n,
                forall|j: int| 0 <= j < i ==> #[trigger] m@.contains_key(g[j].id) && m@[g[j].id] == a@[j],
                forall|key: TensorId| #[trigger] m@.contains_key(key) ==> exists|j: int| 0 <= j < i && g[j].id == key,
            decreases n - i,
        {
            insert_assignment(&mut m, execution_order[i].id, a[i]);
            proof {
                assert forall|j: int| 0 <= j < i + 1 implies #[trigger] m@.contains_key(g[j].id) && m@[g[j].id] == a@[j] by {
                    if j < i {
                        assert(g[j].id != g[i as int].id);
                    }
                }
                assert forall|key: TensorId| #[trigger] m@.contains_key(key) implies exists|j: int| 0 <= j < i + 1 && g[j].id == key by {
                    if key != g[i as int].id {
                        let j = choose|j: int| 0 <= j < i && g[j].id == key;
                    }
                }
            }
            i = i + 1;
        }
        proof {
            lemma_keyed_laws(g, a@, m@);
        }
        Ok(m)
    }

    /// Pads a uniform block (see `pad_uniform`) and takes a buffer for it with
    /// usage UNIFORM | COPY_DST; returns the buffer and the bytes to upload.
    pub fn create_uniform_init(&mut self, uniform: Vec<u8>) -> (r: (PooledGPUBuffer, Vec<u8>))
        requires
            old(self).pool().wf(),
            uniform@.len() + UNIFORM_ALIGN <= usize::MAX,
        ensures
            final(self).pool().wf(),
            final(self).debug() == old(self).debug(),
            r.1@.len() == padded_len(uniform@.len() as int),
            r.1@.subrange(0, uniform@.len() as int) == uniform@,
            forall|i: int| uniform@.len() <= i < r.1@.len() ==> #[trigger] r.1@[i] == 0u8,
            r.0.descriptor == (BufferDescriptor {
                size: r.1@.len() as u64,
                usage: UsageFlags { bits: UNIFORM | COPY_DST },
                mapped_at_creation: false,
            }),
            final(self).pool().leased(r.0.id),
    {
        let padded = pad_uniform(uniform);
        let desc = BufferDescriptor::new(
            padded.len() as u64,
            UsageFlags::from_bits(UNIFORM).union(UsageFlags::from_bits(COPY_DST)),
            false,
        );
        let buf = self.create_buffer(&desc);
        (buf, padded)
    }

    /// Whether `order` is a well-formed execution order whose resolved
    /// tensors hold buffers handed out by this allocator: what an allocation
    /// pass asks of its input.
    #[verifier::rlimit(50)]
    pub fn check_order(&self, order: &[Tensor]) -> (r: bool)
        ensures
            r == (valid_order(order@) && constants_leased(order@, self.pool())),
    {
        let ghost g = order@;
        let n = order.len();
        if n == 0 {
            return false;
        }
        let mut i: usize = 0;
        while i < n
            invariant
                n == g.len(),
                g == order@,
                0 <= i <= n,
                forall|x: int, k: int|
                    0 <= x < i && 0 <= k < g[x].op.srcs@.len() ==> #[trigger] g[x].op.srcs@[k] < x,
                forall|x: int| 0 <= x < i && g[x].op.inplace && !g[x].resolved && g[x].op.srcs@.len() > 0
                    ==> #[trigger] g[x].num_bytes <= g[g[x].op.srcs@[0] as int].num_bytes,
                forall|x: int| 0 <= x < i && g[x].resolved && (#[trigger] g[x].storage).is_some()
                    ==> g[x].storage.unwrap().descriptor.size >= g[x].num_bytes && self.pool().leased(g[x].storage.unwrap().id),
                forall|x: int, y: int| 0 <= x < y < i ==> g[x].id != g[y].id,
            decreases n - i,
        {
            let t = &order[i];
            let mut k: usize = 0;
            while k < t.op.srcs.len()
                invariant
                    0 <= i < n,
                    n == g.len(),
                    g == order@,
                    *t == g[i as int],
                    0 <= k <= t.op.srcs@.len(),
                    forall|m: int| 0 <= m < k ==> #[trigger] t.op.srcs@[m] < i,
                decreases t.op.srcs@.len() - k,
            {
                if t.op.srcs[k] >= i {
                    return false;
                }
                k = k + 1;
            }
            if t.op.inplace && !t.resolved && t.op.srcs.len() > 0 {
                if t.num_bytes > order[t.op.srcs[0]].num_bytes {
                    return false;
                }
            }
            if t.resolved {
                match t.storage {
                    Some(b) => {
                        if b.descriptor.size < t.num_bytes || !self.pool.is_leased(b.id) {
                            return false;
                        }
                    },
                    None => {},
                }
            }
            let mut j: usize = 0;
            while j < i
                invariant
                    0 <= j <= i < n,
                    n == g.len(),
                    g == order@,
                    *t == g[i as int],
                    forall|x: int| 0 <= x < j ==> g[x].id != g[i as int].id,
                decreases i - j,
            {
                if order[j].id == t.id {
                    return false;
                }
                j = j + 1;
            }
            i = i + 1;
        }
        true
    }
}

} // verus!
