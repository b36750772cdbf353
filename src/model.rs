use vstd::prelude::*;
use crate::descriptor::GraphBuffer;
use crate::graph::{Tensor, true_source};

verus! {

/// An allocation pass in the abstract: the slot of each tensor's buffer (a
/// resolved tensor's own buffer `b` is slot `-b.id - 1`; slots from zero up
/// are the buffers the pass takes, in order), the free list as slots, and the
/// size requested for each slot the pass takes.
pub struct PassModel {
    pub slot: Seq<Option<int>>,
    pub free: Seq<int>,
    pub sizes: Seq<u64>,
}

/// Sizes of the free list's buffers, in order.
pub open spec fn free_sizes(st: PassModel) -> Seq<u64> {
    st.free.map_values(|v: int| st.sizes[v])
}

/// Among the first `n` sizes, the first of the smallest that are at least `size`.
pub open spec fn best_upto(sz: Seq<u64>, size: u64, n: int) -> Option<int>
    decreases n,
{
    if n <= 0 {
        None
    } else {
        let b = best_upto(sz, size, n - 1);
        if sz[n - 1] >= size && (b is None || sz[n - 1] < sz[b.unwrap()]) {
            Some(n - 1)
        } else {
            b
        }
    }
}

pub proof fn lemma_best_upto(sz: Seq<u64>, size: u64, n: int)
    requires
        0 <= n <= sz.len(),
    ensures
        match best_upto(sz, size, n) {
            Some(j) => 0 <= j < n && sz[j] >= size && (forall|i: int|
                0 <= i < n && sz[i] >= size ==> sz[i] >= sz[j]) && (forall|i: int|
                0 <= i < j && sz[i] >= size ==> sz[i] > sz[j]),
            None => forall|i: int| 0 <= i < n ==> sz[i] < size,
        },
    decreases n,
{
    if n > 0 {
        lemma_best_upto(sz, size, n - 1);
    }
}

/// Takes a slot for `size` bytes: the best fit of the free list unless reuse
/// is off or none fits, else a new slot.
pub open spec fn m_alloc(st: PassModel, size: u64, debug: bool) -> (PassModel, int) {
    match if debug {
        None
    } else {
        best_upto(free_sizes(st), size, st.free.len() as int)
    } {
        Some(j) => (PassModel { free: st.free.remove(j), ..st }, st.free[j]),
        None => (PassModel { sizes: st.sizes.push(size), ..st }, st.sizes.len() as int),
    }
}

/// Gives the true source of `s` a slot if it has none, and `s` that slot.
pub open spec fn m_lease(g: Seq<Tensor>, debug: bool, st: PassModel, s: int) -> PassModel {
    let x = true_source(g, s);
    let st1 = if st.slot[x] is None {
        let (st2, v) = m_alloc(st, g[x].num_bytes, debug);
        PassModel { slot: st2.slot.update(x, Some(v)), ..st2 }
    } else {
        st
    };
    if x != s {
        PassModel { slot: st1.slot.update(s, st1.slot[x]), ..st1 }
    } else {
        st1
    }
}

/// Leases the first `m` inputs of tensor `t`, in order.
pub open spec fn m_lease_srcs(g: Seq<Tensor>, debug: bool, st: PassModel, t: int, m: int) -> PassModel
    decreases m,
{
    if m <= 0 {
        st
    } else {
        m_lease(g, debug, m_lease_srcs(g, debug, st, t, m - 1), g[t].op.srcs@[m - 1] as int)
    }
}

/// Frees the slot of `t` unless a tensor before it, or a resolved one, has it.
pub open spec fn m_release(g: Seq<Tensor>, st: PassModel, t: int) -> PassModel {
    let v = st.slot[t].unwrap();
    if exists|j: int| 0 <= j < g.len() && (j < t || g[j].resolved) && st.slot[j] == Some(v) {
        st
    } else {
        PassModel { free: st.free.push(v), ..st }
    }
}

/// The visit of tensor `t` in the backward walk.
pub open spec fn m_visit(g: Seq<Tensor>, debug: bool, st: PassModel, t: int) -> PassModel {
    if g[t].resolved {
        st
    } else {
        let st1 = m_lease_srcs(g, debug, st, t, g[t].op.srcs@.len() as int);
        let st2 = if st1.slot[t] is None {
            m_lease(g, debug, st1, t)
        } else {
            st1
        };
        m_release(g, st2, t)
    }
}

/// Visits tensors `k - 1` down to `0`.
pub open spec fn m_walk(g: Seq<Tensor>, debug: bool, st: PassModel, k: int) -> PassModel
    decreases k,
{
    if k <= 0 {
        st
    } else {
        m_walk(g, debug, m_visit(g, debug, st, k - 1), k - 1)
    }
}

/// Resolved tensors in their own slots, nothing else assigned.
pub open spec fn m_init(g: Seq<Tensor>) -> PassModel {
    PassModel {
        slot: Seq::new(
            g.len(),
            |i: int|
                if g[i].resolved {
                    Some(-(g[i].storage.unwrap().id as int) - 1)
                } else {
                    None::<int>
                },
        ),
        free: Seq::empty(),
        sizes: Seq::empty(),
    }
}

/// The whole pass: seed, lease the output, walk backwards.
pub open spec fn pass_model(g: Seq<Tensor>, debug: bool) -> PassModel {
    m_walk(g, debug, m_lease(g, debug, m_init(g), g.len() - 1), g.len() as int)
}

/// The buffer id that slot `v` stands for, given the ids of the pass's slots.
pub open spec fn id_of(ren: Seq<usize>, v: int) -> int {
    if v < 0 {
        -v - 1
    } else {
        ren[v] as int
    }
}

/// The concrete pass state `a`, `free` is the model state `st` with slot
/// `v >= 0` standing for buffer `ren[v]`.
pub open spec fn refines(
    g: Seq<Tensor>,
    st: PassModel,
    a: Seq<Option<GraphBuffer>>,
    free: Seq<GraphBuffer>,
    ren: Seq<usize>,
) -> bool {
    &&& st.slot.len() == a.len()
    &&& ren.len() == st.sizes.len()
    &&& forall|i: int| 0 <= i < a.len() ==> (#[trigger] a[i].is_some() <==> st.slot[i].is_some())
    &&& forall|i: int|
        0 <= i < a.len() && #[trigger] st.slot[i].is_some() ==> {
            let v = st.slot[i].unwrap();
            &&& v < ren.len()
            &&& a[i].unwrap().0.id == id_of(ren, v)
            &&& v >= 0 ==> a[i].unwrap().0.descriptor.size == st.sizes[v]
            &&& v < 0 ==> g[true_source(g, i)].resolved && v == -(g[true_source(
                g,
                i,
            )].storage.unwrap().id as int) - 1
        }
    &&& forall|i: int|
        0 <= i < a.len() && #[trigger] g[i].resolved ==> st.slot[i] == Some(
            -(g[i].storage.unwrap().id as int) - 1,
        )
    &&& free.len() == st.free.len()
    &&& forall|f: int|
        0 <= f < free.len() ==> 0 <= #[trigger] st.free[f] < ren.len() && free[f].0.id == ren[st.free[f]]
            && free[f].0.descriptor.size == st.sizes[st.free[f]]
    &&& forall|v1: int, v2: int|
        0 <= v1 < ren.len() && 0 <= v2 < ren.len() && v1 != v2 ==> #[trigger] ren[v1] != #[trigger] ren[v2]
    &&& forall|v: int, c: int|
        0 <= v < ren.len() && 0 <= c < g.len() && #[trigger] g[c].resolved ==> #[trigger] ren[v]
            != g[c].storage.unwrap().id
}

} // verus!
