use vstd::prelude::*;
use crate::descriptor::PooledGPUBuffer;

verus! {

pub type TensorId = u64;

/// Element type of a tensor.
#[derive(Clone, Copy, Debug, PartialEq, Eq, Structural)]
pub enum DType {
    F16,
    BF16,
    F32,
    I32,
    U32,
}

/// The operation that produces a tensor: its inputs, given as positions in
/// the execution order, and whether it may write its result over its first
/// input.
#[derive(Clone, Debug)]
pub struct Op {
    pub srcs: Vec<usize>,
    pub inplace: bool,
}

impl Op {
    pub fn srcs(&self) -> (r: &Vec<usize>)
        ensures
            r@ == self.srcs@,
    {
        &self.srcs
    }

    pub fn supports_inplace(&self) -> (r: bool)
        ensures
            r == self.inplace,
    {
        self.inplace
    }
}

/// A node of an execution order. A resolved tensor (a constant, or an input
/// already on the device) carries the buffer that holds it.
#[derive(Clone, Debug)]
pub struct Tensor {
    pub id: TensorId,
    pub op: Op,
    pub num_bytes: u64,
    pub resolved: bool,
    pub storage: Option<PooledGPUBuffer>,
    pub shape: Vec<usize>,
    pub dt: DType,
}

impl Tensor {
    pub fn id(&self) -> (r: TensorId)
        ensures
            r == self.id,
    {
        self.id
    }

    pub fn resolved(&self) -> (r: bool)
        ensures
            r == self.resolved,
    {
        self.resolved
    }

    pub fn storage(&self) -> (r: Option<PooledGPUBuffer>)
        ensures
            r == self.storage,
    {
        self.storage
    }

    pub fn op(&self) -> (r: &Op)
        ensures
            r == &self.op,
    {
        &self.op
    }

    pub fn num_bytes(&self) -> (r: u64)
        ensures
            r == self.num_bytes,
    {
        self.num_bytes
    }

    pub fn shape(&self) -> (r: &Vec<usize>)
        ensures
            r@ == self.shape@,
    {
        &self.shape
    }

    pub fn rank(&self) -> (r: usize)
        ensures
            r == self.shape@.len(),
    {
        self.shape.len()
    }

    pub fn dt(&self) -> (r: DType)
        ensures
            r == self.dt,
    {
        self.dt
    }
}

/// Number of times `i` occurs in `s`.
pub open spec fn count_in(s: Seq<usize>, i: int) -> nat
    decreases s.len(),
{
    if s.len() == 0 {
        0
    } else {
        count_in(s.drop_last(), i) + if s.last() == i {
            1nat
        } else {
            0nat
        }
    }
}

/// Number of inputs, over the first `n` tensors of `g`, that read tensor `i`.
pub open spec fn consumers_upto(g: Seq<Tensor>, i: int, n: int) -> nat
    decreases n,
{
    if n <= 0 {
        0
    } else {
        consumers_upto(g, i, n - 1) + count_in(g[n - 1].op.srcs@, i)
    }
}

/// Number of inputs, over the whole order, that read tensor `i`.
pub open spec fn consumers(g: Seq<Tensor>, i: int) -> nat {
    consumers_upto(g, i, g.len() as int)
}

/// Every input of a tensor stands before it.
pub open spec fn sources_precede(g: Seq<Tensor>) -> bool {
    forall|i: int, k: int|
        0 <= i < g.len() && 0 <= k < g[i].op.srcs@.len() ==> #[trigger] g[i].op.srcs@[k] < i
}

/// Tensors carry distinct ids.
pub open spec fn ids_unique(g: Seq<Tensor>) -> bool {
    forall|i: int, j: int| 0 <= i < j < g.len() ==> g[i].id != g[j].id
}

/// An in-place result fits in the storage of the input it overwrites.
pub open spec fn inplace_fits(g: Seq<Tensor>) -> bool {
    forall|i: int|
        0 <= i < g.len() && g[i].op.inplace && !g[i].resolved && g[i].op.srcs@.len() > 0
            ==> #[trigger] g[i].num_bytes <= g[g[i].op.srcs@[0] as int].num_bytes
}

/// A resolved tensor's buffer is large enough for it.
pub open spec fn storage_fits(g: Seq<Tensor>) -> bool {
    forall|i: int|
        0 <= i < g.len() && g[i].resolved && (#[trigger] g[i].storage).is_some()
            ==> g[i].storage.unwrap().descriptor.size >= g[i].num_bytes
}

/// A well-formed execution order: non-empty, inputs before consumers,
/// distinct ids, in-place results no larger than their inputs, constants no
/// larger than their buffers.
pub open spec fn valid_order(g: Seq<Tensor>) -> bool {
    &&& g.len() > 0
    &&& sources_precede(g)
    &&& ids_unique(g)
    &&& inplace_fits(g)
    &&& storage_fits(g)
}

/// Tensor `i` shares the buffer of its first input: it is computed in place,
/// is not resolved, has an input, and is read at most once.
pub open spec fn follows(g: Seq<Tensor>, i: int) -> bool {
    &&& 0 <= i < g.len()
    &&& !g[i].resolved
    &&& g[i].op.inplace
    &&& g[i].op.srcs@.len() > 0
    &&& consumers(g, i) <= 1
    &&& g[i].op.srcs@[0] < i
}

/// The tensor whose buffer `i` writes into: follow first inputs while the
/// tensor reached shares its input's buffer.
pub open spec fn true_source(g: Seq<Tensor>, i: int) -> int
    decreases i,
{
    if follows(g, i) && i >= 0 {
        true_source(g, g[i].op.srcs@[0] as int)
    } else {
        i
    }
}

pub proof fn lemma_true_source(g: Seq<Tensor>, i: int)
    requires
        valid_order(g),
        0 <= i < g.len(),
    ensures
        0 <= true_source(g, i) <= i,
        !follows(g, true_source(g, i)),
        true_source(g, true_source(g, i)) == true_source(g, i),
        g[i].num_bytes <= g[true_source(g, i)].num_bytes,
        true_source(g, i) != i ==> follows(g, i),
    decreases i,
{
    if follows(g, i) {
        let s = g[i].op.srcs@[0] as int;
        assert(g[i].num_bytes <= g[s].num_bytes);
        lemma_true_source(g, s);
    }
}

/// `min(n, 2)`: enough of a use count to tell "at most once" from "more".
pub open spec fn capped(n: nat) -> nat {
    if n < 2 {
        n
    } else {
        2
    }
}

/// For each tensor, how many inputs read it, counted up to two.
pub fn consumer_counts(order: &[Tensor]) -> (r: Vec<usize>)
    requires
        sources_precede(order@),
    ensures
        r@.len() == order@.len(),
        forall|i: int| 0 <= i < order@.len() ==> r@[i] == capped(#[trigger] consumers(order@, i)),
{
    let n = order.len();
    let mut uses: Vec<usize> = Vec::new();
    let mut i: usize = 0;
    while i < n
        invariant
            0 <= i <= n,
            n == order@.len(),
            uses@.len() == i,
            forall|x: int| 0 <= x < i ==> uses@[x] == 0,
        decreases n - i,
    {
        uses.push(0);
        i = i + 1;
    }
    let mut j: usize = 0;
    while j < n
        invariant
            0 <= j <= n,
            n == order@.len(),
            uses@.len() == n,
            sources_precede(order@),
            forall|x: int| 0 <= x < n ==> uses@[x] == capped(#[trigger] consumers_upto(order@, x, j as int)),
        decreases n - j,
    {
        let srcs = &order[j].op.srcs;
        let mut k: usize = 0;
        while k < srcs.len()
            invariant
                0 <= j < n,
                0 <= k <= srcs@.len(),
                n == order@.len(),
                srcs@ == order@[j as int].op.srcs@,
                uses@.len() == n,
                sources_precede(order@),
                forall|x: int|
                    0 <= x < n ==> uses@[x] == capped(
                        consumers_upto(order@, x, j as int) + #[trigger] count_in(srcs@.take(k as int), x),
                    ),
            decreases srcs@.len() - k,
        {
            let s = srcs[k];
            assert(order@[j as int].op.srcs@[k as int] < j);
            assert forall|x: int| 0 <= x < n implies count_in(#[trigger] srcs@.take(k + 1), x)
                == count_in(srcs@.take(k as int), x) + if s == x {
                1nat
            } else {
                0nat
            } by {
                assert(srcs@.take(k + 1).drop_last() =~= srcs@.take(k as int));
            }
            let ghost before = uses@;
            if uses[s] < 2 {
                uses.set(s, uses[s] + 1);
            }
            assert forall|x: int| 0 <= x < n implies uses@[x] == capped(
                consumers_upto(order@, x, j as int) + #[trigger] count_in(srcs@.take(k + 1), x),
            ) by {
                assert(before[x] == capped(
                    consumers_upto(order@, x, j as int) + count_in(srcs@.take(k as int), x),
                ));
            }
            k = k + 1;
        }
        assert(srcs@.take(srcs@.len() as int) =~= srcs@);
        j = j + 1;
    }
    uses
}

/// Walks up from tensor `i` to the tensor whose buffer it writes into.
pub fn determine_tensor_source(order: &[Tensor], uses: &Vec<usize>, i: usize) -> (r: usize)
    requires
        valid_order(order@),
        i < order@.len(),
        uses@.len() == order@.len(),
        forall|x: int| 0 <= x < order@.len() ==> uses@[x] == capped(#[trigger] consumers(order@, x)),
    ensures
        r == true_source(order@, i as int),
{
    let mut cur = i;
    while !order[cur].resolved && order[cur].op.inplace && order[cur].op.srcs.len() > 0
        && uses[cur] <= 1
        invariant
            valid_order(order@),
            cur < order@.len(),
            uses@.len() == order@.len(),
            forall|x: int| 0 <= x < order@.len() ==> uses@[x] == capped(#[trigger] consumers(order@, x)),
            true_source(order@, cur as int) == true_source(order@, i as int),
        decreases cur,
    {
        assert(order@[cur as int].op.srcs@[0] < cur);
        assert(uses@[cur as int] == capped(consumers(order@, cur as int)));
        cur = order[cur].op.srcs[0];
    }
    assert(uses@[cur as int] == capped(consumers(order@, cur as int)));
    cur
}

} // verus!
