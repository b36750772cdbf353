use vstd::prelude::*;
use crate::descriptor::{BufferDescriptor, GpuBufferHandle, PooledGPUBuffer};

verus! {

/// What a pool holds: every buffer it created, in order of creation, the ids
/// of those parked for reuse, the pass each was last handed out in, and the
/// current pass.
pub struct PoolView {
    pub buffers: Seq<PooledGPUBuffer>,
    pub parked: Seq<GpuBufferHandle>,
    pub last_used: Seq<u64>,
    pub current_pass: u64,
}

/// Position in `parked` of a buffer created with `desc`.
pub open spec fn parks(v: PoolView, desc: BufferDescriptor, j: int) -> bool {
    0 <= j < v.parked.len() && v.buffers[v.parked[j] as int].descriptor == desc
}

/// The first position in `parked` of a buffer created with `desc`.
pub open spec fn first_parked(v: PoolView, desc: BufferDescriptor, j: int) -> bool {
    parks(v, desc, j) && forall|i: int| 0 <= i < j ==> !parks(v, desc, i)
}

pub open spec fn sum_sizes(s: Seq<PooledGPUBuffer>) -> nat
    decreases s.len(),
{
    if s.len() == 0 {
        0
    } else {
        (sum_sizes(s.drop_last()) + s.last().descriptor.size) as nat
    }
}

/// Cache of physical buffers keyed by descriptor. A buffer leaves the parked
/// list when it is handed out, and comes back only when released.
pub struct BufferPool {
    buffers: Vec<PooledGPUBuffer>,
    parked: Vec<GpuBufferHandle>,
    last_used: Vec<u64>,
    current_pass: u64,
}

impl View for BufferPool {
    type V = PoolView;

    closed spec fn view(&self) -> PoolView {
        PoolView {
            buffers: self.buffers@,
            parked: self.parked@,
            last_used: self.last_used@,
            current_pass: self.current_pass,
        }
    }
}

impl PoolView {
    /// Each buffer's id is its place in creation order; parked ids are
    /// distinct ids of created buffers.
    pub open spec fn wf(self) -> bool {
        &&& self.last_used.len() == self.buffers.len()
        &&& forall|i: int| 0 <= i < self.buffers.len() ==> #[trigger] self.buffers[i].id == i
        &&& forall|j: int|
            0 <= j < self.parked.len() ==> #[trigger] self.parked[j] < self.buffers.len()
        &&& forall|j: int, l: int|
            0 <= j < l < self.parked.len() ==> self.parked[j] != self.parked[l]
    }

    /// Buffer `id` was created by the pool and is held outside it.
    pub open spec fn leased(self, id: GpuBufferHandle) -> bool {
        id < self.buffers.len() && !self.parked.contains(id)
    }
}

impl BufferPool {
    pub fn new() -> (r: BufferPool)
        ensures
            r@.wf(),
            r@.buffers.len() == 0,
            r@.parked.len() == 0,
            r@.current_pass == 0,
    {
        BufferPool { buffers: Vec::new(), parked: Vec::new(), last_used: Vec::new(), current_pass: 0 }
    }

    pub fn begin_pass(&mut self, pass_index: u64)
        ensures
            final(self)@ == (PoolView { current_pass: pass_index, ..old(self)@ }),
    {
        self.current_pass = pass_index;
    }

    /// Hands out the first parked buffer created with `desc`; creates a new
    /// one when none is parked.
    pub fn get_or_create(&mut self, desc: &BufferDescriptor) -> (r: PooledGPUBuffer)
        requires
            old(self)@.wf(),
        ensures
            final(self)@.wf(),
            final(self)@.current_pass == old(self)@.current_pass,
            r.descriptor == *desc,
            final(self)@.leased(r.id),
            final(self)@.last_used[r.id as int] == old(self)@.current_pass,
            (exists|j: int| parks(old(self)@, *desc, j)) ==> exists|j: int|
                first_parked(old(self)@, *desc, j) && r.id == old(self)@.parked[j]
                    && r == old(self)@.buffers[r.id as int]
                    && final(self)@.buffers == old(self)@.buffers
                    && final(self)@.parked == old(self)@.parked.remove(j),
            !(exists|j: int| parks(old(self)@, *desc, j)) ==> {
                &&& r.id == old(self)@.buffers.len()
                &&& final(self)@.buffers == old(self)@.buffers.push(r)
                &&& final(self)@.parked == old(self)@.parked
            },
            forall|id: GpuBufferHandle| #[trigger]
                final(self)@.parked.contains(id) ==> old(self)@.parked.contains(id),
            forall|id: GpuBufferHandle| #[trigger]
                old(self)@.leased(id) ==> final(self)@.leased(id),
    {
        let mut j: usize = 0;
        while j < self.parked.len()
            invariant
                self@ == old(self)@,
                self@.wf(),
                0 <= j <= self.parked@.len(),
                forall|i: int| 0 <= i < j ==> !parks(self@, *desc, i),
            decreases self.parked@.len() - j,
        {
            let id = self.parked[j];
            assert(self@.parked[j as int] == id);
            if self.buffers[id].descriptor == *desc {
                let ghost old_parked = self.parked@;
                let ghost old_v = self@;
                self.parked.remove(j);
                self.last_used.set(id, self.current_pass);
                assert(first_parked(old_v, *desc, j as int));
                assert forall|i: int| 0 <= i < self.parked@.len() implies #[trigger] self.parked@[i]
                    != id by {
                    if i < j {
                        assert(old_parked[i] != old_parked[j as int]);
                    } else {
                        assert(old_parked[i + 1] != old_parked[j as int]);
                    }
                }
                assert forall|a: int, b: int| 0 <= a < b < self.parked@.len() implies self.parked@[a]
                    != self.parked@[b] by {
                    let a0 = if a < j { a } else { a + 1 };
                    let b0 = if b < j { b } else { b + 1 };
                    assert(old_parked[a0] != old_parked[b0]);
                }
                assert forall|x: GpuBufferHandle| #[trigger]
                    self@.parked.contains(x) implies old_parked.contains(x) by {
                    let i = choose|i: int| 0 <= i < self@.parked.len() && self@.parked[i] == x;
                    if i < j {
                        assert(old_parked[i] == x);
                    } else {
                        assert(old_parked[i + 1] == x);
                    }
                }
                assert forall|k: int| 0 <= k < self.parked@.len() implies #[trigger] self.parked@[k]
                    < self.buffers@.len() by {
                    if k < j {
                        assert(old_parked[k] < self.buffers@.len());
                    } else {
                        assert(old_parked[k + 1] < self.buffers@.len());
                    }
                }
                return self.buffers[id];
            }
            j = j + 1;
        }
        let r = PooledGPUBuffer { id: self.buffers.len(), descriptor: *desc };
        self.buffers.push(r);
        self.last_used.push(self.current_pass);
        assert forall|i: int| 0 <= i < self@.buffers.len() implies #[trigger] self@.buffers[i].id
            == i by {
            if i < self@.buffers.len() - 1 {
                assert(old(self)@.buffers[i].id == i);
            }
        }
        assert forall|k: int| 0 <= k < self@.parked.len() implies #[trigger] self@.parked[k]
            != r.id by {
            assert(old(self)@.parked[k] < old(self)@.buffers.len());
        }
        r
    }

    /// Parks a buffer handed out earlier, so that a later request for its
    /// descriptor is served from it. Ids that were not handed out are ignored.
    pub fn release(&mut self, id: GpuBufferHandle)
        requires
            old(self)@.wf(),
        ensures
            final(self)@.wf(),
            final(self)@.buffers == old(self)@.buffers,
            final(self)@.current_pass == old(self)@.current_pass,
            final(self)@.parked == if old(self)@.leased(id) {
                old(self)@.parked.push(id)
            } else {
                old(self)@.parked
            },
    {
        if id >= self.buffers.len() {
            return;
        }
        let mut j: usize = 0;
        while j < self.parked.len()
            invariant
                self@ == old(self)@,
                self@.wf(),
                id < self@.buffers.len(),
                0 <= j <= self.parked@.len(),
                forall|i: int| 0 <= i < j ==> self.parked@[i] != id,
            decreases self.parked@.len() - j,
        {
            if self.parked[j] == id {
                return;
            }
            j = j + 1;
        }
        let ghost old_parked = self.parked@;
        assert(old_parked == old(self)@.parked);
        self.parked.push(id);
        assert forall|a: int, b: int| 0 <= a < b < self@.parked.len() implies self@.parked[a]
            != self@.parked[b] by {
            if b < old_parked.len() {
                assert(old(self)@.parked[a] != old(self)@.parked[b]);
            }
        }
        assert(!old_parked.contains(id));
    }

    /// The buffer with the given id, if the pool created one.
    pub fn get(&self, id: GpuBufferHandle) -> (r: Option<PooledGPUBuffer>)
        requires
            self@.wf(),
        ensures
            r == if id < self@.buffers.len() {
                Some(self@.buffers[id as int])
            } else {
                None::<PooledGPUBuffer>
            },
    {
        if id < self.buffers.len() {
            Some(self.buffers[id])
        } else {
            None
        }
    }

    /// Whether buffer `id` was created here and is not parked.
    pub fn is_leased(&self, id: GpuBufferHandle) -> (r: bool)
        ensures
            r == self@.leased(id),
    {
        if id >= self.buffers.len() {
            return false;
        }
        let mut j: usize = 0;
        while j < self.parked.len()
            invariant
                0 <= j <= self.parked@.len(),
                forall|i: int| 0 <= i < j ==> self.parked@[i] != id,
            decreases self.parked@.len() - j,
        {
            if self.parked[j] == id {
                assert(self@.parked[j as int] == id);
                return false;
            }
            j = j + 1;
        }
        true
    }

    pub fn num_resources(&self) -> (r: usize)
        ensures
            r == self@.buffers.len(),
    {
        self.buffers.len()
    }

    /// Sum of the sizes of every buffer created, saturating at `u64::MAX`.
    pub fn total_gpu_size_in_bytes(&self) -> (r: u64)
        ensures
            r == if sum_sizes(self@.buffers) <= u64::MAX {
                sum_sizes(self@.buffers) as u64
            } else {
                u64::MAX
            },
    {
        let mut total: u64 = 0;
        let mut i: usize = 0;
        while i < self.buffers.len()
            invariant
                0 <= i <= self.buffers@.len(),
                total == if sum_sizes(self.buffers@.take(i as int)) <= u64::MAX {
                    sum_sizes(self.buffers@.take(i as int)) as u64
                } else {
                    u64::MAX
                },
            decreases self.buffers@.len() - i,
        {
            assert(self.buffers@.take(i + 1).drop_last() =~= self.buffers@.take(i as int));
            total = total.saturating_add(self.buffers[i].descriptor.size);
            i = i + 1;
        }
        assert(self.buffers@.take(i as int) =~= self.buffers@);
        total
    }
}

} // verus!
