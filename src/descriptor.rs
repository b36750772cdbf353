use vstd::prelude::*;

verus! {

/// Bytes of alignment that a uniform buffer's size is rounded up to.
pub const UNIFORM_ALIGN: usize = 256;

/// Bit set of the ways a buffer may be used, with the bit values of the GPU API.
#[derive(Clone, Copy, Debug, PartialEq, Eq, Structural)]
pub struct UsageFlags {
    pub bits: u32,
}

pub const COPY_SRC: u32 = 4;

pub const COPY_DST: u32 = 8;

pub const UNIFORM: u32 = 64;

pub const STORAGE: u32 = 128;

pub const INDIRECT: u32 = 256;

pub const QUERY_RESOLVE: u32 = 512;

impl UsageFlags {
    pub fn from_bits(bits: u32) -> (r: UsageFlags)
        ensures
            r.bits == bits,
    {
        UsageFlags { bits }
    }

    /// The preset used for graph buffers: STORAGE | COPY_SRC | COPY_DST.
    pub fn standard() -> (r: UsageFlags)
        ensures
            r.bits == STORAGE | COPY_SRC | COPY_DST,
    {
        UsageFlags { bits: STORAGE | COPY_SRC | COPY_DST }
    }

    pub fn union(self, other: UsageFlags) -> (r: UsageFlags)
        ensures
            r.bits == self.bits | other.bits,
    {
        UsageFlags { bits: self.bits | other.bits }
    }

    pub fn contains(self, other: UsageFlags) -> (r: bool)
        ensures
            r == (self.bits & other.bits == other.bits),
    {
        self.bits & other.bits == other.bits
    }
}

/// What a physical buffer is requested with; the pool's cache key.
#[derive(Clone, Copy, Debug, PartialEq, Eq, Structural)]
pub struct BufferDescriptor {
    pub size: u64,
    pub usage: UsageFlags,
    pub mapped_at_creation: bool,
}

impl BufferDescriptor {
    pub fn new(size: u64, usage: UsageFlags, mapped_at_creation: bool) -> (r: BufferDescriptor)
        ensures
            r == (BufferDescriptor { size, usage, mapped_at_creation }),
    {
        BufferDescriptor { size, usage, mapped_at_creation }
    }
}

/// Identifier of a physical buffer: the order in which its pool created it.
pub type GpuBufferHandle = usize;

/// A physical buffer owned by a pool, as handed out to its holders.
#[derive(Clone, Copy, Debug, PartialEq, Eq, Structural)]
pub struct PooledGPUBuffer {
    pub id: GpuBufferHandle,
    pub descriptor: BufferDescriptor,
}

impl PooledGPUBuffer {
    pub fn global_id(&self) -> (r: GpuBufferHandle)
        ensures
            r == self.id,
    {
        self.id
    }
}

/// A lease on a physical buffer for the length of one allocation pass.
#[derive(Clone, Copy, Debug, PartialEq, Eq, Structural)]
pub struct GraphBuffer(pub PooledGPUBuffer);

impl GraphBuffer {
    pub fn inner(&self) -> (r: &PooledGPUBuffer)
        ensures
            *r == self.0,
    {
        &self.0
    }
}

impl From<PooledGPUBuffer> for GraphBuffer {
    fn from(buf: PooledGPUBuffer) -> (r: GraphBuffer) {
        GraphBuffer(buf)
    }
}

impl vstd::std_specs::convert::FromSpecImpl<PooledGPUBuffer> for GraphBuffer {
    open spec fn obeys_from_spec() -> bool {
        true
    }

    open spec fn from_spec(buf: PooledGPUBuffer) -> GraphBuffer {
        GraphBuffer(buf)
    }
}

} // verus!
