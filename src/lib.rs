//! GPU buffer allocation for a tensor runtime: a pool of physical buffers
//! and a graph allocator that assigns, aliases and reuses buffers across an
//! execution order; with the checks an operation makes on its tensors, and
//! the endpoints of the model hub client.

pub mod descriptor;
pub mod pool;
pub mod graph;
pub mod allocator;
pub mod model;
pub mod enforcer;
pub mod client;
