//! Verified core of the gtether engine: resource management, update
//! propagation, scheduling and worker coordination.
pub mod net;
pub mod resource;
pub mod server;
pub mod util;
pub mod worker;
