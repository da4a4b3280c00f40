//! The schedulers of this library and what they are made of.

pub mod cfs;
pub mod identity;
pub mod laws;
pub mod machine;
pub mod order;
pub mod pcb;
pub mod priority_queue;
pub mod queue;
pub mod round_robin;
pub mod state;
pub mod wellformed;

pub use cfs::CFS;
pub use priority_queue::PriorityQueue;
pub use round_robin::RoundRobin;
