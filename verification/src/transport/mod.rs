//! Frame reassembly and buffer reuse.
pub mod channel;
pub mod pool;
