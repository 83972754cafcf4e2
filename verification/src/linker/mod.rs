//! The linking engine: overlap detection, correlation lookup, aggregation.

pub mod adapters;
pub mod algorithms;
pub mod colors;
pub mod laws;
pub mod nvtx_linker;
pub mod sweep;

pub use nvtx_linker::link_nvtx_to_kernels;
