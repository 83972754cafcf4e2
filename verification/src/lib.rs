//! Links profiler annotations to the device kernels they launched.

pub mod linker;
pub mod models;
pub mod writer;
