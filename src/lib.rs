//! Recursive name lookup over a directory tree, with a bounded concurrency
//! gate and a post-processor that sorts and renders what was found.
pub mod text;
pub mod tree;
pub mod lookup_engine;
pub mod postprocess;
pub mod thread_pool;
pub mod writers;
pub mod cli;
pub mod scan_laws;
