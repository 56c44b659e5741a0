//! Host re-entry parallelism, owned by one plan. The library starts no thread.

pub mod cut;
pub mod frames;
pub mod path;
pub mod tail;
pub mod window;
pub mod plan;
