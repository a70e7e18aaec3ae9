//! Native-acceleration dispatch.

pub mod hot;
