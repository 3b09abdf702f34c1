//! Integer parts of the learned index: search in gapped arrays and routing
//! between leaves and inner nodes.

pub mod gapped;
pub mod routing;
pub mod simd_search;
