//! Builds a canonical, deduplicated domain blocklist and plans how a remote
//! policy store is brought in line with it.

pub mod text;
pub mod normalize;
pub mod order;
pub mod collapse;
pub mod reconcile;
pub mod sync;
pub mod sources;
