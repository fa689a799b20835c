//! Index families sharing the train / search / serialize / deserialize
//! contract. Only the inverted-file family is implemented; a graph-based
//! family may join it later.
use vstd::prelude::*;

pub mod cluster;
pub mod codec;
pub mod ivf;
pub mod util;
pub mod utils;

verus! {

/// The known index families.
#[derive(Debug, Clone, Copy)]
pub enum IndexType {
    IvfFlat,
    Hnsw,
}

} // verus!
