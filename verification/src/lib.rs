//! A packed Hilbert R-tree for bounding-box spatial filtering, together with
//! the attribute encoding of the FlatCityBuf format.
//!
//! Coordinates are IEEE-754 binary64 values carried as their bit patterns;
//! the library compares them with the rules of floating-point comparison.

pub mod ieee754;
pub mod bytes;
pub mod error;
pub mod node;
pub mod levels;
pub mod tree;
pub mod search;
pub mod covering;
pub mod search_law;
pub mod query_law;
pub mod extent_law;
pub mod http;
pub mod stream;
pub mod http_search;
pub mod http_law;
pub mod nearest;
pub mod nearest_law;
pub mod sorting;
pub mod hilbert;
pub mod attribute;

pub use error::Error;
pub use hilbert::hilbert_sort;
pub use http::{HttpRange, HttpSearchResultItem};
pub use http_search::{HttpSearch, NodeRange};
pub use node::{calc_extent, NodeItem, NODE_ITEM_SIZE};
pub use search::{Query, SearchResultItem};
pub use stream::StreamSearch;
pub use tree::PackedRTree;
