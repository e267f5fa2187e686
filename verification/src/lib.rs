//! Storage kernel of a small relational database engine: a page-id algebra,
//! an in-memory disk image, a fixed-capacity buffer manager with pinning and
//! random eviction, a slotted-page record store with forwarding tuple
//! identifiers, a B-tree index, and a page-staged schema catalog.

pub mod btree;
pub mod buffer;
pub mod codec;
pub mod disk;
pub mod page;
pub mod schema;
pub mod segment;
pub mod slotted;
pub mod tid;
