//! A k-dimensional tree over fixed-point integer coordinates, built with
//! the sliding-midpoint rule: exact nearest-neighbor queries, radius
//! queries and incremental insertion with automatic rebalancing, each with
//! a verified contract over the multiset of stored points.
//!
//! Points implement [`KdtreePointTrait`]: a fixed-length coordinate vector
//! (every coordinate within `distance::COORD_LIMIT`, so that squared
//! distances stay exact) plus value equality and copy semantics. Ready-made
//! point types with an id payload live in [`test_common`].

pub mod bounds;
pub mod buffors;
pub mod distance;
mod kdtree;
pub mod partition;
pub mod test_common;

pub use kdtree::Kdtree;
pub use kdtree::KdtreeNode;
pub use kdtree::KdtreePointTrait;
pub use kdtree::in_range_of;
pub use kdtree::lemma_build_cardinality;
pub use kdtree::lemma_nearest_in_within;
pub use kdtree::lemma_within_monotonic;
pub use kdtree::point_wf;
pub use test_common::Point1WithId;
pub use test_common::Point2WithId;
pub use test_common::Point3WithId;
