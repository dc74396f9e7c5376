//! A placeholder caching layer in front of the tree's queries: a buffer may
//! answer a query itself or decline, letting the caller fall through to the
//! real search.

use vstd::prelude::*;
use crate::kdtree::KdtreePointTrait;

verus! {

/// What a query buffer must answer: a cached nearest neighbor (or `None`
/// to decline) and a cached range-existence answer.
pub trait KdtreeBuffor<KdtreePoint: KdtreePointTrait> {
    fn nearest_search(&self, node: &KdtreePoint) -> Option<KdtreePoint>;

    fn has_neighbor_in_range(&self, node: &KdtreePoint) -> bool;
}

/// A buffer that caches nothing and declines every query.
pub struct FakeKdtreeBuffor {}

impl FakeKdtreeBuffor {
    pub fn new() -> (r: FakeKdtreeBuffor)
        ensures
            r == (FakeKdtreeBuffor {  }),
    {
        FakeKdtreeBuffor {}
    }
}

impl<KdtreePoint: KdtreePointTrait> KdtreeBuffor<KdtreePoint> for FakeKdtreeBuffor {
    fn nearest_search(&self, _node: &KdtreePoint) -> (r: Option<KdtreePoint>)
        ensures
            r is None,
    {
        None
    }

    fn has_neighbor_in_range(&self, _node: &KdtreePoint) -> (b: bool)
        ensures
            !b,
    {
        false
    }
}

} // verus!
