//! Index types shared by the modules.

use vstd::prelude::*;

verus! {

/// The index of a node of the graph.
pub type NodeIdx = usize;

/// The index of a destination of the demand.
pub type DestinationIdx = usize;

/// The index of an edge of the graph.
pub type EdgeIdx = usize;

/// The index of a commodity of the demand.
pub type CommodityIdx = usize;

/// The index of a permit of the graph.
pub type PermitIdx = usize;

/// The index of an interned bundle of permits.
pub type BundleIdx = usize;

/// The index of an interned path.
pub type PathIdx = usize;

/// The index of the empty bundle, which every [`crate::bundle_index::BundleIndex`] holds first.
pub const BUNDLE_IDX_EMPTY: BundleIdx = 0;

} // verus!
