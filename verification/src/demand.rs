//! Travel demand: commodities, each an amount to route from an origin to a destination.

use rustc_hash::FxHashMap;
use vstd::prelude::*;
use crate::collections::{map_new, index_map_get, index_map_insert, index_map_remove};
use crate::common::{CommodityIdx, DestinationIdx, NodeIdx};

verus! {

/// Access to the destinations of a demand.
pub trait DemandOps {
    /// The number of destinations.
    spec fn destination_count(&self) -> nat;

    /// The node of destination `destination`.
    spec fn destination_node(&self, destination: int) -> NodeIdx;

    fn node_idx_by_destination(&self, destination_idx: DestinationIdx) -> (r: NodeIdx)
        requires
            destination_idx < self.destination_count(),
        ensures
            r == self.destination_node(destination_idx as int),
    ;

    fn num_destinations(&self) -> (r: usize)
        ensures
            r == self.destination_count(),
    ;
}

/// An amount of demand of type `D` from `origin` to the destination with index `destination_idx`.
#[derive(Debug, Clone)]
pub struct Commodity<D> {
    pub origin: NodeIdx,
    pub destination_idx: DestinationIdx,
    pub demand: D,
}

/// The indices of the commodities in `commodities` whose origin is `origin`, in increasing order.
pub open spec fn indices_with_origin<D>(commodities: Seq<Commodity<D>>, origin: NodeIdx) -> Seq<CommodityIdx>
    decreases commodities.len(),
{
    if commodities.len() == 0 {
        Seq::empty()
    } else {
        let rest = indices_with_origin(commodities.drop_last(), origin);
        if commodities.last().origin == origin {
            rest.push((commodities.len() - 1) as CommodityIdx)
        } else {
            rest
        }
    }
}

/// The commodities of a traffic assignment instance, with their destinations
/// numbered in the order in which they first occur.
#[derive(Debug)]
pub struct Demand<D> {
    destinations: Vec<NodeIdx>,
    destination_by_node_idx: FxHashMap<NodeIdx, DestinationIdx>,
    commodities_by_origin: FxHashMap<NodeIdx, Vec<CommodityIdx>>,
    commodities: Vec<Commodity<D>>,
}

impl<D> Demand<D> {
    #[verifier::type_invariant]
    spec fn inv(self) -> bool {
        &&& forall|i: int, j: int| 0 <= i < j < self.destinations@.len() ==> #[trigger] self.destinations@[i] != #[trigger] self.destinations@[j]
        &&& forall|n: NodeIdx| #[trigger] self.destination_by_node_idx@.contains_key(n) <==> self.destinations@.contains(n)
        &&& forall|i: int| 0 <= i < self.destinations@.len() ==> self.destination_by_node_idx@[#[trigger] self.destinations@[i]] == i
        &&& forall|c: int| 0 <= c < self.commodities@.len() ==> #[trigger] self.commodities@[c].destination_idx < self.destinations@.len()
        &&& self.commodities@.len() <= usize::MAX
        &&& forall|o: NodeIdx| #[trigger] self.commodities_by_origin@.contains_key(o) <==> indices_with_origin(self.commodities@, o).len() > 0
        &&& forall|o: NodeIdx| #[trigger] self.commodities_by_origin@.contains_key(o) ==> self.commodities_by_origin@[o]@ == indices_with_origin(self.commodities@, o)
    }

    /// The commodities, by index.
    pub closed spec fn commodities_view(&self) -> Seq<Commodity<D>> {
        self.commodities@
    }

    /// The destination nodes, by destination index.
    pub closed spec fn destinations_view(&self) -> Seq<NodeIdx> {
        self.destinations@
    }

    /// The demand without commodities.
    pub fn empty() -> (r: Self)
        ensures
            r.commodities_view() == Seq::<Commodity<D>>::empty(),
            r.destinations_view() == Seq::<NodeIdx>::empty(),
    {
        let r = Demand {
            destinations: Vec::new(),
            destination_by_node_idx: map_new(),
            commodities_by_origin: map_new(),
            commodities: Vec::new(),
        };
        proof {
            assert forall|o: NodeIdx| #[trigger] r.commodities_by_origin@.contains_key(o) <==> indices_with_origin(r.commodities@, o).len() > 0 by {}
        }
        r
    }

    /// The commodities, by index.
    pub fn commodities(&self) -> (r: &Vec<Commodity<D>>)
        ensures
            r@ == self.commodities_view(),
    {
        &self.commodities
    }

    /// The commodity with index `commodity_idx`.
    pub fn get_commodity(&self, commodity_idx: CommodityIdx) -> (r: &Commodity<D>)
        requires
            commodity_idx < self.commodities_view().len(),
        ensures
            *r == self.commodities_view()[commodity_idx as int],
            r.destination_idx < self.destinations_view().len(),
    {
        proof {
            use_type_invariant(self);
        }
        &self.commodities[commodity_idx]
    }

    /// The indices of the commodities of each origin, in increasing order; an
    /// origin is a key exactly when some commodity starts there.
    pub fn commodities_by_origin(&self) -> (r: &FxHashMap<NodeIdx, Vec<CommodityIdx>>)
        ensures
            forall|o: NodeIdx| #[trigger] r@.contains_key(o) <==> indices_with_origin(self.commodities_view(), o).len() > 0,
            forall|o: NodeIdx| #[trigger] r@.contains_key(o) ==> r@[o]@ == indices_with_origin(self.commodities_view(), o),
    {
        proof {
            use_type_invariant(self);
        }
        &self.commodities_by_origin
    }

    /// Adds the demand `demand` from `origin` to `destination` and returns the
    /// index of the new commodity. The destination keeps its index if it has
    /// one, and gets the next free index otherwise.
    pub fn add_commodity(&mut self, origin: NodeIdx, destination: NodeIdx, demand: D) -> (r: CommodityIdx)
        ensures
            r == old(self).commodities_view().len(),
            old(self).destinations_view().contains(destination) ==> final(self).destinations_view() == old(self).destinations_view(),
            !old(self).destinations_view().contains(destination) ==> final(self).destinations_view() == old(self).destinations_view().push(destination),
            final(self).commodities_view().len() == old(self).commodities_view().len() + 1,
            final(self).commodities_view().drop_last() == old(self).commodities_view(),
            final(self).commodities_view().last().origin == origin,
            final(self).commodities_view().last().demand == demand,
            final(self).commodities_view().last().destination_idx < final(self).destinations_view().len(),
            final(self).destinations_view()[final(self).commodities_view().last().destination_idx as int] == destination,
    {
        proof {
            use_type_invariant(&*self);
        }
        let mut taken = Demand::empty();
        std::mem::swap(&mut taken, self);
        let Demand { destinations, destination_by_node_idx, commodities_by_origin, commodities } = taken;
        let mut destinations = destinations;
        let mut destination_by_node_idx = destination_by_node_idx;
        let mut commodities_by_origin = commodities_by_origin;
        let mut commodities = commodities;
        let ghost old_destinations = destinations@;
        let ghost old_commodities = commodities@;
        let ghost old_by_origin = commodities_by_origin@;

        let destination_idx = match index_map_get(&destination_by_node_idx, destination) {
            Some(idx) => {
                proof {
                    let i = choose|i: int| 0 <= i < destinations@.len() && destinations@[i] == destination;
                    assert(destination_by_node_idx@[destinations@[i]] == i);
                }
                *idx
            },
            None => {
                destinations.push(destination);
                let idx = destinations.len() - 1;
                index_map_insert(&mut destination_by_node_idx, destination, idx);
                proof {
                    assert(!old_destinations.contains(destination));
                    assert forall|i: int, j: int| 0 <= i < j < destinations@.len() implies #[trigger] destinations@[i] != #[trigger] destinations@[j] by {
                        if j == old_destinations.len() {
                            assert(destinations@[i] == old_destinations[i]);
                        } else {
                            assert(destinations@[i] == old_destinations[i] && destinations@[j] == old_destinations[j]);
                        }
                    }
                    assert forall|n: NodeIdx| #[trigger] destination_by_node_idx@.contains_key(n) <==> destinations@.contains(n) by {
                        if n != destination && destinations@.contains(n) {
                            let i = choose|i: int| 0 <= i < destinations@.len() && destinations@[i] == n;
                            assert(old_destinations[i] == n);
                        }
                        if n != destination && old_destinations.contains(n) {
                            let i = choose|i: int| 0 <= i < old_destinations.len() && old_destinations[i] == n;
                            assert(destinations@[i] == n);
                        }
                        if n == destination {
                            assert(destinations@[idx as int] == n);
                        }
                    }
                    assert forall|i: int| 0 <= i < destinations@.len() implies destination_by_node_idx@[#[trigger] destinations@[i]] == i by {
                        if i < old_destinations.len() {
                            assert(destinations@[i] == old_destinations[i]);
                            if old_destinations[i] == destination {
                                assert(old_destinations.contains(destination));
                            }
                        }
                    }
                }
                idx
            },
        };

        commodities.push(Commodity { origin, destination_idx, demand });
        let commodity_idx = commodities.len() - 1;
        let mut list = match index_map_remove(&mut commodities_by_origin, origin) {
            Some(list) => list,
            None => Vec::new(),
        };
        list.push(commodity_idx);
        index_map_insert(&mut commodities_by_origin, origin, list);
        proof {
            assert(commodities@.drop_last() =~= old_commodities);
            assert forall|o: NodeIdx| #[trigger] commodities_by_origin@.contains_key(o) <==> indices_with_origin(commodities@, o).len() > 0 by {
                if o != origin {
                    assert(indices_with_origin(commodities@, o) == indices_with_origin(old_commodities, o));
                }
            }
            assert forall|o: NodeIdx| #[trigger] commodities_by_origin@.contains_key(o) implies commodities_by_origin@[o]@ == indices_with_origin(commodities@, o) by {
                if o != origin {
                    assert(indices_with_origin(commodities@, o) == indices_with_origin(old_commodities, o));
                } else {
                    if old_by_origin.contains_key(origin) {
                        assert(old_by_origin[origin]@ == indices_with_origin(old_commodities, origin));
                    } else {
                        assert(indices_with_origin(old_commodities, origin).len() == 0);
                        assert(indices_with_origin(old_commodities, origin) =~= Seq::<CommodityIdx>::empty());
                    }
                }
            }
            assert forall|c: int| 0 <= c < commodities@.len() implies #[trigger] commodities@[c].destination_idx < destinations@.len() by {
                if c < old_commodities.len() {
                    assert(commodities@[c] == old_commodities[c]);
                }
            }
        }
        *self = Demand { destinations, destination_by_node_idx, commodities_by_origin, commodities };
        commodity_idx
    }
}

impl<D> DemandOps for Demand<D> {
    closed spec fn destination_count(&self) -> nat {
        self.destinations@.len()
    }

    closed spec fn destination_node(&self, destination: int) -> NodeIdx {
        self.destinations@[destination]
    }

    /// The node of destination `destination_idx`.
    fn node_idx_by_destination(&self, destination_idx: DestinationIdx) -> (r: NodeIdx)
        ensures
            r == self.destinations_view()[destination_idx as int],
    {
        self.destinations[destination_idx]
    }

    /// The number of destinations; they are pairwise distinct nodes.
    fn num_destinations(&self) -> (r: usize)
        ensures
            r == self.destinations_view().len(),
            forall|i: int, j: int| 0 <= i < j < r ==> #[trigger] self.destinations_view()[i] != #[trigger] self.destinations_view()[j],
    {
        proof {
            use_type_invariant(self);
        }
        self.destinations.len()
    }
}

} // verus!
