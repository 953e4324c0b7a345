use frank_wolfe::demand::{Demand, DemandOps};

#[test]
fn add_commodity_numbers_destinations_in_order_of_first_use() {
    let mut demand: Demand<u32> = Demand::empty();
    assert_eq!(demand.add_commodity(0, 5, 10), 0);
    assert_eq!(demand.add_commodity(1, 3, 20), 1);
    assert_eq!(demand.add_commodity(0, 5, 30), 2);
    assert_eq!(demand.num_destinations(), 2);
    assert_eq!(demand.node_idx_by_destination(0), 5);
    assert_eq!(demand.node_idx_by_destination(1), 3);
    let c = demand.get_commodity(2);
    assert_eq!((c.origin, c.destination_idx, c.demand), (0, 0, 30));
    assert_eq!(demand.commodities()[1].destination_idx, 1);
}

#[test]
fn commodities_by_origin_lists_indices_in_order() {
    let mut demand: Demand<u32> = Demand::empty();
    demand.add_commodity(2, 1, 1);
    demand.add_commodity(4, 1, 1);
    demand.add_commodity(2, 3, 1);
    let by_origin = demand.commodities_by_origin();
    assert_eq!(by_origin.len(), 2);
    assert_eq!(by_origin[&2], vec![0, 2]);
    assert_eq!(by_origin[&4], vec![1]);
}

#[test]
fn empty_demand_has_nothing() {
    let demand: Demand<u32> = Demand::empty();
    assert!(demand.commodities().is_empty());
    assert_eq!(demand.num_destinations(), 0);
    assert!(demand.commodities_by_origin().is_empty());
}

#[test]
fn new_tables_are_empty() {
    let map: rustc_hash::FxHashMap<usize, u32> = frank_wolfe::collections::map_new();
    let set: rustc_hash::FxHashSet<usize> = frank_wolfe::collections::set_new();
    assert!(map.is_empty());
    assert!(set.is_empty());
}
