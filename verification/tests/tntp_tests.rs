use frank_wolfe::demand::DemandOps;
use frank_wolfe::graph::GraphOps;
use frank_wolfe::text::IntError;
use frank_wolfe::tntp::{read_net, read_trips, Column, TNTPNet, TntpError};

fn chars(s: &str) -> Vec<char> {
    s.chars().collect()
}

const NET: &str = "<NUMBER OF ZONES> 2\n\
<FIRST THRU NODE> 2\n\
<END OF METADATA>\n\
\n\
~\tinit_node\tterm_node\tcapacity\tlength\tfree_flow_time\tb\tpower\t;\n\
\t1\t2\t25900.2\t6\t6.5\t0.15\t4\t;\n\
   \t  \n\
\t2\t3\t100\t1e1\t2\t.15\t4\t;\r\n\
\t3\t1\tinf\t2.\t3\t0\t4\t;\n";

fn net() -> TNTPNet {
    read_net(&chars(NET)).unwrap()
}

#[test]
fn read_net_builds_nodes_in_order_of_first_occurrence() {
    let net = net();
    assert_eq!(net.graph.num_nodes(), 3);
    assert_eq!(net.graph.num_edges(), 3);
    assert_eq!(net.node_idx_by_id.len(), 3);
    assert_eq!(net.node_idx_by_id[&1], 0);
    assert_eq!(net.node_idx_by_id[&2], 1);
    assert_eq!(net.node_idx_by_id[&3], 2);
    assert_eq!((net.graph.edge_tail(0), net.graph.edge_head(0)), (0, 1));
    assert_eq!((net.graph.edge_tail(1), net.graph.edge_head(1)), (1, 2));
    assert_eq!((net.graph.edge_tail(2), net.graph.edge_head(2)), (2, 0));
    assert_eq!(net.graph.edge_bundle(1), 0);
    assert_eq!(net.graph.num_permits(), 0);
}

#[test]
fn read_net_marks_nodes_below_first_thru_node() {
    let net = net();
    assert!(!net.graph.node_allows_through_traffic(0));
    assert!(net.graph.node_allows_through_traffic(1));
    assert!(net.graph.node_allows_through_traffic(2));
}

#[test]
fn read_net_keeps_numeric_fields_as_text() {
    let net = net();
    let first = net.graph.edge(0).params();
    assert_eq!(first.capacity, "25900.2");
    assert_eq!(first.length, "6");
    assert_eq!(first.free_flow_time, "6.5");
    assert_eq!(first.b, "0.15");
    let second = net.graph.edge(1).params();
    assert_eq!(second.length, "1e1");
    assert_eq!(second.b, ".15");
    let third = net.graph.edge(2).params();
    assert_eq!(third.capacity, "inf");
    assert_eq!(third.length, "2.");
}

#[test]
fn read_net_without_metadata_lets_every_node_through() {
    let text = "Init_Node\tTERM_NODE\tcapacity\tlength\tfree_flow_time\tB\n5\t7\t1\t1\t1\t1\n";
    let net = read_net(&chars(text)).unwrap();
    assert_eq!(net.graph.num_nodes(), 2);
    assert_eq!(net.node_idx_by_id[&5], 0);
    assert_eq!(net.node_idx_by_id[&7], 1);
    assert!(net.graph.node_allows_through_traffic(0));
    assert!(net.graph.node_allows_through_traffic(1));
}

#[test]
fn read_net_self_loop_adds_one_node() {
    let text = "init_node\tterm_node\tcapacity\tlength\tfree_flow_time\tb\n4\t4\t1\t1\t1\t1\n";
    let net = read_net(&chars(text)).unwrap();
    assert_eq!(net.graph.num_nodes(), 1);
    assert_eq!((net.graph.edge_tail(0), net.graph.edge_head(0)), (0, 0));
}

#[test]
fn read_net_reports_empty_file() {
    assert_eq!(read_net(&chars("")).err(), Some(TntpError::EmptyNetFile));
    assert_eq!(read_net(&chars("<A> b\n<END OF METADATA>\n  \n")).err(), Some(TntpError::EmptyNetFile));
}

#[test]
fn read_net_reports_metadata_errors() {
    assert_eq!(
        read_net(&chars("<NAME x\n")).err(),
        Some(TntpError::IncompleteMetadataTag { line: 1, text: "<NAME x".to_string() })
    );
    assert_eq!(
        read_net(&chars("\n<END OF METADATA> extra\n")).err(),
        Some(TntpError::UnexpectedEndOfMetadataValue { line: 2, value: " extra".to_string() })
    );
    assert_eq!(
        read_net(&chars("<FIRST THRU NODE> x\n<END OF METADATA>\n")).err(),
        Some(TntpError::InvalidFirstThruNode { error: IntError::InvalidDigit })
    );
}

#[test]
fn read_net_reports_missing_header_column() {
    let text = "<END OF METADATA>\ninit_node\tterm_node\tcapacity\tlen\tfree_flow_time\n";
    assert_eq!(
        read_net(&chars(text)).err(),
        Some(TntpError::MissingHeaderColumn { line: 2, column: Column::Length })
    );
}

#[test]
fn read_net_reports_link_errors() {
    let header = "init_node\tterm_node\tcapacity\tlength\tfree_flow_time\tb\n";
    let missing = format!("{}1\t2\t3\n", header);
    assert_eq!(
        read_net(&chars(&missing)).err(),
        Some(TntpError::MissingColumn { line: 2, column: Column::Length })
    );
    let bad_id = format!("{}1\tx\t3\t1\t1\t1\n", header);
    assert_eq!(
        read_net(&chars(&bad_id)).err(),
        Some(TntpError::InvalidNodeId { line: 2, column: Column::TermNode, error: IntError::InvalidDigit })
    );
    let bad_number = format!("{}1\t2\t3\t1\t1.2.3\t1\n", header);
    assert_eq!(
        read_net(&chars(&bad_number)).err(),
        Some(TntpError::InvalidNumber { line: 2, column: Column::FreeFlowTime, text: "1.2.3".to_string() })
    );
}

const TRIPS: &str = "<NUMBER OF ZONES> 3\n\
<END OF METADATA>\n\
\n\
Origin  1\n\
    2 :    100.0;     3 :      50.0;\n\
ORIGIN 3\n\
    1 : 7;\n\
origin 2\n\
    2 : 1e2; 3 : 0;\n";

#[test]
fn read_trips_adds_a_commodity_per_pair() {
    let net = net();
    let demand = read_trips(&chars(TRIPS), &net).unwrap();
    let commodities = demand.commodities();
    assert_eq!(commodities.len(), 5);
    let origins: Vec<usize> = commodities.iter().map(|c| c.origin).collect();
    assert_eq!(origins, vec![0, 0, 2, 1, 1]);
    let destinations: Vec<usize> =
        commodities.iter().map(|c| demand.node_idx_by_destination(c.destination_idx)).collect();
    assert_eq!(destinations, vec![1, 2, 0, 1, 2]);
    let values: Vec<&str> = commodities.iter().map(|c| c.demand.as_str()).collect();
    assert_eq!(values, vec!["100.0", "50.0", "7", "1e2", "0"]);
    assert_eq!(demand.num_destinations(), 3);
    assert_eq!(commodities[3].destination_idx, commodities[0].destination_idx);
}

#[test]
fn read_trips_reports_origin_errors() {
    let net = net();
    assert_eq!(
        read_trips(&chars("2 : 1;\n"), &net).err(),
        Some(TntpError::TripsWithoutOrigin { line: 1 })
    );
    assert_eq!(
        read_trips(&chars("Origin 1 2\n"), &net).err(),
        Some(TntpError::InvalidOriginLine { line: 2, text: "Origin 1 2".to_string() })
    );
    assert_eq!(
        read_trips(&chars("\nOrigin x\n"), &net).err(),
        Some(TntpError::InvalidOriginId { line: 2, error: IntError::InvalidDigit })
    );
    assert_eq!(
        read_trips(&chars("Origin 9\n"), &net).err(),
        Some(TntpError::UnknownOrigin { line: 1, id: 9 })
    );
}

#[test]
fn read_trips_reports_pair_errors() {
    let net = net();
    assert_eq!(
        read_trips(&chars("Origin 1\n2 : 1; 3 :\n"), &net).err(),
        Some(TntpError::InvalidTripPairs { text: "2 : 1; 3 :".to_string() })
    );
    assert_eq!(
        read_trips(&chars("Origin 1\nx : 1;\n"), &net).err(),
        Some(TntpError::InvalidDestinationId { error: IntError::InvalidDigit })
    );
    assert_eq!(
        read_trips(&chars("Origin 1\n8 : 1;\n"), &net).err(),
        Some(TntpError::UnknownDestination { id: 8 })
    );
    assert_eq!(
        read_trips(&chars("Origin 1\n2 = 1;\n"), &net).err(),
        Some(TntpError::MissingColon { text: "2 = 1;".to_string() })
    );
    assert_eq!(
        read_trips(&chars("Origin 1\n2 : many;\n"), &net).err(),
        Some(TntpError::InvalidDemandValue { text: "many".to_string() })
    );
}
