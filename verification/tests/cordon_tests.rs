use frank_wolfe::cordon::{CordonColumn, CordonEdge, CordonMapError, CordonPricingMap};
use frank_wolfe::text::IntError;

fn row(fields: &[&str]) -> Vec<Vec<char>> {
    fields.iter().map(|f| f.chars().collect()).collect()
}

const OUTSIDE: CordonEdge = CordonEdge { inside: false, leads_inside: false };

#[test]
fn cordon_map_reads_flags_by_header_name() {
    let csv = "lies_inside,edge_id,other,leads_inside\n1,0,x,0\n0,3,y,2\n";
    let map = CordonPricingMap::from_csv(csv.as_bytes()).unwrap();
    assert_eq!(map.for_edge(0), CordonEdge { inside: true, leads_inside: false });
    assert_eq!(map.for_edge(3), CordonEdge { inside: false, leads_inside: true });
    assert_eq!(map.for_edge(1), OUTSIDE);
}

#[test]
fn cordon_map_later_row_wins() {
    let csv = "edge_id,leads_inside,lies_inside\n7,1,1\n7,0,0\n";
    let map = CordonPricingMap::from_csv(csv.as_bytes()).unwrap();
    assert_eq!(map.for_edge(7), OUTSIDE);
}

#[test]
fn cordon_map_first_header_of_a_name_counts() {
    let csv = "edge_id,edge_id,leads_inside,lies_inside\n4,5,0,1\n";
    let map = CordonPricingMap::from_csv(csv.as_bytes()).unwrap();
    assert_eq!(map.for_edge(4), CordonEdge { inside: true, leads_inside: false });
    assert_eq!(map.for_edge(5), OUTSIDE);
}

#[test]
fn cordon_map_quoted_fields_are_read_by_the_csv_parser() {
    let csv = "\"edge_id\",leads_inside,lies_inside\n\"12\",\"1\",0\n";
    let map = CordonPricingMap::from_csv(csv.as_bytes()).unwrap();
    assert_eq!(map.for_edge(12), CordonEdge { inside: false, leads_inside: true });
}

#[test]
fn cordon_map_header_only_is_empty() {
    let map = CordonPricingMap::from_csv(b"edge_id,leads_inside,lies_inside\n").unwrap();
    assert_eq!(map.for_edge(0), OUTSIDE);
}

#[test]
fn cordon_map_missing_headers_in_order() {
    assert_eq!(
        CordonPricingMap::from_csv(b"").unwrap_err(),
        CordonMapError::MissingHeader { column: CordonColumn::EdgeId }
    );
    assert_eq!(
        CordonPricingMap::from_csv(b"edge_id,lies_inside\n1,1\n").unwrap_err(),
        CordonMapError::MissingHeader { column: CordonColumn::LeadsInside }
    );
    assert_eq!(
        CordonPricingMap::from_csv(b"edge_id,leads_inside\n1,1\n").unwrap_err(),
        CordonMapError::MissingHeader { column: CordonColumn::LiesInside }
    );
}

#[test]
fn cordon_map_invalid_numbers_name_row_and_column() {
    assert_eq!(
        CordonPricingMap::from_csv(b"edge_id,leads_inside,lies_inside\n1,0,0\nx,0,0\n").unwrap_err(),
        CordonMapError::InvalidNumber { row: 2, column: CordonColumn::EdgeId, error: IntError::InvalidDigit }
    );
    assert_eq!(
        CordonPricingMap::from_csv(b"edge_id,leads_inside,lies_inside\n1,-1,\n").unwrap_err(),
        CordonMapError::InvalidNumber { row: 1, column: CordonColumn::LiesInside, error: IntError::Empty }
    );
    assert_eq!(
        CordonPricingMap::from_csv(b"edge_id,leads_inside,lies_inside\n1,-1,0\n").unwrap_err(),
        CordonMapError::InvalidNumber { row: 1, column: CordonColumn::LeadsInside, error: IntError::InvalidDigit }
    );
}

#[test]
fn cordon_map_rejects_rows_of_unequal_length() {
    assert_eq!(
        CordonPricingMap::from_csv(b"edge_id,leads_inside,lies_inside\n1,0\n").unwrap_err(),
        CordonMapError::InvalidCsv
    );
    assert_eq!(CordonPricingMap::from_csv(b"edge_id,\xff\n").unwrap_err(), CordonMapError::InvalidCsv);
}

#[test]
fn cordon_map_from_rows_reports_missing_fields() {
    let rows = vec![row(&["lies_inside", "leads_inside", "edge_id"]), row(&["1", "1"])];
    assert_eq!(
        CordonPricingMap::from_rows(&rows).unwrap_err(),
        CordonMapError::MissingField { row: 1, column: CordonColumn::EdgeId }
    );
    let rows = vec![row(&["edge_id", "leads_inside", "lies_inside"]), row(&["3", "1"])];
    assert_eq!(
        CordonPricingMap::from_rows(&rows).unwrap_err(),
        CordonMapError::MissingField { row: 1, column: CordonColumn::LiesInside }
    );
}

#[test]
fn cordon_map_from_rows_makes_the_map() {
    let rows = vec![row(&["edge_id", "leads_inside", "lies_inside"]), row(&["+2", "0", "5"])];
    let map = CordonPricingMap::from_rows(&rows).unwrap();
    assert_eq!(map.for_edge(2), CordonEdge { inside: true, leads_inside: false });
}
