//! The cordon edge map: for each edge of the network, whether it lies inside
//! the priced cordon and whether it leads into it, read from a CSV table with
//! the columns `edge_id`, `lies_inside` and `leads_inside`.

use crate::collections::{index_map_get, index_map_insert, map_new};
use crate::text::{chars_equal, parse_usize, parse_usize_spec, IntError};
use rustc_hash::FxHashMap;
use vstd::prelude::*;

verus! {

/// How one edge relates to the cordon.
#[derive(Debug, PartialEq, Eq, Structural, Clone, Copy)]
pub struct CordonEdge {
    /// The edge lies inside the cordon.
    pub inside: bool,
    /// The edge crosses the cordon towards its inside.
    pub leads_inside: bool,
}

/// The columns of the cordon table.
#[derive(Debug, PartialEq, Eq, Structural, Clone, Copy)]
pub enum CordonColumn {
    /// `edge_id`: the index of the edge.
    EdgeId,
    /// `leads_inside`: above 0 where the edge leads into the cordon.
    LeadsInside,
    /// `lies_inside`: above 0 where the edge lies inside the cordon.
    LiesInside,
}

/// Why a cordon table cannot be read.
#[derive(Debug, PartialEq, Eq, Structural, Clone, Copy)]
pub enum CordonMapError {
    /// The bytes are not a CSV table.
    InvalidCsv,
    /// The header row names no such column.
    MissingHeader { column: CordonColumn },
    /// Row `row` (counting the header row as row 0) ends before the column.
    MissingField { row: usize, column: CordonColumn },
    /// The field of row `row` in the column is not a `usize` numeral.
    InvalidNumber { row: usize, column: CordonColumn, error: IntError },
}

/// The fields of a row, each as its characters.
pub open spec fn fields_view(row: Seq<Vec<char>>) -> Seq<Seq<char>> {
    row.map_values(|field: Vec<char>| field@)
}

/// The rows of a table, each field as its characters.
pub open spec fn rows_view(rows: Seq<Vec<Vec<char>>>) -> Seq<Seq<Seq<char>>> {
    rows.map_values(|row: Vec<Vec<char>>| fields_view(row@))
}

/// The rows that the `csv` crate reads from `bytes` when no row is taken as
/// a header, each field as its characters; `None` where it reports an error.
pub uninterp spec fn csv_rows(bytes: Seq<u8>) -> Option<Seq<Seq<Seq<char>>>>;

/// Reads every row of the CSV table in `bytes` with the `csv` crate
/// (`ReaderBuilder::new().has_headers(false)`, its other settings left at
/// their defaults, then `records`). The contract claims that the outcome is
/// `csv_rows` of the bytes: `None` exactly when a record is reported as an
/// error (such as invalid UTF-8 or a row whose number of fields differs from
/// the first row's), otherwise the records in order with their fields.
#[verifier::external_body]
fn read_csv_rows(bytes: &[u8]) -> (r: Option<Vec<Vec<Vec<char>>>>)
    ensures
        match r {
            None => csv_rows(bytes@) is None,
            Some(rows) => csv_rows(bytes@) == Some(rows_view(rows@)),
        },
{
    let mut reader = csv::ReaderBuilder::new().has_headers(false).from_reader(bytes);
    let rows: Result<Vec<Vec<Vec<char>>>, csv::Error> = reader
        .records()
        .map(|record| record.map(|fields| fields.iter().map(|field| field.chars().collect()).collect()))
        .collect();
    rows.ok()
}

/// The header of the column.
pub open spec fn column_name(column: CordonColumn) -> Seq<char> {
    match column {
        CordonColumn::EdgeId => seq!['e', 'd', 'g', 'e', '_', 'i', 'd'],
        CordonColumn::LeadsInside => seq!['l', 'e', 'a', 'd', 's', '_', 'i', 'n', 's', 'i', 'd', 'e'],
        CordonColumn::LiesInside => seq!['l', 'i', 'e', 's', '_', 'i', 'n', 's', 'i', 'd', 'e'],
    }
}

/// The first position at or after `i` whose header is `name`.
pub open spec fn position_from(header: Seq<Seq<char>>, name: Seq<char>, i: int) -> Option<int>
    decreases header.len() - i,
{
    if i >= header.len() {
        None
    } else if header[i] == name {
        Some(i)
    } else {
        position_from(header, name, i + 1)
    }
}

/// The first row of the table, or no fields for an empty table.
pub open spec fn header_row(rows: Seq<Seq<Seq<char>>>) -> Seq<Seq<char>> {
    if rows.len() > 0 {
        rows[0]
    } else {
        Seq::empty()
    }
}

/// The number in the field at `index` of row number `n`.
pub open spec fn field_number(row: Seq<Seq<char>>, index: int, n: int, column: CordonColumn) -> Result<
    usize,
    CordonMapError,
> {
    if index >= row.len() {
        Err(CordonMapError::MissingField { row: n as usize, column })
    } else {
        match parse_usize_spec(row[index]) {
            Ok(v) => Ok(v),
            Err(error) => Err(CordonMapError::InvalidNumber { row: n as usize, column, error }),
        }
    }
}

/// The entry of row number `n`, given the positions of the edge id, the
/// `leads_inside` and the `lies_inside` columns: its fields are read in the
/// order edge id, `lies_inside`, `leads_inside`, and a flag holds where its
/// number is above 0.
pub open spec fn row_entry(row: Seq<Seq<char>>, cols: (int, int, int), n: int) -> Result<
    (usize, CordonEdge),
    CordonMapError,
> {
    match field_number(row, cols.0, n, CordonColumn::EdgeId) {
        Err(e) => Err(e),
        Ok(edge) => match field_number(row, cols.2, n, CordonColumn::LiesInside) {
            Err(e) => Err(e),
            Ok(lies) => match field_number(row, cols.1, n, CordonColumn::LeadsInside) {
                Err(e) => Err(e),
                Ok(leads) => Ok((edge, CordonEdge { inside: lies > 0, leads_inside: leads > 0 })),
            },
        },
    }
}

/// The map made of the data rows before row number `n`, taken in order, a
/// later entry for an edge replacing an earlier one; or the error of the first
/// row that cannot be read.
pub open spec fn entries_upto(rows: Seq<Seq<Seq<char>>>, cols: (int, int, int), n: int) -> Result<
    Map<usize, CordonEdge>,
    CordonMapError,
>
    decreases n,
{
    if n <= 1 {
        Ok(Map::empty())
    } else {
        match entries_upto(rows, cols, n - 1) {
            Err(e) => Err(e),
            Ok(m) => match row_entry(rows[n - 1], cols, n - 1) {
                Err(e) => Err(e),
                Ok(entry) => Ok(m.insert(entry.0, entry.1)),
            },
        }
    }
}

/// What the table `rows` gives: the first header named `edge_id`,
/// `leads_inside` and `lies_inside` locates each column (the first one missing,
/// in that order, is the error), and the data rows that follow make the map.
pub open spec fn cordon_map_spec(rows: Seq<Seq<Seq<char>>>) -> Result<
    Map<usize, CordonEdge>,
    CordonMapError,
> {
    let header = header_row(rows);
    match position_from(header, column_name(CordonColumn::EdgeId), 0) {
        None => Err(CordonMapError::MissingHeader { column: CordonColumn::EdgeId }),
        Some(e) => match position_from(header, column_name(CordonColumn::LeadsInside), 0) {
            None => Err(CordonMapError::MissingHeader { column: CordonColumn::LeadsInside }),
            Some(l) => match position_from(header, column_name(CordonColumn::LiesInside), 0) {
                None => Err(CordonMapError::MissingHeader { column: CordonColumn::LiesInside }),
                Some(i) => entries_upto(rows, (e, l, i), rows.len() as int),
            },
        },
    }
}

/// Which edges lie inside the cordon and which lead into it.
#[derive(Clone, Debug)]
pub struct CordonPricingMap {
    map: FxHashMap<usize, CordonEdge>,
}

impl View for CordonPricingMap {
    type V = Map<usize, CordonEdge>;

    /// The edges listed in the table, with their relation to the cordon.
    closed spec fn view(&self) -> Map<usize, CordonEdge> {
        self.map@
    }
}

/// The outcome of reading a table, the map taken by its view.
pub open spec fn outcome_view(r: Result<CordonPricingMap, CordonMapError>) -> Result<
    Map<usize, CordonEdge>,
    CordonMapError,
> {
    match r {
        Ok(m) => Ok(m@),
        Err(e) => Err(e),
    }
}

/// The header of the column, as characters.
fn column_chars(column: CordonColumn) -> (r: Vec<char>)
    ensures
        r@ == column_name(column),
{
    let r = match column {
        CordonColumn::EdgeId => vec!['e', 'd', 'g', 'e', '_', 'i', 'd'],
        CordonColumn::LeadsInside => vec!['l', 'e', 'a', 'd', 's', '_', 'i', 'n', 's', 'i', 'd', 'e'],
        CordonColumn::LiesInside => vec!['l', 'i', 'e', 's', '_', 'i', 'n', 's', 'i', 'd', 'e'],
    };
    assert(r@ =~= column_name(column));
    r
}

/// The first position in `header` of the column.
fn find_column(header: &Vec<Vec<char>>, column: CordonColumn) -> (r: Option<usize>)
    ensures
        match r {
            None => position_from(fields_view(header@), column_name(column), 0) is None,
            Some(i) => position_from(fields_view(header@), column_name(column), 0) == Some(i as int),
        },
{
    let name = column_chars(column);
    let ghost fields = fields_view(header@);
    let mut i: usize = 0;
    while i < header.len()
        invariant
            i <= header@.len(),
            fields == fields_view(header@),
            name@ == column_name(column),
            position_from(fields, name@, 0) == position_from(fields, name@, i as int),
        decreases header@.len() - i,
    {
        if chars_equal(header[i].as_slice(), name.as_slice()) {
            return Some(i);
        }
        i = i + 1;
    }
    None
}

/// The number in the field at `index` of row number `n`.
fn read_field(row: &Vec<Vec<char>>, index: usize, n: usize, column: CordonColumn) -> (r: Result<
    usize,
    CordonMapError,
>)
    ensures
        r == field_number(fields_view(row@), index as int, n as int, column),
{
    if index >= row.len() {
        return Err(CordonMapError::MissingField { row: n, column });
    }
    match parse_usize(row[index].as_slice()) {
        Ok(v) => Ok(v),
        Err(error) => Err(CordonMapError::InvalidNumber { row: n, column, error }),
    }
}

/// The entry of row number `n`.
fn read_row(row: &Vec<Vec<char>>, cols: (usize, usize, usize), n: usize) -> (r: Result<
    (usize, CordonEdge),
    CordonMapError,
>)
    ensures
        r == row_entry(fields_view(row@), (cols.0 as int, cols.1 as int, cols.2 as int), n as int),
{
    let edge = match read_field(row, cols.0, n, CordonColumn::EdgeId) {
        Err(e) => return Err(e),
        Ok(v) => v,
    };
    let lies = match read_field(row, cols.2, n, CordonColumn::LiesInside) {
        Err(e) => return Err(e),
        Ok(v) => v,
    };
    let leads = match read_field(row, cols.1, n, CordonColumn::LeadsInside) {
        Err(e) => return Err(e),
        Ok(v) => v,
    };
    Ok((edge, CordonEdge { inside: lies > 0, leads_inside: leads > 0 }))
}

/// Once a row cannot be read, every longer prefix of the table fails with the same error.
proof fn lemma_entries_error_stays(rows: Seq<Seq<Seq<char>>>, cols: (int, int, int), k: int, j: int)
    requires
        k <= j,
        entries_upto(rows, cols, k) is Err,
    ensures
        entries_upto(rows, cols, j) == entries_upto(rows, cols, k),
    decreases j - k,
{
    if k < j {
        lemma_entries_error_stays(rows, cols, k, j - 1);
    }
}

impl CordonPricingMap {
    /// How `edge` relates to the cordon; an edge that the table does not list
    /// lies outside and does not lead inside.
    pub fn for_edge(&self, edge: usize) -> (r: CordonEdge)
        ensures
            r == (if self@.contains_key(edge) {
                self@[edge]
            } else {
                CordonEdge { inside: false, leads_inside: false }
            }),
    {
        match index_map_get(&self.map, edge) {
            Some(e) => *e,
            None => CordonEdge { inside: false, leads_inside: false },
        }
    }

    /// Makes the map from the rows of the table, its header row first.
    pub fn from_rows(rows: &Vec<Vec<Vec<char>>>) -> (r: Result<CordonPricingMap, CordonMapError>)
        ensures
            outcome_view(r) == cordon_map_spec(rows_view(rows@)),
    {
        let ghost table = rows_view(rows@);
        if rows.len() == 0 {
            assert(header_row(table) =~= Seq::<Seq<char>>::empty());
            return Err(CordonMapError::MissingHeader { column: CordonColumn::EdgeId });
        }
        let header = &rows[0];
        assert(header_row(table) == fields_view(header@));
        let edge_col = match find_column(header, CordonColumn::EdgeId) {
            None => return Err(CordonMapError::MissingHeader { column: CordonColumn::EdgeId }),
            Some(c) => c,
        };
        let leads_col = match find_column(header, CordonColumn::LeadsInside) {
            None => return Err(CordonMapError::MissingHeader { column: CordonColumn::LeadsInside }),
            Some(c) => c,
        };
        let lies_col = match find_column(header, CordonColumn::LiesInside) {
            None => return Err(CordonMapError::MissingHeader { column: CordonColumn::LiesInside }),
            Some(c) => c,
        };
        let cols = (edge_col, leads_col, lies_col);
        let ghost spec_cols = (edge_col as int, leads_col as int, lies_col as int);
        assert(cordon_map_spec(table) == entries_upto(table, spec_cols, rows@.len() as int));
        let mut map: FxHashMap<usize, CordonEdge> = map_new();
        let mut n: usize = 1;
        while n < rows.len()
            invariant
                1 <= n <= rows@.len(),
                table == rows_view(rows@),
                spec_cols == (cols.0 as int, cols.1 as int, cols.2 as int),
                cordon_map_spec(table) == entries_upto(table, spec_cols, rows@.len() as int),
                entries_upto(table, spec_cols, n as int) == Ok::<Map<usize, CordonEdge>, CordonMapError>(map@),
            decreases rows@.len() - n,
        {
            let entry = read_row(&rows[n], cols, n);
            assert(table[n as int] == fields_view(rows@[n as int]@));
            match entry {
                Err(e) => {
                    proof {
                        lemma_entries_error_stays(table, spec_cols, n + 1, rows@.len() as int);
                    }
                    return Err(e);
                },
                Ok((edge, value)) => {
                    index_map_insert(&mut map, edge, value);
                },
            }
            n = n + 1;
        }
        Ok(CordonPricingMap { map })
    }

    /// Reads the map from the bytes of a CSV table whose first row names the
    /// columns: `InvalidCsv` where the `csv` crate reports an error, otherwise
    /// what [`Self::from_rows`] makes of the rows.
    pub fn from_csv(bytes: &[u8]) -> (r: Result<CordonPricingMap, CordonMapError>)
        ensures
            match csv_rows(bytes@) {
                None => r == Err::<CordonPricingMap, CordonMapError>(CordonMapError::InvalidCsv),
                Some(rows) => outcome_view(r) == cordon_map_spec(rows),
            },
    {
        match read_csv_rows(bytes) {
            None => Err(CordonMapError::InvalidCsv),
            Some(rows) => Self::from_rows(&rows),
        }
    }
}

/// A prefix of a table that can be read is read without error.
proof fn lemma_entries_prefix_ok(rows: Seq<Seq<Seq<char>>>, cols: (int, int, int), j: int, k: int)
    requires
        j <= k,
        entries_upto(rows, cols, k) is Ok,
    ensures
        entries_upto(rows, cols, j) is Ok,
{
    if entries_upto(rows, cols, j) is Err {
        lemma_entries_error_stays(rows, cols, j, k);
    }
}

/// Rows after row `n` whose edge id differs from `edge` leave the entry of `edge` alone.
proof fn lemma_entries_keep(rows: Seq<Seq<Seq<char>>>, cols: (int, int, int), n: int, k: int, edge: usize, value: CordonEdge)
    requires
        1 <= n,
        n + 1 <= k <= rows.len(),
        entries_upto(rows, cols, k) is Ok,
        entries_upto(rows, cols, n + 1) matches Ok(m) && m.contains_key(edge) && m[edge] == value,
        forall|j: int| n < j < rows.len() ==> !(cols.0 < (#[trigger] rows[j]).len() && parse_usize_spec(rows[j][cols.0])
            == Ok::<usize, IntError>(edge)),
    ensures
        entries_upto(rows, cols, k) matches Ok(m) && m.contains_key(edge) && m[edge] == value,
    decreases k,
{
    if k > n + 1 {
        lemma_entries_prefix_ok(rows, cols, k - 1, k);
        lemma_entries_keep(rows, cols, n, k - 1, edge, value);
        let row = rows[k - 1];
        assert(!(cols.0 < row.len() && parse_usize_spec(row[cols.0]) == Ok::<usize, IntError>(edge)));
    }
}

/// The flags of an edge are those of the last data row that names it: it
/// lies inside exactly when the row's `lies_inside` number is above 0, and
/// leads inside exactly when its `leads_inside` number is above 0, each flag
/// read from its own column alone.
pub proof fn law_cordon_flags_of_last_row(
    rows: Seq<Seq<Seq<char>>>,
    n: int,
    ec: int,
    lc: int,
    ic: int,
    edge: usize,
    leads: usize,
    lies: usize,
)
    requires
        1 <= n < rows.len(),
        position_from(header_row(rows), column_name(CordonColumn::EdgeId), 0) == Some(ec),
        position_from(header_row(rows), column_name(CordonColumn::LeadsInside), 0) == Some(lc),
        position_from(header_row(rows), column_name(CordonColumn::LiesInside), 0) == Some(ic),
        0 <= ec < rows[n].len(),
        0 <= lc < rows[n].len(),
        0 <= ic < rows[n].len(),
        parse_usize_spec(rows[n][ec]) == Ok::<usize, IntError>(edge),
        parse_usize_spec(rows[n][lc]) == Ok::<usize, IntError>(leads),
        parse_usize_spec(rows[n][ic]) == Ok::<usize, IntError>(lies),
        forall|j: int| n < j < rows.len() ==> !(ec < (#[trigger] rows[j]).len() && parse_usize_spec(rows[j][ec])
            == Ok::<usize, IntError>(edge)),
    ensures
        cordon_map_spec(rows) is Ok ==> (cordon_map_spec(rows) matches Ok(m) && m.contains_key(edge) && m[edge]
            == (CordonEdge { inside: lies > 0, leads_inside: leads > 0 })),
{
    let cols = (ec, lc, ic);
    assert(cordon_map_spec(rows) == entries_upto(rows, cols, rows.len() as int));
    if cordon_map_spec(rows) is Ok {
        lemma_entries_prefix_ok(rows, cols, n, rows.len() as int);
        lemma_entries_prefix_ok(rows, cols, n + 1, rows.len() as int);
        assert(row_entry(rows[n], cols, n) == Ok::<(usize, CordonEdge), CordonMapError>(
            (edge, CordonEdge { inside: lies > 0, leads_inside: leads > 0 }),
        ));
        lemma_entries_keep(
            rows,
            cols,
            n,
            rows.len() as int,
            edge,
            CordonEdge { inside: lies > 0, leads_inside: leads > 0 },
        );
    }
}

/// A column is found at the first header with its name, wherever later
/// headers with the same name stand.
pub proof fn law_column_at_first_header(header: Seq<Seq<char>>, column: CordonColumn, k: int)
    requires
        0 <= k < header.len(),
        header[k] == column_name(column),
        forall|j: int| 0 <= j < k ==> (#[trigger] header[j]) != column_name(column),
    ensures
        position_from(header, column_name(column), 0) == Some(k),
{
    lemma_position_from(header, column_name(column), 0, k);
}

proof fn lemma_position_from(header: Seq<Seq<char>>, name: Seq<char>, i: int, k: int)
    requires
        0 <= i <= k < header.len(),
        header[k] == name,
        forall|j: int| i <= j < k ==> (#[trigger] header[j]) != name,
    ensures
        position_from(header, name, i) == Some(k),
    decreases k - i,
{
    if i < k {
        lemma_position_from(header, name, i + 1, k);
    }
}

} // verus!
