//! The TNTP text formats of road networks (`_net.tntp`) and of trip tables (`_trips.tntp`).
//!
//! Both formats are read from their text; the numbers of the links and trips
//! that are floating-point values are checked to be valid and handed on as text.
//! The rules that both formats share:
//! * Lines that consist entirely of whitespace are ignored.
//! * Optionally, the first N lines may consist of metadata lines, containing a
//!   key-value pair in the format `<KEY> VALUE`. Whitespace around the key and
//!   value is trimmed.
//! * The metadata section ends at the first line that does not start with `<`,
//!   or after the line `<END OF METADATA>`, whichever comes first.
//! * In a net file, the first non-metadata line is assumed to be the header
//!   line, containing column names separated by tabs.

use rustc_hash::FxHashMap;
use vstd::prelude::*;
use crate::collections::{map_new, index_map_get, index_map_insert};
use crate::common::{NodeIdx, BUNDLE_IDX_EMPTY};
use crate::demand::Demand;
use crate::float_syntax::{float_literal, is_float_literal};
use crate::graph::Graph;
use crate::text::{
    chars_equal, copy_range, find_char, find_from, lines_view, nonblank_lines,
    numbered_nonblank_lines, parse_usize, parse_usize_spec, split_char, split_on, split_whitespace,
    string_of, trim, trimmed, words, chars_equal_ignoring_case, equal_ignoring_case, IntError,
};

verus! {

/// A column that a net file must have.
#[derive(Debug, PartialEq, Eq, Structural, Clone, Copy)]
pub enum Column {
    InitNode,
    TermNode,
    Capacity,
    Length,
    FreeFlowTime,
    B,
}

/// Why a TNTP file could not be read; the fields give the line numbers (counted
/// from 1 among all lines of the file) and the text involved.
#[derive(Debug, PartialEq, Eq, Clone)]
pub enum TntpError {
    /// A metadata line has no `>` after its `<`.
    IncompleteMetadataTag { line: usize, text: String },
    /// `<END OF METADATA>` is followed by more than white space.
    UnexpectedEndOfMetadataValue { line: usize, value: String },
    /// The value of `<FIRST THRU NODE>` is not a `usize`.
    InvalidFirstThruNode { error: IntError },
    /// A net file has no line after its metadata.
    EmptyNetFile,
    /// The header of a net file lacks a required column.
    MissingHeaderColumn { line: usize, column: Column },
    /// A link line of a net file has too few fields for a required column.
    MissingColumn { line: usize, column: Column },
    /// A node id of a link is not a `usize`.
    InvalidNodeId { line: usize, column: Column, error: IntError },
    /// A numeric field of a link is not a floating-point number.
    InvalidNumber { line: usize, column: Column, text: String },
    /// An origin line of a trips file does not consist of two words.
    InvalidOriginLine { line: usize, text: String },
    /// The id of an origin line is not a `usize`.
    InvalidOriginId { line: usize, error: IntError },
    /// The id of an origin line is not a node of the network.
    UnknownOrigin { line: usize, id: usize },
    /// A trips line comes before any origin line.
    TripsWithoutOrigin { line: usize },
    /// A trips line does not split into groups of three words.
    InvalidTripPairs { text: String },
    /// A destination id of a trips line is not a `usize`.
    InvalidDestinationId { error: IntError },
    /// A destination id of a trips line is not a node of the network.
    UnknownDestination { id: usize },
    /// A destination id of a trips line is not followed by `:`.
    MissingColon { text: String },
    /// A demand value of a trips line is not a floating-point number.
    InvalidDemandValue { text: String },
}

/// A [`TntpError`] with its texts as character sequences.
pub enum TntpErrorView {
    IncompleteMetadataTag { line: nat, text: Seq<char> },
    UnexpectedEndOfMetadataValue { line: nat, value: Seq<char> },
    InvalidFirstThruNode { error: IntError },
    EmptyNetFile,
    MissingHeaderColumn { line: nat, column: Column },
    MissingColumn { line: nat, column: Column },
    InvalidNodeId { line: nat, column: Column, error: IntError },
    InvalidNumber { line: nat, column: Column, text: Seq<char> },
    InvalidOriginLine { line: nat, text: Seq<char> },
    InvalidOriginId { line: nat, error: IntError },
    UnknownOrigin { line: nat, id: usize },
    TripsWithoutOrigin { line: nat },
    InvalidTripPairs { text: Seq<char> },
    InvalidDestinationId { error: IntError },
    UnknownDestination { id: usize },
    MissingColon { text: Seq<char> },
    InvalidDemandValue { text: Seq<char> },
}

impl View for TntpError {
    type V = TntpErrorView;

    open spec fn view(&self) -> TntpErrorView {
        match self {
            TntpError::IncompleteMetadataTag { line, text } => TntpErrorView::IncompleteMetadataTag { line: *line as nat, text: text@ },
            TntpError::UnexpectedEndOfMetadataValue { line, value } => TntpErrorView::UnexpectedEndOfMetadataValue { line: *line as nat, value: value@ },
            TntpError::InvalidFirstThruNode { error } => TntpErrorView::InvalidFirstThruNode { error: *error },
            TntpError::EmptyNetFile => TntpErrorView::EmptyNetFile,
            TntpError::MissingHeaderColumn { line, column } => TntpErrorView::MissingHeaderColumn { line: *line as nat, column: *column },
            TntpError::MissingColumn { line, column } => TntpErrorView::MissingColumn { line: *line as nat, column: *column },
            TntpError::InvalidNodeId { line, column, error } => TntpErrorView::InvalidNodeId { line: *line as nat, column: *column, error: *error },
            TntpError::InvalidNumber { line, column, text } => TntpErrorView::InvalidNumber { line: *line as nat, column: *column, text: text@ },
            TntpError::InvalidOriginLine { line, text } => TntpErrorView::InvalidOriginLine { line: *line as nat, text: text@ },
            TntpError::InvalidOriginId { line, error } => TntpErrorView::InvalidOriginId { line: *line as nat, error: *error },
            TntpError::UnknownOrigin { line, id } => TntpErrorView::UnknownOrigin { line: *line as nat, id: *id },
            TntpError::TripsWithoutOrigin { line } => TntpErrorView::TripsWithoutOrigin { line: *line as nat },
            TntpError::InvalidTripPairs { text } => TntpErrorView::InvalidTripPairs { text: text@ },
            TntpError::InvalidDestinationId { error } => TntpErrorView::InvalidDestinationId { error: *error },
            TntpError::UnknownDestination { id } => TntpErrorView::UnknownDestination { id: *id },
            TntpError::MissingColon { text } => TntpErrorView::MissingColon { text: text@ },
            TntpError::InvalidDemandValue { text } => TntpErrorView::InvalidDemandValue { text: text@ },
        }
    }
}

/// The characters of `END OF METADATA`.
pub open spec fn end_of_metadata_key() -> Seq<char> {
    seq!['E', 'N', 'D', ' ', 'O', 'F', ' ', 'M', 'E', 'T', 'A', 'D', 'A', 'T', 'A']
}

/// The characters of `FIRST THRU NODE`.
pub open spec fn first_thru_node_key() -> Seq<char> {
    seq!['F', 'I', 'R', 'S', 'T', ' ', 'T', 'H', 'R', 'U', ' ', 'N', 'O', 'D', 'E']
}

/// A metadata entry: its trimmed key and value.
pub type MetadataEntry = (Seq<char>, Seq<char>);

/// Reading the metadata of the numbered lines `lines` from index `i` on, after
/// the entries `entries`: the entries read and the index of the first line
/// after the metadata.
pub open spec fn scan_metadata(lines: Seq<(nat, Seq<char>)>, i: int, entries: Seq<MetadataEntry>) -> Result<(Seq<MetadataEntry>, int), TntpErrorView>
    decreases lines.len() - i,
{
    if i < 0 || i >= lines.len() {
        Ok((entries, i))
    } else {
        let t = trim(lines[i].1);
        if t.len() == 0 || t[0] != '<' {
            Ok((entries, i))
        } else {
            let rest = t.drop_first();
            let gt = find_from(rest, '>', 0);
            if gt >= rest.len() {
                Err(TntpErrorView::IncompleteMetadataTag { line: lines[i].0, text: t })
            } else {
                let key = rest.take(gt);
                let value = rest.skip(gt + 1);
                if key == end_of_metadata_key() {
                    if trim(value).len() == 0 {
                        Ok((entries, i + 1))
                    } else {
                        Err(TntpErrorView::UnexpectedEndOfMetadataValue { line: lines[i].0, value })
                    }
                } else {
                    scan_metadata(lines, i + 1, entries.push((trim(key), trim(value))))
                }
            }
        }
    }
}

/// The metadata entries `entries`, with their texts as character sequences.
pub open spec fn entries_view(entries: Seq<(Vec<char>, Vec<char>)>) -> Seq<MetadataEntry> {
    entries.map_values(|e: (Vec<char>, Vec<char>)| (e.0@, e.1@))
}

/// Reads the metadata at the start of `lines`: the entries, and the index of
/// the first line after the metadata.
pub fn read_metadata(lines: &Vec<(usize, Vec<char>)>) -> (r: Result<(Vec<(Vec<char>, Vec<char>)>, usize), TntpError>)
    ensures
        match scan_metadata(lines_view(lines@), 0, Seq::empty()) {
            Ok((entries, i)) => r matches Ok((es, j)) && entries_view(es@) == entries && j == i,
            Err(e) => r matches Err(x) && x@ == e,
        },
{
    let ghost ls = lines_view(lines@);
    let mut entries: Vec<(Vec<char>, Vec<char>)> = Vec::new();
    let mut i: usize = 0;
    assert(entries_view(entries@) =~= Seq::<MetadataEntry>::empty());
    while i < lines.len()
        invariant
            ls == lines_view(lines@),
            i <= lines@.len(),
            scan_metadata(ls, 0, Seq::empty()) == scan_metadata(ls, i as int, entries_view(entries@)),
        decreases lines@.len() - i,
    {
        let number = lines[i].0;
        let t = trimmed(lines[i].1.as_slice());
        assert(ls[i as int].1 == lines@[i as int].1@);
        assert(ls[i as int].0 == number as nat);
        if t.len() == 0 || t[0] != '<' {
            return Ok((entries, i));
        }
        let rest = copy_range(t.as_slice(), 1, t.len());
        assert(rest@ =~= t@.drop_first());
        let gt = find_char(rest.as_slice(), '>', 0);
        if gt >= rest.len() {
            return Err(TntpError::IncompleteMetadataTag { line: number, text: string_of(t.as_slice()) });
        }
        let key = copy_range(rest.as_slice(), 0, gt);
        let value = copy_range(rest.as_slice(), gt + 1, rest.len());
        assert(key@ =~= rest@.take(gt as int));
        assert(value@ =~= rest@.skip(gt as int + 1));
        let end_key = vec!['E', 'N', 'D', ' ', 'O', 'F', ' ', 'M', 'E', 'T', 'A', 'D', 'A', 'T', 'A'];
        assert(end_key@ =~= end_of_metadata_key());
        if chars_equal(key.as_slice(), end_key.as_slice()) {
            if trimmed(value.as_slice()).len() == 0 {
                return Ok((entries, i + 1));
            } else {
                return Err(TntpError::UnexpectedEndOfMetadataValue { line: number, value: string_of(value.as_slice()) });
            }
        }
        let tk = trimmed(key.as_slice());
        let tv = trimmed(value.as_slice());
        let ghost before = entries_view(entries@);
        entries.push((tk, tv));
        assert(entries_view(entries@) =~= before.push((trim(key@), trim(value@))));
        i = i + 1;
    }
    Ok((entries, i))
}

/// The value of the last entry of `entries` whose key is `key`.
pub open spec fn last_value(entries: Seq<MetadataEntry>, key: Seq<char>) -> Option<Seq<char>>
    decreases entries.len(),
{
    if entries.len() == 0 {
        None
    } else if entries.last().0 == key {
        Some(entries.last().1)
    } else {
        last_value(entries.drop_last(), key)
    }
}

/// The first node that allows through traffic, as the metadata entry
/// `FIRST THRU NODE` gives it, if there is one.
pub open spec fn first_thru_node_spec(entries: Seq<MetadataEntry>) -> Result<Option<usize>, TntpErrorView> {
    match last_value(entries, first_thru_node_key()) {
        None => Ok(None),
        Some(v) => match parse_usize_spec(v) {
            Ok(n) => Ok(Some(n)),
            Err(e) => Err(TntpErrorView::InvalidFirstThruNode { error: e }),
        },
    }
}

/// Reads the first node that allows through traffic from the metadata entries.
pub fn first_thru_node(entries: &Vec<(Vec<char>, Vec<char>)>) -> (r: Result<Option<usize>, TntpError>)
    ensures
        match first_thru_node_spec(entries_view(entries@)) {
            Ok(v) => r == Ok::<Option<usize>, TntpError>(v),
            Err(e) => r matches Err(x) && x@ == e,
        },
{
    let key = vec!['F', 'I', 'R', 'S', 'T', ' ', 'T', 'H', 'R', 'U', ' ', 'N', 'O', 'D', 'E'];
    assert(key@ =~= first_thru_node_key());
    let ghost ev = entries_view(entries@);
    let mut i: usize = entries.len();
    assert(ev.take(i as int) =~= ev);
    while i > 0
        invariant
            i <= entries@.len(),
            ev == entries_view(entries@),
            key@ == first_thru_node_key(),
            last_value(ev, key@) == last_value(ev.take(i as int), key@),
        decreases i,
    {
        assert(ev.take(i as int).drop_last() =~= ev.take(i as int - 1));
        assert(ev.take(i as int).last() == (entries@[i - 1].0@, entries@[i - 1].1@));
        if chars_equal(entries[i - 1].0.as_slice(), key.as_slice()) {
            return match parse_usize(entries[i - 1].1.as_slice()) {
                Ok(n) => Ok(Some(n)),
                Err(e) => Err(TntpError::InvalidFirstThruNode { error: e }),
            };
        }
        i = i - 1;
    }
    assert(ev.take(0) =~= Seq::<MetadataEntry>::empty());
    Ok(None)
}


/// The required columns, in the order in which the header is searched for them
/// and the fields of a link are read.
pub open spec fn column_at(k: int) -> Column {
    if k == 0 {
        Column::InitNode
    } else if k == 1 {
        Column::TermNode
    } else if k == 2 {
        Column::Capacity
    } else if k == 3 {
        Column::Length
    } else if k == 4 {
        Column::FreeFlowTime
    } else {
        Column::B
    }
}

/// The number of required columns.
pub const NUM_COLUMNS: usize = 6;

/// The name of a column in the header: `init_node`, `term_node`, `capacity`,
/// `length`, `free_flow_time` or `b`.
pub open spec fn column_name(c: Column) -> Seq<char> {
    match c {
        Column::InitNode => seq!['i', 'n', 'i', 't', '_', 'n', 'o', 'd', 'e'],
        Column::TermNode => seq!['t', 'e', 'r', 'm', '_', 'n', 'o', 'd', 'e'],
        Column::Capacity => seq!['c', 'a', 'p', 'a', 'c', 'i', 't', 'y'],
        Column::Length => seq!['l', 'e', 'n', 'g', 't', 'h'],
        Column::FreeFlowTime => seq!['f', 'r', 'e', 'e', '_', 'f', 'l', 'o', 'w', '_', 't', 'i', 'm', 'e'],
        Column::B => seq!['b'],
    }
}

/// The name of column `c`.
fn column_name_chars(c: Column) -> (r: Vec<char>)
    ensures
        r@ == column_name(c),
{
    let r = match c {
        Column::InitNode => vec!['i', 'n', 'i', 't', '_', 'n', 'o', 'd', 'e'],
        Column::TermNode => vec!['t', 'e', 'r', 'm', '_', 'n', 'o', 'd', 'e'],
        Column::Capacity => vec!['c', 'a', 'p', 'a', 'c', 'i', 't', 'y'],
        Column::Length => vec!['l', 'e', 'n', 'g', 't', 'h'],
        Column::FreeFlowTime => vec!['f', 'r', 'e', 'e', '_', 'f', 'l', 'o', 'w', '_', 't', 'i', 'm', 'e'],
        Column::B => vec!['b'],
    };
    assert(r@ =~= column_name(c));
    r
}

/// Column `k` of the search order.
fn column_at_index(k: usize) -> (r: Column)
    ensures
        r == column_at(k as int),
{
    if k == 0 {
        Column::InitNode
    } else if k == 1 {
        Column::TermNode
    } else if k == 2 {
        Column::Capacity
    } else if k == 3 {
        Column::Length
    } else if k == 4 {
        Column::FreeFlowTime
    } else {
        Column::B
    }
}

/// Whether the header field `piece` names the column called `name`: trimmed
/// and lower-cased, it is `name`. (The names are ASCII and hold no `k`, so the
/// only characters that lower-case to one of theirs are their ASCII upper-case
/// forms.)
pub open spec fn header_matches(piece: Seq<char>, name: Seq<char>) -> bool {
    equal_ignoring_case(trim(piece), name)
}

/// The index of the first of `pieces` at or after `from` that names the column
/// called `name`, or the number of pieces.
pub open spec fn column_position(pieces: Seq<Seq<char>>, name: Seq<char>, from: int) -> int
    decreases pieces.len() - from,
{
    if from < 0 || from >= pieces.len() {
        pieces.len() as int
    } else if header_matches(pieces[from], name) {
        from
    } else {
        column_position(pieces, name, from + 1)
    }
}

/// The index, among the fields of the header `pieces`, of each required column
/// (in the order of [`column_at`]); the number of fields where it is missing.
pub open spec fn header_positions(pieces: Seq<Seq<char>>) -> Seq<int> {
    Seq::new(6, |k: int| column_position(pieces, column_name(column_at(k)), 0))
}

/// The first of the required columns from the `k`-th on that the header
/// `pieces` lacks.
pub open spec fn missing_column(pieces: Seq<Seq<char>>, k: int) -> Option<Column>
    decreases 6 - k,
{
    if k < 0 || k >= 6 {
        None
    } else if header_positions(pieces)[k] >= pieces.len() {
        Some(column_at(k))
    } else {
        missing_column(pieces, k + 1)
    }
}

/// The character sequences of `pieces`.
pub open spec fn pieces_view(pieces: Seq<Vec<char>>) -> Seq<Seq<char>> {
    pieces.map_values(|p: Vec<char>| p@)
}

/// The position of the first of `pieces` that names the column called `name`,
/// or the number of pieces.
fn find_column(pieces: &Vec<Vec<char>>, name: &[char]) -> (r: usize)
    ensures
        r == column_position(pieces_view(pieces@), name@, 0),
{
    let ghost ps = pieces_view(pieces@);
    let mut i: usize = 0;
    while i < pieces.len()
        invariant
            ps == pieces_view(pieces@),
            i <= pieces@.len(),
            column_position(ps, name@, 0) == column_position(ps, name@, i as int),
        decreases pieces@.len() - i,
    {
        let t = trimmed(pieces[i].as_slice());
        assert(ps[i as int] == pieces@[i as int]@);
        if chars_equal_ignoring_case(t.as_slice(), name) {
            return i;
        }
        i = i + 1;
    }
    i
}

/// The positions of the required columns in the header `pieces` (the fields
/// of line `line`), in the order of [`column_at`]; fails with the first
/// column that the header lacks.
pub fn header_columns(pieces: &Vec<Vec<char>>, line: usize) -> (r: Result<Vec<usize>, TntpError>)
    ensures
        match missing_column(pieces_view(pieces@), 0) {
            None => r matches Ok(ps) && ps@.len() == 6 && forall|k: int| 0 <= k < 6 ==> ps@[k] == #[trigger] header_positions(pieces_view(pieces@))[k],
            Some(c) => r == Err::<Vec<usize>, TntpError>(TntpError::MissingHeaderColumn { line, column: c }),
        },
{
    let ghost pv = pieces_view(pieces@);
    let mut positions: Vec<usize> = Vec::new();
    let mut k: usize = 0;
    while k < NUM_COLUMNS
        invariant
            pv == pieces_view(pieces@),
            k <= 6,
            positions@.len() == k,
            forall|j: int| 0 <= j < k ==> positions@[j] == #[trigger] header_positions(pv)[j] && positions@[j] < pv.len(),
            missing_column(pv, 0) == missing_column(pv, k as int),
        decreases 6 - k,
    {
        let column = column_at_index(k);
        let name = column_name_chars(column);
        let p = find_column(pieces, name.as_slice());
        assert(header_positions(pv)[k as int] == p);
        if p >= pieces.len() {
            return Err(TntpError::MissingHeaderColumn { line, column });
        }
        positions.push(p);
        k = k + 1;
    }
    Ok(positions)
}

/// The numeric fields of a link, as text: each is a floating-point numeral that
/// `str::parse::<f64>` accepts.
#[derive(Debug, Clone)]
pub struct LinkTokens {
    pub capacity: String,
    pub length: String,
    pub free_flow_time: String,
    pub b: String,
}

/// A [`LinkTokens`] with its texts as character sequences.
pub struct LinkTokensView {
    pub capacity: Seq<char>,
    pub length: Seq<char>,
    pub free_flow_time: Seq<char>,
    pub b: Seq<char>,
}

impl View for LinkTokens {
    type V = LinkTokensView;

    open spec fn view(&self) -> LinkTokensView {
        LinkTokensView { capacity: self.capacity@, length: self.length@, free_flow_time: self.free_flow_time@, b: self.b@ }
    }
}

/// A link of a net file: the ids of its nodes and its numeric fields.
#[derive(Debug, Clone)]
pub struct Link {
    pub init_node: usize,
    pub term_node: usize,
    pub tokens: LinkTokens,
}

/// A [`Link`] with its texts as character sequences.
pub struct LinkView {
    pub init_node: usize,
    pub term_node: usize,
    pub tokens: LinkTokensView,
}

impl View for Link {
    type V = LinkView;

    open spec fn view(&self) -> LinkView {
        LinkView { init_node: self.init_node, term_node: self.term_node, tokens: self.tokens@ }
    }
}

/// The value of a parse that succeeded.
pub open spec fn parsed_value(r: Result<usize, IntError>) -> usize {
    match r {
        Ok(n) => n,
        Err(_) => 0,
    }
}

/// The first error in the fields of a link line from the `k`-th required
/// column on, where `data` are the tab-separated fields of line `line` and
/// `positions` the positions of the columns: a field that is missing, a node
/// id that is not a `usize`, or a number that is not a floating-point numeral.
pub open spec fn field_error(data: Seq<Seq<char>>, positions: Seq<int>, line: nat, k: int) -> Option<TntpErrorView>
    decreases 6 - k,
{
    if k < 0 || k >= 6 {
        None
    } else if positions[k] >= data.len() {
        Some(TntpErrorView::MissingColumn { line, column: column_at(k) })
    } else {
        let v = trim(data[positions[k]]);
        if k < 2 {
            match parse_usize_spec(v) {
                Err(e) => Some(TntpErrorView::InvalidNodeId { line, column: column_at(k), error: e }),
                Ok(_) => field_error(data, positions, line, k + 1),
            }
        } else if !float_literal(v) {
            Some(TntpErrorView::InvalidNumber { line, column: column_at(k), text: v })
        } else {
            field_error(data, positions, line, k + 1)
        }
    }
}

/// The link on the numbered line `line`, with the columns at `positions`.
pub open spec fn link_of(line: (nat, Seq<char>), positions: Seq<int>) -> Result<LinkView, TntpErrorView> {
    let data = split_char(line.1, '\t');
    match field_error(data, positions, line.0, 0) {
        Some(e) => Err(e),
        None => Ok(LinkView {
            init_node: parsed_value(parse_usize_spec(trim(data[positions[0]]))),
            term_node: parsed_value(parse_usize_spec(trim(data[positions[1]]))),
            tokens: LinkTokensView {
                capacity: trim(data[positions[2]]),
                length: trim(data[positions[3]]),
                free_flow_time: trim(data[positions[4]]),
                b: trim(data[positions[5]]),
            },
        }),
    }
}


/// The positions `ps` as integers.
pub open spec fn positions_view(ps: Seq<usize>) -> Seq<int> {
    ps.map_values(|p: usize| p as int)
}

/// The numbered line `line` as a character sequence.
pub open spec fn line_view(line: (usize, Vec<char>)) -> (nat, Seq<char>) {
    (line.0 as nat, line.1@)
}

/// Reads the link on the numbered line `line`, whose required columns stand
/// at `positions`.
pub fn parse_link(line: &(usize, Vec<char>), positions: &Vec<usize>) -> (r: Result<Link, TntpError>)
    requires
        positions@.len() == 6,
    ensures
        match link_of(line_view(*line), positions_view(positions@)) {
            Ok(l) => r matches Ok(x) && x@ == l,
            Err(e) => r matches Err(x) && x@ == e,
        },
{
    let number = line.0;
    let data = split_on(line.1.as_slice(), '\t');
    let ghost dv = split_char(line.1@, '\t');
    let ghost pv = positions_view(positions@);
    assert(line_view(*line) == (number as nat, line.1@));
    let mut values: Vec<Vec<char>> = Vec::new();
    let mut ids: Vec<usize> = Vec::new();
    let mut k: usize = 0;
    while k < NUM_COLUMNS
        invariant
            positions@.len() == 6,
            pv == positions_view(positions@),
            dv == split_char(line.1@, '\t'),
            line_view(*line) == (number as nat, line.1@),
            data@.len() == dv.len(),
            forall|j: int| 0 <= j < data@.len() ==> #[trigger] data@[j]@ == dv[j],
            k <= 6,
            values@.len() == k,
            forall|j: int| 0 <= j < k ==> #[trigger] pv[j] < dv.len(),
            forall|j: int| 0 <= j < k ==> (#[trigger] values@[j])@ == trim(dv[pv[j]]),
            ids@.len() == if k < 2 { k as int } else { 2 },
            forall|j: int| 0 <= j < ids@.len() ==> parse_usize_spec(values@[j]@) == Ok::<usize, IntError>(#[trigger] ids@[j]),
            field_error(dv, pv, number as nat, 0) == field_error(dv, pv, number as nat, k as int),
        decreases 6 - k,
    {
        let column = column_at_index(k);
        let p = positions[k];
        assert(pv[k as int] == p);
        if p >= data.len() {
            return Err(TntpError::MissingColumn { line: number, column });
        }
        let v = trimmed(data[p].as_slice());
        assert(data@[p as int]@ == dv[p as int]);
        assert(v@ == trim(dv[pv[k as int]]));
        if k < 2 {
            match parse_usize(v.as_slice()) {
                Ok(n) => {
                    ids.push(n);
                },
                Err(e) => {
                    return Err(TntpError::InvalidNodeId { line: number, column, error: e });
                },
            }
        } else if !is_float_literal(v.as_slice()) {
            return Err(TntpError::InvalidNumber { line: number, column, text: string_of(v.as_slice()) });
        }
        let ghost before = values@;
        values.push(v);
        assert forall|j: int| 0 <= j <= k implies (#[trigger] values@[j])@ == trim(dv[pv[j]]) by {
            if j < k {
                assert(values@[j] == before[j]);
            }
        }
        k = k + 1;
    }
    assert(field_error(dv, pv, number as nat, 6) is None);
    let link = Link {
        init_node: ids[0],
        term_node: ids[1],
        tokens: LinkTokens {
            capacity: string_of(values[2].as_slice()),
            length: string_of(values[3].as_slice()),
            free_flow_time: string_of(values[4].as_slice()),
            b: string_of(values[5].as_slice()),
        },
    };
    assert(values@[0]@ == trim(dv[pv[0]]));
    assert(values@[1]@ == trim(dv[pv[1]]));
    assert(values@[2]@ == trim(dv[pv[2]]));
    assert(values@[3]@ == trim(dv[pv[3]]));
    assert(values@[4]@ == trim(dv[pv[4]]));
    assert(values@[5]@ == trim(dv[pv[5]]));
    assert(ids@[0] == link.init_node && ids@[1] == link.term_node);
    Ok(link)
}

/// Reading the links of the numbered lines `lines` from index `i` on, after
/// the links `links`, with the required columns at `positions`.
pub open spec fn scan_links(lines: Seq<(nat, Seq<char>)>, i: int, positions: Seq<int>, links: Seq<LinkView>) -> Result<Seq<LinkView>, TntpErrorView>
    decreases lines.len() - i,
{
    if i < 0 || i >= lines.len() {
        Ok(links)
    } else {
        match link_of(lines[i], positions) {
            Err(e) => Err(e),
            Ok(l) => scan_links(lines, i + 1, positions, links.push(l)),
        }
    }
}

/// The links `links` as views.
pub open spec fn links_view(links: Seq<Link>) -> Seq<LinkView> {
    links.map_values(|l: Link| l@)
}

/// Reads the links of the numbered lines `lines` from index `start` on, with
/// the required columns at `positions`; fails with the first error.
pub fn read_links(lines: &Vec<(usize, Vec<char>)>, start: usize, positions: &Vec<usize>) -> (r: Result<Vec<Link>, TntpError>)
    requires
        positions@.len() == 6,
    ensures
        match scan_links(lines_view(lines@), start as int, positions_view(positions@), Seq::empty()) {
            Ok(ls) => r matches Ok(x) && links_view(x@) == ls,
            Err(e) => r matches Err(x) && x@ == e,
        },
{
    let ghost lv = lines_view(lines@);
    let ghost pv = positions_view(positions@);
    let mut links: Vec<Link> = Vec::new();
    let mut i = start;
    assert(links_view(links@) =~= Seq::<LinkView>::empty());
    if i >= lines.len() {
        return Ok(links);
    }
    while i < lines.len()
        invariant
            positions@.len() == 6,
            lv == lines_view(lines@),
            pv == positions_view(positions@),
            start <= i <= lines@.len(),
            scan_links(lv, start as int, pv, Seq::empty()) == scan_links(lv, i as int, pv, links_view(links@)),
        decreases lines@.len() - i,
    {
        assert(lv[i as int] == line_view(lines@[i as int]));
        let link = parse_link(&lines[i], positions);
        match link {
            Ok(l) => {
                let ghost before = links_view(links@);
                links.push(l);
                assert(links_view(links@) =~= before.push(l@));
            },
            Err(e) => {
                return Err(e);
            },
        }
        i = i + 1;
    }
    Ok(links)
}


/// A road network read from a net file: its graph, whose edges carry the
/// numeric fields of their links, and the index of each node by its id.
pub struct TNTPNet {
    pub graph: Graph<LinkTokens>,
    pub node_idx_by_id: FxHashMap<usize, NodeIdx>,
}

/// `ids` with `id` added at the end where it is not among them yet.
pub open spec fn add_id(ids: Seq<usize>, id: usize) -> Seq<usize> {
    if ids.contains(id) {
        ids
    } else {
        ids.push(id)
    }
}

/// The node ids of the links `links` in the order in which they first occur,
/// the tail of each link before its head.
pub open spec fn node_ids(links: Seq<LinkView>) -> Seq<usize>
    decreases links.len(),
{
    if links.len() == 0 {
        Seq::empty()
    } else {
        add_id(add_id(node_ids(links.drop_last()), links.last().init_node), links.last().term_node)
    }
}

/// Whether the node with id `id` allows through traffic: every node does where
/// no first through node is given, else those whose id is at least its id.
pub open spec fn allows_through(first_thru_node: Option<usize>, id: usize) -> bool {
    match first_thru_node {
        None => true,
        Some(f) => id >= f,
    }
}

/// Whether `graph` and the map `node_idx_by_id` are the network of the links
/// `links`: node `v` is the `v`-th distinct id of [`node_ids`], edge `k` goes
/// from the node of the tail of link `k` to the node of its head, with its
/// numeric fields and no bundle, and the map gives each id its node.
pub open spec fn network_of(graph: Graph<LinkTokens>, node_idx_by_id: Map<usize, NodeIdx>, links: Seq<LinkView>, first_thru_node: Option<usize>) -> bool {
    let ids = node_ids(links);
    &&& ids.no_duplicates()
    &&& graph.nodes_view().len() == ids.len()
    &&& forall|v: int| 0 <= v < ids.len() ==> (#[trigger] graph.nodes_view()[v]).through() == allows_through(first_thru_node, ids[v])
    &&& graph.edges_view().len() == links.len()
    &&& forall|k: int| 0 <= k < links.len() ==> {
        &&& (#[trigger] graph.edges_view()[k]).tail_node() < ids.len()
        &&& ids[graph.edges_view()[k].tail_node() as int] == links[k].init_node
        &&& graph.edges_view()[k].head_node() < ids.len()
        &&& ids[graph.edges_view()[k].head_node() as int] == links[k].term_node
        &&& graph.edges_view()[k].bundle_idx() == BUNDLE_IDX_EMPTY
        &&& graph.edges_view()[k].params_value()@ == links[k].tokens
    }
    &&& graph.permits_view().len() == 0
    &&& forall|id: usize| #[trigger] node_idx_by_id.contains_key(id) <==> ids.contains(id)
    &&& forall|v: int| 0 <= v < ids.len() ==> node_idx_by_id[#[trigger] ids[v]] == v
}

/// A copy of `tokens`.
fn copy_tokens(tokens: &LinkTokens) -> (r: LinkTokens)
    ensures
        r@ == tokens@,
{
    LinkTokens {
        capacity: tokens.capacity.clone(),
        length: tokens.length.clone(),
        free_flow_time: tokens.free_flow_time.clone(),
        b: tokens.b.clone(),
    }
}

/// The node of the id `id`, added to `graph` and `node_idx_by_id` where it is
/// new; `ids` are the ids of the nodes so far.
fn intern_node(
    graph: &mut Graph<LinkTokens>,
    node_idx_by_id: &mut FxHashMap<usize, NodeIdx>,
    id: usize,
    first_thru_node: Option<usize>,
    Ghost(ids): Ghost<Seq<usize>>,
) -> (r: NodeIdx)
    requires
        ids.no_duplicates(),
        old(graph).nodes_view().len() == ids.len(),
        forall|n: usize| #[trigger] old(node_idx_by_id)@.contains_key(n) <==> ids.contains(n),
        forall|v: int| 0 <= v < ids.len() ==> old(node_idx_by_id)@[#[trigger] ids[v]] == v,
    ensures
        add_id(ids, id).no_duplicates(),
        final(graph).nodes_view().len() == add_id(ids, id).len(),
        r < add_id(ids, id).len(),
        add_id(ids, id)[r as int] == id,
        forall|n: usize| #[trigger] final(node_idx_by_id)@.contains_key(n) <==> add_id(ids, id).contains(n),
        forall|v: int| 0 <= v < add_id(ids, id).len() ==> final(node_idx_by_id)@[#[trigger] add_id(ids, id)[v]] == v,
        final(graph).edges_view() == old(graph).edges_view(),
        final(graph).permits_view() == old(graph).permits_view(),
        forall|v: int| 0 <= v < ids.len() ==> (#[trigger] final(graph).nodes_view()[v]).through() == old(graph).nodes_view()[v].through(),
        !ids.contains(id) ==> final(graph).nodes_view()[ids.len() as int].through() == allows_through(first_thru_node, id),
{
    match index_map_get(node_idx_by_id, id) {
        Some(idx) => {
            proof {
                let v = choose|v: int| 0 <= v < ids.len() && ids[v] == id;
                assert(node_idx_by_id@[ids[v]] == v);
            }
            *idx
        },
        None => {
            let allows = match first_thru_node {
                None => true,
                Some(f) => id >= f,
            };
            let ghost old_nodes = graph.nodes_view();
            let v = graph.add_node(allows);
            index_map_insert(node_idx_by_id, id, v);
            proof {
                let new_ids = ids.push(id);
                assert(new_ids[v as int] == id);
                assert forall|n: usize| #[trigger] node_idx_by_id@.contains_key(n) <==> new_ids.contains(n) by {
                    if n != id && ids.contains(n) {
                        let i = choose|i: int| 0 <= i < ids.len() && ids[i] == n;
                        assert(new_ids[i] == n);
                    }
                    if n != id && new_ids.contains(n) {
                        let i = choose|i: int| 0 <= i < new_ids.len() && new_ids[i] == n;
                        assert(ids[i] == n);
                    }
                    if n == id {
                        assert(new_ids[v as int] == id);
                    }
                }
                assert forall|w: int| 0 <= w < new_ids.len() implies node_idx_by_id@[#[trigger] new_ids[w]] == w by {
                    if w < ids.len() {
                        assert(new_ids[w] == ids[w]);
                        assert(ids[w] != id);
                    }
                }
                assert forall|w: int| 0 <= w < ids.len() implies (#[trigger] graph.nodes_view()[w]).through() == old_nodes[w].through() by {
                    assert(graph.nodes_view().drop_last()[w] == graph.nodes_view()[w]);
                }
            }
            v
        },
    }
}

/// The network of the links `links`: a node for each distinct node id, in the
/// order in which the ids first occur (the tail of each link before its head),
/// and an edge for each link, in order.
pub fn build_net(links: &Vec<Link>, first_thru_node: Option<usize>) -> (r: TNTPNet)
    ensures
        network_of(r.graph, r.node_idx_by_id@, links_view(links@), first_thru_node),
{
    let ghost lv = links_view(links@);
    let mut graph: Graph<LinkTokens> = Graph::empty();
    let mut node_idx_by_id: FxHashMap<usize, NodeIdx> = map_new();
    let mut k: usize = 0;
    assert(lv.take(0) =~= Seq::<LinkView>::empty());
    assert(node_ids(lv.take(0)) =~= Seq::<usize>::empty());
    while k < links.len()
        invariant
            lv == links_view(links@),
            k <= links@.len(),
            network_of(graph, node_idx_by_id@, lv.take(k as int), first_thru_node),
        decreases links@.len() - k,
    {
        let ghost done = lv.take(k as int);
        let ghost ids0 = node_ids(done);
        let ghost old_edges = graph.edges_view();
        let link = &links[k];
        assert(lv[k as int] == link@);
        let tail = intern_node(&mut graph, &mut node_idx_by_id, link.init_node, first_thru_node, Ghost(ids0));
        let ghost ids1 = add_id(ids0, link.init_node);
        let head = intern_node(&mut graph, &mut node_idx_by_id, link.term_node, first_thru_node, Ghost(ids1));
        let ghost ids2 = add_id(ids1, link.term_node);
        proof {
            assert(tail < ids2.len() && ids2[tail as int] == ids1[tail as int]);
        }
        let tokens = copy_tokens(&link.tokens);
        let added = graph.add_edge(tail, head, BUNDLE_IDX_EMPTY, tokens);
        proof {
            let next = lv.take(k as int + 1);
            assert(next.drop_last() =~= done);
            assert(next.last() == link@);
            assert(node_ids(next) == ids2);
            assert forall|v: int| 0 <= v < ids2.len() implies (#[trigger] graph.nodes_view()[v]).through() == allows_through(first_thru_node, ids2[v]) by {
                if v < ids0.len() {
                    assert(ids2[v] == ids0[v]);
                } else if v < ids1.len() {
                    assert(ids2[v] == ids1[v]);
                }
            }
            assert forall|j: int| 0 <= j < next.len() implies {
                &&& (#[trigger] graph.edges_view()[j]).tail_node() < ids2.len()
                &&& ids2[graph.edges_view()[j].tail_node() as int] == next[j].init_node
                &&& graph.edges_view()[j].head_node() < ids2.len()
                &&& ids2[graph.edges_view()[j].head_node() as int] == next[j].term_node
                &&& graph.edges_view()[j].bundle_idx() == BUNDLE_IDX_EMPTY
                &&& graph.edges_view()[j].params_value()@ == next[j].tokens
            } by {
                if j < k {
                    assert(graph.edges_view()[j] == graph.edges_view().drop_last()[j]);
                    assert(graph.edges_view()[j] == old_edges[j]);
                    assert(next[j] == done[j]);
                    let t = old_edges[j].tail_node() as int;
                    let h = old_edges[j].head_node() as int;
                    assert(ids2[t] == ids0[t]);
                    assert(ids2[h] == ids0[h]);
                } else {
                    assert(graph.edges_view()[j] == graph.edges_view().last());
                }
            }
            assert forall|w: int| 0 <= w < ids2.len() implies node_idx_by_id@[#[trigger] ids2[w]] == w by {}
        }
        k = k + 1;
    }
    assert(lv.take(k as int) =~= lv);
    TNTPNet { graph, node_idx_by_id }
}


/// Reading a net file whose text is `text`: the first node that allows through
/// traffic, as the metadata give it, and the links; or the first error.
pub open spec fn read_net_spec(text: Seq<char>) -> Result<(Option<usize>, Seq<LinkView>), TntpErrorView> {
    let lines = nonblank_lines(text);
    match scan_metadata(lines, 0, Seq::empty()) {
        Err(e) => Err(e),
        Ok((entries, i)) => match first_thru_node_spec(entries) {
            Err(e) => Err(e),
            Ok(first_thru_node) => if i < 0 || i >= lines.len() {
                Err(TntpErrorView::EmptyNetFile)
            } else {
                let pieces = split_char(lines[i].1, '\t');
                match missing_column(pieces, 0) {
                    Some(c) => Err(TntpErrorView::MissingHeaderColumn { line: lines[i].0, column: c }),
                    None => match scan_links(lines, i + 1, header_positions(pieces), Seq::empty()) {
                        Err(e) => Err(e),
                        Ok(links) => Ok((first_thru_node, links)),
                    },
                }
            },
        },
    }
}

/// Reads a net file from its text (see the module documentation): the
/// metadata, the header with the required columns, and a link on each further
/// line that holds more than white space; fails with the first error.
pub fn read_net(text: &[char]) -> (r: Result<TNTPNet, TntpError>)
    requires
        text@.len() < usize::MAX,
    ensures
        match read_net_spec(text@) {
            Ok((first_thru_node, links)) => r matches Ok(net) && network_of(net.graph, net.node_idx_by_id@, links, first_thru_node),
            Err(e) => r matches Err(x) && x@ == e,
        },
{
    let lines = numbered_nonblank_lines(text);
    let ghost lv = lines_view(lines@);
    let (entries, start) = match read_metadata(&lines) {
        Ok(m) => m,
        Err(e) => {
            return Err(e);
        },
    };
    let first_thru_node = match first_thru_node(&entries) {
        Ok(f) => f,
        Err(e) => {
            return Err(e);
        },
    };
    if start >= lines.len() {
        return Err(TntpError::EmptyNetFile);
    }
    let header = &lines[start];
    assert(lv[start as int] == line_view(*header));
    let pieces = split_on(header.1.as_slice(), '\t');
    let ghost pv = split_char(header.1@, '\t');
    assert(pieces_view(pieces@) =~= pv);
    let positions = match header_columns(&pieces, header.0) {
        Ok(ps) => ps,
        Err(e) => {
            return Err(e);
        },
    };
    assert(positions_view(positions@) =~= header_positions(pv));
    let links = match read_links(&lines, start + 1, &positions) {
        Ok(ls) => ls,
        Err(e) => {
            return Err(e);
        },
    };
    Ok(build_net(&links, first_thru_node))
}


/// A trip: the node of its origin, the node of its destination, and the text
/// of its demand.
pub type TripView = (NodeIdx, NodeIdx, Seq<char>);

/// The characters of `origin`.
pub open spec fn origin_word() -> Seq<char> {
    seq!['o', 'r', 'i', 'g', 'i', 'n']
}

/// Whether the trimmed line `t` starts an origin: lower-cased, it begins with `origin`.
pub open spec fn is_origin_line(t: Seq<char>) -> bool {
    t.len() >= 6 && equal_ignoring_case(t.take(6), origin_word())
}

/// `s` with each `;` replaced by a space.
pub open spec fn semicolons_to_spaces(s: Seq<char>) -> Seq<char> {
    s.map_values(|c: char| if c == ';' { ' ' } else { c })
}

/// Reading the destination-demand triples `parts` of the trips line `line`
/// from the `j`-th word on, after the pairs `pairs`: each triple is a
/// destination id, `:` and a demand; the destination is looked up in
/// `node_idx_by_id`.
pub open spec fn scan_trip_pairs(line: Seq<char>, parts: Seq<Seq<char>>, j: int, node_idx_by_id: Map<usize, NodeIdx>, pairs: Seq<(NodeIdx, Seq<char>)>) -> Result<Seq<(NodeIdx, Seq<char>)>, TntpErrorView>
    decreases parts.len() - j,
{
    if j < 0 || j + 3 > parts.len() {
        Ok(pairs)
    } else {
        match parse_usize_spec(parts[j]) {
            Err(e) => Err(TntpErrorView::InvalidDestinationId { error: e }),
            Ok(id) => if !node_idx_by_id.contains_key(id) {
                Err(TntpErrorView::UnknownDestination { id })
            } else if parts[j + 1] != seq![':'] {
                Err(TntpErrorView::MissingColon { text: line })
            } else if !float_literal(parts[j + 2]) {
                Err(TntpErrorView::InvalidDemandValue { text: parts[j + 2] })
            } else {
                scan_trip_pairs(line, parts, j + 3, node_idx_by_id, pairs.push((node_idx_by_id[id], parts[j + 2])))
            },
        }
    }
}

/// The destination nodes and demands of the trimmed trips line `line`: its
/// words, where `;` counts as white space, taken three at a time.
pub open spec fn trip_pairs(line: Seq<char>, node_idx_by_id: Map<usize, NodeIdx>) -> Result<Seq<(NodeIdx, Seq<char>)>, TntpErrorView> {
    let parts = split_whitespace(semicolons_to_spaces(line));
    if parts.len() % 3 != 0 {
        Err(TntpErrorView::InvalidTripPairs { text: line })
    } else {
        scan_trip_pairs(line, parts, 0, node_idx_by_id, Seq::empty())
    }
}

/// The trips from `origin` to the destinations and demands `pairs`.
pub open spec fn trips_from(origin: NodeIdx, pairs: Seq<(NodeIdx, Seq<char>)>) -> Seq<TripView> {
    pairs.map_values(|p: (NodeIdx, Seq<char>)| (origin, p.0, p.1))
}

/// Reading the trips of the numbered lines `lines` from index `i` on, after the
/// trips `trips`, with `origin` the node of the last origin line read.
pub open spec fn scan_trips(lines: Seq<(nat, Seq<char>)>, i: int, node_idx_by_id: Map<usize, NodeIdx>, origin: Option<NodeIdx>, trips: Seq<TripView>) -> Result<Seq<TripView>, TntpErrorView>
    decreases lines.len() - i,
{
    if i < 0 || i >= lines.len() {
        Ok(trips)
    } else {
        let number = lines[i].0;
        let t = trim(lines[i].1);
        if is_origin_line(t) {
            let parts = split_whitespace(t);
            if parts.len() != 2 {
                Err(TntpErrorView::InvalidOriginLine { line: number + 1, text: t })
            } else {
                match parse_usize_spec(parts[1]) {
                    Err(e) => Err(TntpErrorView::InvalidOriginId { line: number, error: e }),
                    Ok(id) => if !node_idx_by_id.contains_key(id) {
                        Err(TntpErrorView::UnknownOrigin { line: number, id })
                    } else {
                        scan_trips(lines, i + 1, node_idx_by_id, Some(node_idx_by_id[id]), trips)
                    },
                }
            }
        } else {
            match origin {
                None => Err(TntpErrorView::TripsWithoutOrigin { line: number }),
                Some(o) => match trip_pairs(t, node_idx_by_id) {
                    Err(e) => Err(e),
                    Ok(pairs) => scan_trips(lines, i + 1, node_idx_by_id, origin, trips + trips_from(o, pairs)),
                },
            }
        }
    }
}

/// Reading a trips file whose text is `text`, with the node ids looked up in
/// `node_idx_by_id`: its trips, in order, or the first error.
pub open spec fn read_trips_spec(text: Seq<char>, node_idx_by_id: Map<usize, NodeIdx>) -> Result<Seq<TripView>, TntpErrorView> {
    let lines = nonblank_lines(text);
    match scan_metadata(lines, 0, Seq::empty()) {
        Err(e) => Err(e),
        Ok((_, i)) => scan_trips(lines, i, node_idx_by_id, None, Seq::empty()),
    }
}

/// The destinations of the trips `trips`, in the order in which they first occur.
pub open spec fn destination_order(trips: Seq<TripView>) -> Seq<NodeIdx>
    decreases trips.len(),
{
    if trips.len() == 0 {
        Seq::empty()
    } else {
        add_id(destination_order(trips.drop_last()), trips.last().1)
    }
}

/// Whether `demand` holds the trips `trips`: commodity `k` is trip `k`, and
/// the destinations are numbered in the order in which they first occur.
pub open spec fn demand_of(demand: Demand<String>, trips: Seq<TripView>) -> bool {
    &&& demand.commodities_view().len() == trips.len()
    &&& demand.destinations_view() == destination_order(trips)
    &&& forall|k: int| 0 <= k < trips.len() ==> {
        &&& (#[trigger] demand.commodities_view()[k]).origin == trips[k].0
        &&& demand.commodities_view()[k].destination_idx < demand.destinations_view().len()
        &&& demand.destinations_view()[demand.commodities_view()[k].destination_idx as int] == trips[k].1
        &&& demand.commodities_view()[k].demand@ == trips[k].2
    }
}

/// Adds the trip from `origin` to `destination` with demand `value` to
/// `demand`, which holds the trips `trips`.
fn add_trip(demand: &mut Demand<String>, origin: NodeIdx, destination: NodeIdx, value: &[char], Ghost(trips): Ghost<Seq<TripView>>)
    requires
        demand_of(*old(demand), trips),
    ensures
        demand_of(*final(demand), trips.push((origin, destination, value@))),
{
    let ghost old_commodities = demand.commodities_view();
    demand.add_commodity(origin, destination, string_of(value));
    proof {
        let next = trips.push((origin, destination, value@));
        assert(next.drop_last() =~= trips);
        assert forall|k: int| 0 <= k < next.len() implies {
            &&& (#[trigger] demand.commodities_view()[k]).origin == next[k].0
            &&& demand.commodities_view()[k].destination_idx < demand.destinations_view().len()
            &&& demand.destinations_view()[demand.commodities_view()[k].destination_idx as int] == next[k].1
            &&& demand.commodities_view()[k].demand@ == next[k].2
        } by {
            if k < trips.len() {
                assert(demand.commodities_view()[k] == demand.commodities_view().drop_last()[k]);
                assert(demand.commodities_view()[k] == old_commodities[k]);
                let d = old_commodities[k].destination_idx as int;
                let old_destinations = destination_order(trips);
                assert(demand.destinations_view()[d] == old_destinations[d]);
            }
        }
    }
}

/// `s` with each `;` replaced by a space.
fn replace_semicolons(s: &[char]) -> (r: Vec<char>)
    ensures
        r@ == semicolons_to_spaces(s@),
{
    let mut out: Vec<char> = Vec::new();
    let mut i: usize = 0;
    while i < s.len()
        invariant
            i <= s@.len(),
            out@ == semicolons_to_spaces(s@).take(i as int),
        decreases s@.len() - i,
    {
        let c = if s[i] == ';' { ' ' } else { s[i] };
        out.push(c);
        assert(out@ =~= semicolons_to_spaces(s@).take(i as int + 1));
        i = i + 1;
    }
    assert(semicolons_to_spaces(s@).take(i as int) =~= semicolons_to_spaces(s@));
    out
}

/// Reads the destination-demand triples of the trimmed trips line `line` into
/// `demand` as trips from `origin`; `demand` holds the trips `trips` before.
fn read_trip_pairs(
    line: &[char],
    origin: NodeIdx,
    node_idx_by_id: &FxHashMap<usize, NodeIdx>,
    demand: &mut Demand<String>,
    Ghost(trips): Ghost<Seq<TripView>>,
) -> (r: Result<(), TntpError>)
    requires
        demand_of(*old(demand), trips),
    ensures
        match trip_pairs(line@, node_idx_by_id@) {
            Ok(pairs) => r is Ok && demand_of(*final(demand), trips + trips_from(origin, pairs)),
            Err(e) => r matches Err(x) && x@ == e,
        },
{
    let replaced = replace_semicolons(line);
    let parts = words(replaced.as_slice());
    let ghost pv = split_whitespace(semicolons_to_spaces(line@));
    if parts.len() % 3 != 0 {
        return Err(TntpError::InvalidTripPairs { text: string_of(line) });
    }
    let colon = vec![':'];
    assert(colon@ =~= seq![':']);
    let ghost mut pairs: Seq<(NodeIdx, Seq<char>)> = Seq::empty();
    assert(trips_from(origin, pairs) =~= Seq::<TripView>::empty());
    assert(trips + trips_from(origin, pairs) =~= trips);
    let mut j: usize = 0;
    while j < parts.len()
        invariant
            parts@.len() == pv.len(),
            forall|k: int| 0 <= k < parts@.len() ==> #[trigger] parts@[k]@ == pv[k],
            parts@.len() % 3 == 0,
            j % 3 == 0,
            j <= parts@.len(),
            colon@ == seq![':'],
            trip_pairs(line@, node_idx_by_id@) == scan_trip_pairs(line@, pv, 0, node_idx_by_id@, Seq::empty()),
            scan_trip_pairs(line@, pv, 0, node_idx_by_id@, Seq::empty()) == scan_trip_pairs(line@, pv, j as int, node_idx_by_id@, pairs),
            demand_of(*demand, trips + trips_from(origin, pairs)),
        decreases parts@.len() - j,
    {
        assert(parts@[j as int]@ == pv[j as int]);
        assert(parts@[j + 1]@ == pv[j + 1]);
        assert(parts@[j + 2]@ == pv[j + 2]);
        let id = match parse_usize(parts[j].as_slice()) {
            Ok(id) => id,
            Err(e) => {
                return Err(TntpError::InvalidDestinationId { error: e });
            },
        };
        let destination = match index_map_get(node_idx_by_id, id) {
            Some(d) => *d,
            None => {
                return Err(TntpError::UnknownDestination { id });
            },
        };
        if !chars_equal(parts[j + 1].as_slice(), colon.as_slice()) {
            return Err(TntpError::MissingColon { text: string_of(line) });
        }
        if !is_float_literal(parts[j + 2].as_slice()) {
            return Err(TntpError::InvalidDemandValue { text: string_of(parts[j + 2].as_slice()) });
        }
        add_trip(demand, origin, destination, parts[j + 2].as_slice(), Ghost(trips + trips_from(origin, pairs)));
        proof {
            let p = (destination, pv[j + 2]);
            assert(trips_from(origin, pairs.push(p)) =~= trips_from(origin, pairs).push((origin, destination, pv[j + 2])));
            assert(trips + trips_from(origin, pairs.push(p)) =~= (trips + trips_from(origin, pairs)).push((origin, destination, pv[j + 2])));
            pairs = pairs.push(p);
        }
        j = j + 3;
    }
    Ok(())
}


/// Reads a trips file from its text (see the module documentation), looking
/// the node ids up in the network `net`: the metadata, then origin lines
/// (`Origin <id>`) each followed by lines of `<destination id> : <demand>`
/// triples separated by white space or `;`; fails with the first error.
pub fn read_trips(text: &[char], net: &TNTPNet) -> (r: Result<Demand<String>, TntpError>)
    requires
        text@.len() < usize::MAX,
    ensures
        match read_trips_spec(text@, net.node_idx_by_id@) {
            Ok(trips) => r matches Ok(d) && demand_of(d, trips),
            Err(e) => r matches Err(x) && x@ == e,
        },
{
    let lines = numbered_nonblank_lines(text);
    let ghost lv = lines_view(lines@);
    let ghost map = net.node_idx_by_id@;
    let start = match read_metadata(&lines) {
        Ok((_, start)) => start,
        Err(e) => {
            return Err(e);
        },
    };
    let mut demand: Demand<String> = Demand::empty();
    let mut origin: Option<NodeIdx> = None;
    let ghost mut trips: Seq<TripView> = Seq::empty();
    let origin_chars = vec!['o', 'r', 'i', 'g', 'i', 'n'];
    assert(origin_chars@ =~= origin_word());
    assert(destination_order(trips) =~= Seq::<NodeIdx>::empty());
    let mut i = start;
    while i < lines.len()
        invariant
            lv == lines_view(lines@),
            map == net.node_idx_by_id@,
            text@.len() < usize::MAX,
            forall|k: int| 0 <= k < lines@.len() ==> (#[trigger] lines@[k]).0 <= text@.len(),
            origin_chars@ == origin_word(),
            read_trips_spec(text@, map) == scan_trips(lv, start as int, map, None, Seq::empty()),
            scan_trips(lv, start as int, map, None, Seq::empty()) == scan_trips(lv, i as int, map, origin, trips),
            demand_of(demand, trips),
        decreases lines@.len() - i,
    {
        let number = lines[i].0;
        let t = trimmed(lines[i].1.as_slice());
        assert(lv[i as int] == (number as nat, lines@[i as int].1@));
        let starts_origin = if t.len() >= 6 {
            let head = copy_range(t.as_slice(), 0, 6);
            assert(head@ =~= t@.take(6));
            chars_equal_ignoring_case(head.as_slice(), origin_chars.as_slice())
        } else {
            false
        };
        if starts_origin {
            let parts = words(t.as_slice());
            if parts.len() != 2 {
                return Err(TntpError::InvalidOriginLine { line: number + 1, text: string_of(t.as_slice()) });
            }
            assert(parts@[1]@ == split_whitespace(t@)[1]);
            let id = match parse_usize(parts[1].as_slice()) {
                Ok(id) => id,
                Err(e) => {
                    return Err(TntpError::InvalidOriginId { line: number, error: e });
                },
            };
            match index_map_get(&net.node_idx_by_id, id) {
                Some(o) => {
                    origin = Some(*o);
                },
                None => {
                    return Err(TntpError::UnknownOrigin { line: number, id });
                },
            }
        } else {
            let o = match origin {
                Some(o) => o,
                None => {
                    return Err(TntpError::TripsWithoutOrigin { line: number });
                },
            };
            match read_trip_pairs(t.as_slice(), o, &net.node_idx_by_id, &mut demand, Ghost(trips)) {
                Ok(()) => {},
                Err(e) => {
                    return Err(e);
                },
            }
            proof {
                match trip_pairs(t@, map) {
                    Ok(pairs) => {
                        trips = trips + trips_from(o, pairs);
                    },
                    Err(_) => {},
                }
            }
        }
        i = i + 1;
    }
    Ok(demand)
}

/// The last entry with key `key` is found wherever it stands among the entries.
proof fn lemma_last_value_at(entries: Seq<MetadataEntry>, key: Seq<char>, k: int)
    requires
        0 <= k < entries.len(),
        entries[k].0 == key,
        forall|j: int| k < j < entries.len() ==> (#[trigger] entries[j]).0 != key,
    ensures
        last_value(entries, key) == Some(entries[k].1),
    decreases entries.len(),
{
    if k < entries.len() - 1 {
        let rest = entries.drop_last();
        assert forall|j: int| k < j < rest.len() implies (#[trigger] rest[j]).0 != key by {
            assert(rest[j] == entries[j]);
        }
        lemma_last_value_at(rest, key, k);
    }
}

/// Without an entry of key `key` there is no value for it.
proof fn lemma_last_value_absent(entries: Seq<MetadataEntry>, key: Seq<char>)
    requires
        forall|j: int| 0 <= j < entries.len() ==> (#[trigger] entries[j]).0 != key,
    ensures
        last_value(entries, key) is None,
    decreases entries.len(),
{
    if entries.len() > 0 {
        let rest = entries.drop_last();
        assert forall|j: int| 0 <= j < rest.len() implies (#[trigger] rest[j]).0 != key by {
            assert(rest[j] == entries[j]);
        }
        lemma_last_value_absent(rest, key);
    }
}

/// The first through node is the value of the last `FIRST THRU NODE` entry,
/// wherever that entry stands among the metadata and whatever entries follow it.
pub proof fn law_first_thru_node_entry(entries: Seq<MetadataEntry>, k: int, f: usize)
    requires
        0 <= k < entries.len(),
        entries[k].0 == first_thru_node_key(),
        parse_usize_spec(entries[k].1) == Ok::<usize, IntError>(f),
        forall|j: int| k < j < entries.len() ==> (#[trigger] entries[j]).0 != first_thru_node_key(),
    ensures
        first_thru_node_spec(entries) == Ok::<Option<usize>, TntpErrorView>(Some(f)),
{
    lemma_last_value_at(entries, first_thru_node_key(), k);
}

/// Without a `FIRST THRU NODE` entry there is no first through node.
pub proof fn law_first_thru_node_absent(entries: Seq<MetadataEntry>)
    requires
        forall|j: int| 0 <= j < entries.len() ==> (#[trigger] entries[j]).0 != first_thru_node_key(),
    ensures
        first_thru_node_spec(entries) == Ok::<Option<usize>, TntpErrorView>(None),
{
    lemma_last_value_absent(entries, first_thru_node_key());
}

/// Where the metadata of a net file hold a `FIRST THRU NODE` entry with the
/// value `f` (and no later one), a net read from the file lets exactly the
/// nodes with an id of at least `f` carry through traffic.
pub proof fn law_read_net_through_nodes(text: Seq<char>, entries: Seq<MetadataEntry>, k: int, f: usize)
    requires
        scan_metadata(nonblank_lines(text), 0, Seq::empty()) matches Ok((es, _)) && es == entries,
        0 <= k < entries.len(),
        entries[k].0 == first_thru_node_key(),
        parse_usize_spec(entries[k].1) == Ok::<usize, IntError>(f),
        forall|j: int| k < j < entries.len() ==> (#[trigger] entries[j]).0 != first_thru_node_key(),
    ensures
        read_net_spec(text) is Ok ==> (read_net_spec(text) matches Ok((ftn, _)) && ftn == Some(f) && forall|id: usize|
            allows_through(ftn, id) == (id >= f)),
{
    law_first_thru_node_entry(entries, k, f);
}

/// The trips of the lines `from..to`, every line taken as destination-demand
/// triples from the origin `o`.
pub open spec fn trips_of_lines(lines: Seq<(nat, Seq<char>)>, from: int, to: int, node_idx_by_id: Map<usize, NodeIdx>, o: NodeIdx) -> Seq<TripView>
    decreases to - from,
{
    if from >= to {
        Seq::empty()
    } else {
        let here = match trip_pairs(trim(lines[from].1), node_idx_by_id) {
            Ok(pairs) => trips_from(o, pairs),
            Err(_) => Seq::empty(),
        };
        here + trips_of_lines(lines, from + 1, to, node_idx_by_id, o)
    }
}

/// Lines of triples that follow one another all take the current origin: the
/// origin changes only at an origin line, so every such line adds its pairs
/// as trips from that origin, in order.
pub proof fn law_trips_lines_keep_origin(lines: Seq<(nat, Seq<char>)>, i: int, node_idx_by_id: Map<usize, NodeIdx>, o: NodeIdx, trips: Seq<TripView>)
    requires
        0 <= i <= lines.len(),
        forall|j: int| i <= j < lines.len() ==> !is_origin_line(trim((#[trigger] lines[j]).1)) && trip_pairs(
            trim(lines[j].1),
            node_idx_by_id,
        ) is Ok,
    ensures
        scan_trips(lines, i, node_idx_by_id, Some(o), trips) == Ok::<Seq<TripView>, TntpErrorView>(
            trips + trips_of_lines(lines, i, lines.len() as int, node_idx_by_id, o),
        ),
    decreases lines.len() - i,
{
    if i < lines.len() {
        let line = lines[i];
        assert(!is_origin_line(trim(line.1)));
        let pairs = trip_pairs(trim(line.1), node_idx_by_id)->Ok_0;
        let here = trips_from(o, pairs);
        law_trips_lines_keep_origin(lines, i + 1, node_idx_by_id, o, trips + here);
        assert(trips + here + trips_of_lines(lines, i + 1, lines.len() as int, node_idx_by_id, o) =~= trips + (here
            + trips_of_lines(lines, i + 1, lines.len() as int, node_idx_by_id, o)));
    } else {
        assert(trips + Seq::<TripView>::empty() =~= trips);
    }
}

/// A trips file with one origin line followed by lines of triples gives every
/// triple of those lines as a trip from that origin, in order.
pub proof fn law_read_trips_single_origin(text: Seq<char>, node_idx_by_id: Map<usize, NodeIdx>, i: int, id: usize)
    requires
        scan_metadata(nonblank_lines(text), 0, Seq::empty()) matches Ok((_, s)) && s == i,
        0 <= i < nonblank_lines(text).len(),
        is_origin_line(trim(nonblank_lines(text)[i].1)),
        split_whitespace(trim(nonblank_lines(text)[i].1)).len() == 2,
        parse_usize_spec(split_whitespace(trim(nonblank_lines(text)[i].1))[1]) == Ok::<usize, IntError>(id),
        node_idx_by_id.contains_key(id),
        forall|j: int| i < j < nonblank_lines(text).len() ==> !is_origin_line(trim((#[trigger] nonblank_lines(text)[j]).1))
            && trip_pairs(trim(nonblank_lines(text)[j].1), node_idx_by_id) is Ok,
    ensures
        read_trips_spec(text, node_idx_by_id) == Ok::<Seq<TripView>, TntpErrorView>(
            trips_of_lines(nonblank_lines(text), i + 1, nonblank_lines(text).len() as int, node_idx_by_id, node_idx_by_id[id]),
        ),
{
    let lines = nonblank_lines(text);
    law_trips_lines_keep_origin(lines, i + 1, node_idx_by_id, node_idx_by_id[id], Seq::empty());
    assert(Seq::<TripView>::empty() + trips_of_lines(lines, i + 1, lines.len() as int, node_idx_by_id, node_idx_by_id[id])
        =~= trips_of_lines(lines, i + 1, lines.len() as int, node_idx_by_id, node_idx_by_id[id]));
}

/// An origin line makes its node the origin of the lines of triples that
/// follow it, whatever origin came before.
pub proof fn law_origin_line_then_trips(lines: Seq<(nat, Seq<char>)>, i: int, node_idx_by_id: Map<usize, NodeIdx>, before: Option<NodeIdx>, trips: Seq<TripView>, id: usize)
    requires
        0 <= i < lines.len(),
        is_origin_line(trim(lines[i].1)),
        split_whitespace(trim(lines[i].1)).len() == 2,
        parse_usize_spec(split_whitespace(trim(lines[i].1))[1]) == Ok::<usize, IntError>(id),
        node_idx_by_id.contains_key(id),
        forall|j: int| i < j < lines.len() ==> !is_origin_line(trim((#[trigger] lines[j]).1)) && trip_pairs(
            trim(lines[j].1),
            node_idx_by_id,
        ) is Ok,
    ensures
        scan_trips(lines, i, node_idx_by_id, before, trips) == Ok::<Seq<TripView>, TntpErrorView>(
            trips + trips_of_lines(lines, i + 1, lines.len() as int, node_idx_by_id, node_idx_by_id[id]),
        ),
{
    law_trips_lines_keep_origin(lines, i + 1, node_idx_by_id, node_idx_by_id[id], trips);
}

} // verus!
