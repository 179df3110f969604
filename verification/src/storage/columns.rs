//! Columns of a scanned table and how rows are read out of them.
//!
//! A column holds a slot for each row: a value, and whether it is one. A slot
//! that is no value reads as `Null` whatever the column holds.
use crate::maps::NamedMap;
use crate::schema::evolution;
use crate::schema::{
    EdgeDef, EdgeDefView, EdgeId, NodeDef, NodeDefView, NodeId, PropertyDef, PropertyDefView,
    ScalarType,
};
use crate::storage;
use crate::storage::{
    EdgeRow, EdgeRowView, NodeRow, NodeRowView, Properties, PropertyValue, PropertyValueView,
    StorageError, StorageErrorView,
};
use crate::text;
use vstd::prelude::*;
use vstd::string::*;

verus! {

/// One place of a column.
#[derive(Clone, Debug)]
pub struct Slot<T> {
    pub valid: bool,
    pub value: T,
}

/// A column. `Float64` holds bit patterns; a list holds a column of elements
/// in each slot; `Other` is a column of a type that no property has.
#[derive(Debug)]
pub enum Column {
    Int64(Vec<Slot<i64>>),
    Float64(Vec<Slot<u64>>),
    Bool(Vec<Slot<bool>>),
    String(Vec<Slot<String>>),
    Timestamp(Vec<Slot<i64>>),
    Bytes(Vec<Slot<Vec<u8>>>),
    List(Vec<Slot<Column>>),
    Other(Vec<Slot<()>>),
}

pub open spec fn column_len(c: Column) -> nat {
    match c {
        Column::Int64(s) => s@.len(),
        Column::Float64(s) => s@.len(),
        Column::Bool(s) => s@.len(),
        Column::String(s) => s@.len(),
        Column::Timestamp(s) => s@.len(),
        Column::Bytes(s) => s@.len(),
        Column::List(s) => s@.len(),
        Column::Other(s) => s@.len(),
    }
}

pub open spec fn is_valid(c: Column, row: int) -> bool {
    match c {
        Column::Int64(s) => s@[row].valid,
        Column::Float64(s) => s@[row].valid,
        Column::Bool(s) => s@[row].valid,
        Column::String(s) => s@[row].valid,
        Column::Timestamp(s) => s@[row].valid,
        Column::Bytes(s) => s@[row].valid,
        Column::List(s) => s@[row].valid,
        Column::Other(s) => s@[row].valid,
    }
}

/// What is said of a column that does not hold its declared type.
pub open spec fn mismatch(ty: ScalarType) -> Seq<char> {
    "column declared as "@ + evolution::type_text(ty)
        + " does not have the matching Arrow array type"@
}

/// What a place of a column reads as, under the declared type.
pub open spec fn cell(c: Column, row: int, ty: ScalarType) -> Result<PropertyValueView, Seq<char>>
    decreases c, 0nat,
{
    if !(0 <= row < column_len(c)) || !is_valid(c, row) {
        Ok(PropertyValueView::Null)
    } else {
        match (ty, c) {
            (ScalarType::Int64, Column::Int64(s)) => Ok(PropertyValueView::Int64(s@[row].value)),
            (ScalarType::Float64, Column::Float64(s)) => Ok(
                PropertyValueView::Float64(s@[row].value),
            ),
            (ScalarType::Bool, Column::Bool(s)) => Ok(PropertyValueView::Bool(s@[row].value)),
            (ScalarType::String, Column::String(s)) => Ok(
                PropertyValueView::String(s@[row].value@),
            ),
            (ScalarType::Timestamp, Column::Timestamp(s)) => Ok(
                PropertyValueView::Timestamp(s@[row].value),
            ),
            (ScalarType::Bytes, Column::Bytes(s)) => Ok(PropertyValueView::Bytes(s@[row].value@)),
            (ScalarType::List(element), Column::List(s)) => match cells(
                s@[row].value,
                column_len(s@[row].value),
                *element,
            ) {
                Ok(items) => Ok(PropertyValueView::List(items)),
                Err(m) => Err(m),
            },
            (ScalarType::Vector { dim }, Column::List(s)) => match cells(
                s@[row].value,
                column_len(s@[row].value),
                ScalarType::Float64,
            ) {
                Ok(items) => Ok(PropertyValueView::List(items)),
                Err(m) => Err(m),
            },
            _ => Err(mismatch(ty)),
        }
    }
}

/// What the first `n` places of a column read as, or the first of them that
/// does not hold its type.
pub open spec fn cells(c: Column, n: nat, ty: ScalarType) -> Result<Seq<PropertyValueView>, Seq<char>>
    decreases c, n + 1,
{
    if n == 0 {
        Ok(seq![])
    } else {
        match cells(c, (n - 1) as nat, ty) {
            Err(m) => Err(m),
            Ok(items) => match cell(c, n - 1, ty) {
                Ok(v) => Ok(items.push(v)),
                Err(m) => Err(m),
            },
        }
    }
}

fn column_len_exec(c: &Column) -> (r: usize)
    ensures
        r == column_len(*c),
{
    match c {
        Column::Int64(s) => s.len(),
        Column::Float64(s) => s.len(),
        Column::Bool(s) => s.len(),
        Column::String(s) => s.len(),
        Column::Timestamp(s) => s.len(),
        Column::Bytes(s) => s.len(),
        Column::List(s) => s.len(),
        Column::Other(s) => s.len(),
    }
}

fn is_valid_exec(c: &Column, row: usize) -> (r: bool)
    requires
        row < column_len(*c),
    ensures
        r == is_valid(*c, row as int),
{
    match c {
        Column::Int64(s) => s[row].valid,
        Column::Float64(s) => s[row].valid,
        Column::Bool(s) => s[row].valid,
        Column::String(s) => s[row].valid,
        Column::Timestamp(s) => s[row].valid,
        Column::Bytes(s) => s[row].valid,
        Column::List(s) => s[row].valid,
        Column::Other(s) => s[row].valid,
    }
}

fn mismatch_error(ty: &ScalarType) -> (r: StorageError)
    ensures
        r@ == StorageErrorView::NonConformingRow(mismatch(*ty)),
{
    let mut m: String = "column declared as ".to_owned();
    let name = evolution::type_string(ty);
    m.append(name.as_str());
    m.append(" does not have the matching Arrow array type");
    StorageError::NonConformingRow(m)
}

/// That a reading gave what the specification says, errors included.
pub open spec fn reads<T: View>(r: Result<T, StorageError>, m: Result<T::V, Seq<char>>) -> bool {
    match r {
        Ok(x) => m == Ok::<T::V, Seq<char>>(x@),
        Err(e) => m is Err && e@ == StorageErrorView::NonConformingRow(m->Err_0),
    }
}

/// Reads a place of a column as the declared type. A vector reads as the list
/// of its components.
pub fn read_property_value(array: &Column, row: usize, ty: &ScalarType) -> (r: Result<
    PropertyValue,
    StorageError,
>)
    requires
        row < column_len(*array),
    ensures
        reads(r, cell(*array, row as int, *ty)),
    decreases array, 0nat,
{
    if !is_valid_exec(array, row) {
        return Ok(PropertyValue::Null);
    }
    match (ty, array) {
        (ScalarType::Int64, Column::Int64(s)) => Ok(PropertyValue::Int64(s[row].value)),
        (ScalarType::Float64, Column::Float64(s)) => Ok(PropertyValue::Float64(s[row].value)),
        (ScalarType::Bool, Column::Bool(s)) => Ok(PropertyValue::Bool(s[row].value)),
        (ScalarType::String, Column::String(s)) => Ok(PropertyValue::String(s[row].value.clone())),
        (ScalarType::Timestamp, Column::Timestamp(s)) => Ok(PropertyValue::Timestamp(s[row].value)),
        (ScalarType::Bytes, Column::Bytes(s)) => Ok(
            PropertyValue::Bytes(storage::duplicate_bytes(&s[row].value)),
        ),
        (ScalarType::List(element), Column::List(s)) => {
            assert(decreases_to!(array => array->List_0@[row as int].value));
            match read_elements(&s[row].value, element) {
                Ok(items) => {
                    proof {
                        storage::lemma_list_view(items);
                    }
                    Ok(PropertyValue::List(items))
                },
                Err(e) => Err(e),
            }
        },
        (ScalarType::Vector { .. }, Column::List(s)) => {
            assert(decreases_to!(array => array->List_0@[row as int].value));
            match read_elements(&s[row].value, &ScalarType::Float64) {
                Ok(items) => {
                    proof {
                        storage::lemma_list_view(items);
                    }
                    Ok(PropertyValue::List(items))
                },
                Err(e) => Err(e),
            }
        },
        _ => Err(mismatch_error(ty)),
    }
}

proof fn lemma_cells_error(c: Column, n: nat, m: nat, ty: ScalarType)
    requires
        n <= m,
        cells(c, n, ty) is Err,
    ensures
        cells(c, m, ty) == cells(c, n, ty),
    decreases m,
{
    if n < m {
        lemma_cells_error(c, n, (m - 1) as nat, ty);
    }
}

fn read_elements(array: &Column, ty: &ScalarType) -> (r: Result<Vec<PropertyValue>, StorageError>)
    ensures
        match r {
            Ok(items) => cells(*array, column_len(*array), *ty) == Ok::<
                Seq<PropertyValueView>,
                Seq<char>,
            >(text::views(items@)),
            Err(e) => cells(*array, column_len(*array), *ty) is Err && e@
                == StorageErrorView::NonConformingRow(
                cells(*array, column_len(*array), *ty)->Err_0,
            ),
        },
    decreases array, column_len(*array) + 1,
{
    let n: usize = column_len_exec(array);
    let mut items: Vec<PropertyValue> = Vec::new();
    let mut i: usize = 0;
    assert(text::views(items@) =~= Seq::<PropertyValueView>::empty());
    while i < n
        invariant
            i <= n,
            n == column_len(*array),
            cells(*array, i as nat, *ty) == Ok::<Seq<PropertyValueView>, Seq<char>>(
                text::views(items@),
            ),
        decreases n - i,
    {
        match read_property_value(array, i, ty) {
            Ok(v) => {
                proof {
                    text::lemma_views_push(items@, v);
                }
                items.push(v);
            },
            Err(e) => {
                proof {
                    lemma_cells_error(*array, (i + 1) as nat, n as nat, *ty);
                }
                return Err(e);
            },
        }
        i = i + 1;
    }
    Ok(items)
}

/// A batch of rows: columns by name, all of one length.
#[derive(Debug)]
pub struct Batch {
    pub columns: Vec<(String, Column)>,
    pub num_rows: usize,
}

impl Batch {
    pub open spec fn wf(&self) -> bool {
        forall|i: int|
            0 <= i < self.columns@.len() ==> column_len((#[trigger] self.columns@[i]).1)
                == self.num_rows
    }
}

/// The first column of a name.
pub open spec fn find_column(columns: Seq<(String, Column)>, name: Seq<char>) -> Option<Column>
    decreases columns.len(),
{
    if columns.len() == 0 {
        None
    } else if columns[0].0@ == name {
        Some(columns[0].1)
    } else {
        find_column(columns.drop_first(), name)
    }
}

fn column_by_name<'a>(batch: &'a Batch, name: &str) -> (r: Option<&'a Column>)
    requires
        batch.wf(),
    ensures
        match r {
            Some(c) => find_column(batch.columns@, name@) == Some(*c) && column_len(*c)
                == batch.num_rows,
            None => find_column(batch.columns@, name@) is None,
        },
{
    let ghost all = batch.columns@;
    let mut i: usize = 0;
    assert(all.skip(0) =~= all);
    while i < batch.columns.len()
        invariant
            i <= batch.columns.len(),
            batch.wf(),
            all == batch.columns@,
            find_column(all, name@) == find_column(all.skip(i as int), name@),
        decreases batch.columns.len() - i,
    {
        assert(all.skip(i as int)[0] == all[i as int]);
        assert(all.skip(i as int).drop_first() =~= all.skip(i + 1));
        if text::str_eq(batch.columns[i].0.as_str(), name) {
            return Some(&batch.columns[i].1);
        }
        i = i + 1;
    }
    None
}

/// The id that a stored signed integer stands for: the same 64 bits.
pub open spec fn id_bits(v: i64) -> u64 {
    v as u64
}

/// Ids survive the store: the signed integer that holds an id gives it back.
pub proof fn law_ids_survive_the_store(id: u64)
    ensures
        id_bits(id as i64) == id,
{
    assert((id as i64) as u64 == id) by (bit_vector);
}

/// What an id column holds in a row, whether or not the slot is a value.
pub open spec fn id_at(c: Column, row: int) -> Result<u64, Seq<char>> {
    match c {
        Column::Int64(s) => Ok(id_bits(s@[row].value)),
        _ => Err("id column is not Int64"@),
    }
}

/// Reads an id. Ids are stored as signed integers and cast bit for bit.
fn read_id(column: &Column, row: usize) -> (r: Result<u64, StorageError>)
    requires
        row < column_len(*column),
    ensures
        match r {
            Ok(id) => id_at(*column, row as int) == Ok::<u64, Seq<char>>(id),
            Err(e) => id_at(*column, row as int) is Err && e@ == StorageErrorView::NonConformingRow(
                id_at(*column, row as int)->Err_0,
            ),
        },
{
    match column {
        Column::Int64(s) => {
            let v: i64 = s[row].value;
            Ok(
                #[verifier::truncate]
                (v as u64),
            )
        },
        _ => Err(StorageError::NonConformingRow("id column is not Int64".to_owned())),
    }
}

/// The declared properties of a row, or the first that cannot be read.
pub open spec fn properties_in(
    columns: Seq<(String, Column)>,
    row: int,
    defs: Seq<PropertyDefView>,
) -> Result<Map<Seq<char>, PropertyValueView>, Seq<char>>
    decreases defs.len(),
{
    if defs.len() == 0 {
        Ok(Map::empty())
    } else {
        match properties_in(columns, row, defs.drop_last()) {
            Err(m) => Err(m),
            Ok(earlier) => match find_column(columns, defs.last().name) {
                None => Err("missing column "@ + defs.last().name),
                Some(c) => match cell(c, row, defs.last().ty) {
                    Ok(v) => Ok(earlier.insert(defs.last().name, v)),
                    Err(m) => Err(m),
                },
            },
        }
    }
}

proof fn lemma_properties_error(
    columns: Seq<(String, Column)>,
    row: int,
    defs: Seq<PropertyDefView>,
    n: int,
)
    requires
        0 <= n <= defs.len(),
        properties_in(columns, row, defs.take(n)) is Err,
    ensures
        properties_in(columns, row, defs) == properties_in(columns, row, defs.take(n)),
    decreases defs.len(),
{
    if n < defs.len() {
        assert(defs.drop_last().take(n) =~= defs.take(n));
        lemma_properties_error(columns, row, defs.drop_last(), n);
    } else {
        assert(defs.take(n) =~= defs);
    }
}

fn read_properties(batch: &Batch, row: usize, defs: &Vec<PropertyDef>) -> (r: Result<
    Properties,
    StorageError,
>)
    requires
        batch.wf(),
        row < batch.num_rows,
    ensures
        match r {
            Ok(p) => properties_in(batch.columns@, row as int, text::views(defs@)) == Ok::<
                Map<Seq<char>, PropertyValueView>,
                Seq<char>,
            >(storage::property_views(p@)),
            Err(e) => properties_in(batch.columns@, row as int, text::views(defs@)) is Err && e@
                == StorageErrorView::NonConformingRow(
                properties_in(batch.columns@, row as int, text::views(defs@))->Err_0,
            ),
        },
{
    let ghost all = text::views(defs@);
    let ghost columns = batch.columns@;
    let mut properties: Properties = NamedMap::new();
    let mut i: usize = 0;
    assert(storage::property_views(properties@) =~= Map::<Seq<char>, PropertyValueView>::empty());
    assert(all.take(0) =~= Seq::<PropertyDefView>::empty());
    while i < defs.len()
        invariant
            i <= defs.len(),
            batch.wf(),
            row < batch.num_rows,
            all == text::views(defs@),
            columns == batch.columns@,
            properties_in(columns, row as int, all.take(i as int)) == Ok::<
                Map<Seq<char>, PropertyValueView>,
                Seq<char>,
            >(storage::property_views(properties@)),
        decreases defs.len() - i,
    {
        let def = &defs[i];
        assert(all.take(i + 1).drop_last() =~= all.take(i as int));
        assert(all.take(i + 1).last() == def@);
        match column_by_name(batch, def.name.as_str()) {
            None => {
                let mut m: String = "missing column ".to_owned();
                m.append(def.name.as_str());
                proof {
                    lemma_properties_error(columns, row as int, all, i + 1);
                }
                return Err(StorageError::NonConformingRow(m));
            },
            Some(c) => match read_property_value(c, row, &def.ty) {
                Ok(v) => {
                    proof {
                        storage::lemma_property_views_insert(properties@, def.name@, v);
                    }
                    properties.insert(def.name.clone(), v);
                },
                Err(e) => {
                    proof {
                        lemma_properties_error(columns, row as int, all, i + 1);
                    }
                    return Err(e);
                },
            },
        }
        i = i + 1;
    }
    assert(all.take(all.len() as int) =~= all);
    Ok(properties)
}

/// A row of a node table: its id first, then its properties.
pub open spec fn node_row_at(
    columns: Seq<(String, Column)>,
    ids: Column,
    row: int,
    defs: Seq<PropertyDefView>,
) -> Result<NodeRowView, StorageErrorView> {
    match id_at(ids, row) {
        Err(m) => Err(StorageErrorView::NonConformingRow(m)),
        Ok(id) => match properties_in(columns, row, defs) {
            Err(m) => Err(StorageErrorView::NonConformingRow(m)),
            Ok(properties) => Ok(NodeRowView { id: NodeId(id), properties }),
        },
    }
}

/// The rows of a batch of a node table. A batch that could not be fetched, or
/// that has no id column, is one error.
pub open spec fn node_rows_of(
    columns: Seq<(String, Column)>,
    num_rows: nat,
    def: NodeDefView,
) -> Seq<Result<NodeRowView, StorageErrorView>> {
    match find_column(columns, "node_id"@) {
        None => seq![Err(StorageErrorView::NonConformingRow("missing node_id column"@))],
        Some(ids) => Seq::new(num_rows, |row: int| node_row_at(columns, ids, row, def.properties)),
    }
}

pub open spec fn edge_row_at(
    columns: Seq<(String, Column)>,
    ids: Column,
    sources: Column,
    targets: Column,
    row: int,
    defs: Seq<PropertyDefView>,
) -> Result<EdgeRowView, StorageErrorView> {
    match (id_at(ids, row), id_at(sources, row), id_at(targets, row)) {
        (Err(m), _, _) => Err(StorageErrorView::NonConformingRow(m)),
        (_, Err(m), _) => Err(StorageErrorView::NonConformingRow(m)),
        (_, _, Err(m)) => Err(StorageErrorView::NonConformingRow(m)),
        (Ok(id), Ok(src), Ok(dst)) => match properties_in(columns, row, defs) {
            Err(m) => Err(StorageErrorView::NonConformingRow(m)),
            Ok(properties) => Ok(
                EdgeRowView { id: EdgeId(id), src: NodeId(src), dst: NodeId(dst), properties },
            ),
        },
    }
}

/// The rows of a batch of an edge table.
pub open spec fn edge_rows_of(
    columns: Seq<(String, Column)>,
    num_rows: nat,
    def: EdgeDefView,
) -> Seq<Result<EdgeRowView, StorageErrorView>> {
    match (
        find_column(columns, "edge_id"@),
        find_column(columns, "src_node_id"@),
        find_column(columns, "dst_node_id"@),
    ) {
        (Some(ids), Some(sources), Some(targets)) => Seq::new(
            num_rows,
            |row: int| edge_row_at(columns, ids, sources, targets, row, def.properties),
        ),
        _ => seq![
            Err(
                StorageErrorView::NonConformingRow(
                    "missing edge_id/src_node_id/dst_node_id column"@,
                ),
            ),
        ],
    }
}

/// The views of a sequence of results.
pub open spec fn result_views<T: View>(rows: Seq<Result<T, StorageError>>) -> Seq<
    Result<T::V, StorageErrorView>,
> {
    Seq::new(
        rows.len(),
        |i: int|
            match rows[i] {
                Ok(x) => Ok(x@),
                Err(e) => Err(e@),
            },
    )
}

/// Turns a fetched batch, or the message of why it could not be fetched, into
/// the rows of a node table.
pub fn batch_to_node_rows(batch: Result<Batch, String>, node_def: &NodeDef) -> (r: Vec<
    Result<NodeRow, StorageError>,
>)
    requires
        batch matches Ok(b) ==> b.wf(),
    ensures
        result_views(r@) == (match batch {
            Ok(b) => node_rows_of(b.columns@, b.num_rows as nat, node_def@),
            Err(m) => seq![Err(StorageErrorView::Backend(m@))],
        }),
{
    let mut rows: Vec<Result<NodeRow, StorageError>> = Vec::new();
    let batch = match batch {
        Ok(b) => b,
        Err(m) => {
            rows.push(Err(StorageError::Backend(m)));
            assert(result_views(rows@) =~= seq![Err(StorageErrorView::Backend(m@))]);
            return rows;
        },
    };
    let ids = match column_by_name(&batch, "node_id") {
        Some(c) => c,
        None => {
            rows.push(Err(StorageError::NonConformingRow("missing node_id column".to_owned())));
            assert(result_views(rows@) =~= node_rows_of(
                batch.columns@,
                batch.num_rows as nat,
                node_def@,
            ));
            return rows;
        },
    };
    let ghost target = node_rows_of(batch.columns@, batch.num_rows as nat, node_def@);
    let mut row: usize = 0;
    while row < batch.num_rows
        invariant
            row <= batch.num_rows,
            batch.wf(),
            column_len(*ids) == batch.num_rows,
            find_column(batch.columns@, "node_id"@) == Some(*ids),
            target == node_rows_of(batch.columns@, batch.num_rows as nat, node_def@),
            rows@.len() == row,
            forall|k: int| 0 <= k < row ==> #[trigger] result_views(rows@)[k] == target[k],
        decreases batch.num_rows - row,
    {
        let ghost before = rows@;
        let next = match read_id(ids, row) {
            Err(e) => Err(e),
            Ok(id) => match read_properties(&batch, row, &node_def.properties) {
                Err(e) => Err(e),
                Ok(properties) => Ok(NodeRow { id: NodeId(id), properties }),
            },
        };
        rows.push(next);
        assert forall|k: int| 0 <= k < row + 1 implies #[trigger] result_views(rows@)[k]
            == target[k] by {
            if k < row {
                assert(result_views(before)[k] == target[k]);
            }
        }
        row = row + 1;
    }
    assert(result_views(rows@) =~= target);
    rows
}

/// Turns a fetched batch, or the message of why it could not be fetched, into
/// the rows of an edge table.
pub fn batch_to_edge_rows(batch: Result<Batch, String>, edge_def: &EdgeDef) -> (r: Vec<
    Result<EdgeRow, StorageError>,
>)
    requires
        batch matches Ok(b) ==> b.wf(),
    ensures
        result_views(r@) == (match batch {
            Ok(b) => edge_rows_of(b.columns@, b.num_rows as nat, edge_def@),
            Err(m) => seq![Err(StorageErrorView::Backend(m@))],
        }),
{
    let mut rows: Vec<Result<EdgeRow, StorageError>> = Vec::new();
    let batch = match batch {
        Ok(b) => b,
        Err(m) => {
            rows.push(Err(StorageError::Backend(m)));
            assert(result_views(rows@) =~= seq![Err(StorageErrorView::Backend(m@))]);
            return rows;
        },
    };
    let found = (
        column_by_name(&batch, "edge_id"),
        column_by_name(&batch, "src_node_id"),
        column_by_name(&batch, "dst_node_id"),
    );
    let (ids, sources, targets) = match found {
        (Some(a), Some(b), Some(c)) => (a, b, c),
        _ => {
            rows.push(
                Err(
                    StorageError::NonConformingRow(
                        "missing edge_id/src_node_id/dst_node_id column".to_owned(),
                    ),
                ),
            );
            assert(result_views(rows@) =~= edge_rows_of(
                batch.columns@,
                batch.num_rows as nat,
                edge_def@,
            ));
            return rows;
        },
    };
    let ghost target = edge_rows_of(batch.columns@, batch.num_rows as nat, edge_def@);
    let mut row: usize = 0;
    while row < batch.num_rows
        invariant
            row <= batch.num_rows,
            batch.wf(),
            column_len(*ids) == batch.num_rows,
            column_len(*sources) == batch.num_rows,
            column_len(*targets) == batch.num_rows,
            find_column(batch.columns@, "edge_id"@) == Some(*ids),
            find_column(batch.columns@, "src_node_id"@) == Some(*sources),
            find_column(batch.columns@, "dst_node_id"@) == Some(*targets),
            target == edge_rows_of(batch.columns@, batch.num_rows as nat, edge_def@),
            rows@.len() == row,
            forall|k: int| 0 <= k < row ==> #[trigger] result_views(rows@)[k] == target[k],
        decreases batch.num_rows - row,
    {
        let ghost before = rows@;
        let next = match read_id(ids, row) {
            Err(e) => Err(e),
            Ok(id) => match read_id(sources, row) {
                Err(e) => Err(e),
                Ok(src) => match read_id(targets, row) {
                    Err(e) => Err(e),
                    Ok(dst) => match read_properties(&batch, row, &edge_def.properties) {
                        Err(e) => Err(e),
                        Ok(properties) => Ok(
                            EdgeRow { id: EdgeId(id), src: NodeId(src), dst: NodeId(dst), properties },
                        ),
                    },
                },
            },
        };
        rows.push(next);
        assert forall|k: int| 0 <= k < row + 1 implies #[trigger] result_views(rows@)[k]
            == target[k] by {
            if k < row {
                assert(result_views(before)[k] == target[k]);
            }
        }
        row = row + 1;
    }
    assert(result_views(rows@) =~= target);
    rows
}

} // verus!
