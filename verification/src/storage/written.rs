//! Tables that hold given rows read back as these rows.
//!
//! What a table holds is said slot by slot: the slot of a row in the column of
//! a property holds the value of that row, and the slot of an id column its
//! number.
use crate::schema::{EdgeDefView, NodeDefView, PropertyDefView, ScalarType};
use crate::storage::columns;
use crate::storage::columns::Column;
use crate::storage::{EdgeRowView, NodeRowView, PropertyValueView, StorageErrorView};
use vstd::prelude::*;

verus! {

/// That the slot of a row of a column holds a value: the value itself, or no
/// value for `Null`.
pub open spec fn stores(c: Column, row: int, v: PropertyValueView) -> bool
    decreases c,
{
    0 <= row < columns::column_len(c) && match c {
        Column::Int64(s) => if s@[row].valid {
            v == PropertyValueView::Int64(s@[row].value)
        } else {
            v is Null
        },
        Column::Float64(s) => if s@[row].valid {
            v == PropertyValueView::Float64(s@[row].value)
        } else {
            v is Null
        },
        Column::Bool(s) => if s@[row].valid {
            v == PropertyValueView::Bool(s@[row].value)
        } else {
            v is Null
        },
        Column::String(s) => if s@[row].valid {
            v == PropertyValueView::String(s@[row].value@)
        } else {
            v is Null
        },
        Column::Timestamp(s) => if s@[row].valid {
            v == PropertyValueView::Timestamp(s@[row].value)
        } else {
            v is Null
        },
        Column::Bytes(s) => if s@[row].valid {
            v == PropertyValueView::Bytes(s@[row].value@)
        } else {
            v is Null
        },
        Column::List(s) => if s@[row].valid {
            v matches PropertyValueView::List(items) && items.len() == columns::column_len(
                s@[row].value,
            ) && forall|k: int|
                0 <= k < items.len() ==> stores(s@[row].value, k, #[trigger] items[k])
        } else {
            v is Null
        },
        Column::Other(s) => !s@[row].valid && v is Null,
    }
}

/// That a value is of a declared type. `Null` is of every type; a vector is a
/// list of doubles.
pub open spec fn is_of(v: PropertyValueView, ty: ScalarType) -> bool
    decreases v,
{
    match (v, ty) {
        (PropertyValueView::Null, _) => true,
        (PropertyValueView::Int64(_), ScalarType::Int64) => true,
        (PropertyValueView::Float64(_), ScalarType::Float64) => true,
        (PropertyValueView::Bool(_), ScalarType::Bool) => true,
        (PropertyValueView::String(_), ScalarType::String) => true,
        (PropertyValueView::Timestamp(_), ScalarType::Timestamp) => true,
        (PropertyValueView::Bytes(_), ScalarType::Bytes) => true,
        (PropertyValueView::List(items), ScalarType::List(element)) => forall|k: int|
            0 <= k < items.len() ==> is_of(#[trigger] items[k], *element),
        (PropertyValueView::List(items), ScalarType::Vector { dim }) => forall|k: int|
            0 <= k < items.len() ==> is_of(#[trigger] items[k], ScalarType::Float64),
        _ => false,
    }
}

proof fn lemma_cells_are_stored(c: Column, n: nat, ty: ScalarType, items: Seq<PropertyValueView>)
    requires
        n <= columns::column_len(c),
    ensures
        columns::cells(c, n, ty) == Ok::<Seq<PropertyValueView>, Seq<char>>(items) <==> items.len()
            == n && forall|k: int|
            0 <= k < n ==> stores(c, k, #[trigger] items[k]) && is_of(items[k], ty),
    decreases c, n + 1,
{
    if n == 0 {
        if items.len() == 0 {
            assert(items =~= Seq::<PropertyValueView>::empty());
        }
    } else {
        let m = (n - 1) as nat;
        if items.len() == n {
            let shorter = items.drop_last();
            lemma_cells_are_stored(c, m, ty, shorter);
            law_a_cell_reads_what_is_stored(c, n - 1, ty, items.last());
            assert(items =~= shorter.push(items.last()));
            if forall|k: int|
                0 <= k < n ==> stores(c, k, #[trigger] items[k]) && is_of(items[k], ty) {
                assert forall|k: int| 0 <= k < m implies stores(c, k, #[trigger] shorter[k])
                    && is_of(shorter[k], ty) by {
                    assert(stores(c, k, items[k]) && is_of(items[k], ty));
                }
                assert(stores(c, n - 1, items[n - 1]));
            }
            if columns::cells(c, n, ty) == Ok::<Seq<PropertyValueView>, Seq<char>>(items) {
                let rest = columns::cells(c, m, ty)->Ok_0;
                let v = columns::cell(c, n - 1, ty)->Ok_0;
                assert(items == rest.push(v));
                assert(rest =~= shorter);
                assert(v == items.last());
                assert forall|k: int| 0 <= k < n implies stores(c, k, #[trigger] items[k]) && is_of(
                    items[k],
                    ty,
                ) by {
                    if k < m {
                        assert(shorter[k] == items[k]);
                    }
                }
            }
        } else if columns::cells(c, n, ty) == Ok::<Seq<PropertyValueView>, Seq<char>>(items) {
            let rest = columns::cells(c, m, ty)->Ok_0;
            lemma_cells_are_stored(c, m, ty, rest);
        }
    }
}

/// A slot reads as a value of the declared type exactly where the slot holds
/// that value, and the value is of that type.
pub proof fn law_a_cell_reads_what_is_stored(
    c: Column,
    row: int,
    ty: ScalarType,
    v: PropertyValueView,
)
    requires
        0 <= row < columns::column_len(c),
    ensures
        columns::cell(c, row, ty) == Ok::<PropertyValueView, Seq<char>>(v) <==> stores(c, row, v)
            && is_of(v, ty),
    decreases c, 0nat,
{
    if let Column::List(s) = c {
        let inner = s@[row].value;
        let n = columns::column_len(inner);
        if s@[row].valid {
            let element = match ty {
                ScalarType::List(element) => *element,
                _ => ScalarType::Float64,
            };
            if let PropertyValueView::List(items) = v {
                lemma_cells_are_stored(inner, n, element, items);
                if stores(c, row, v) && is_of(v, ty) {
                    assert forall|k: int| 0 <= k < n implies stores(inner, k, #[trigger] items[k])
                        && is_of(items[k], element) by {}
                }
            }
        }
    }
}

/// That a table has a column of a name, and no other one of that name before
/// it.
pub open spec fn has_column(table: Seq<(String, Column)>, name: Seq<char>, c: Column) -> bool {
    exists|i: int|
        0 <= i < table.len() && (#[trigger] table[i]).0@ == name && table[i].1 == c && forall|
            j: int,
        |
            0 <= j < i ==> (#[trigger] table[j]).0@ != name
}

/// A column is found by its name.
pub proof fn law_a_column_is_found_by_its_name(
    table: Seq<(String, Column)>,
    name: Seq<char>,
    c: Column,
)
    ensures
        columns::find_column(table, name) == Some(c) <==> has_column(table, name, c),
    decreases table.len(),
{
    if table.len() > 0 {
        let rest = table.drop_first();
        law_a_column_is_found_by_its_name(rest, name, c);
        if table[0].0@ == name {
            if table[0].1 == c {
                assert(has_column(table, name, c)) by {
                    assert(table[0].0@ == name && table[0].1 == c);
                }
            }
        } else {
            if has_column(rest, name, c) {
                let i = choose|i: int|
                    0 <= i < rest.len() && (#[trigger] rest[i]).0@ == name && rest[i].1 == c
                        && forall|j: int| 0 <= j < i ==> (#[trigger] rest[j]).0@ != name;
                assert(table[i + 1] == rest[i]);
                assert forall|j: int| 0 <= j < i + 1 implies (#[trigger] table[j]).0@ != name by {
                    if j > 0 {
                        assert(rest[j - 1] == table[j]);
                    }
                }
            }
            if has_column(table, name, c) {
                let i = choose|i: int|
                    0 <= i < table.len() && (#[trigger] table[i]).0@ == name && table[i].1 == c
                        && forall|j: int| 0 <= j < i ==> (#[trigger] table[j]).0@ != name;
                assert(rest[i - 1] == table[i]);
                assert forall|j: int| 0 <= j < i - 1 implies (#[trigger] rest[j]).0@ != name by {
                    assert(table[j + 1] == rest[j]);
                }
            }
        }
    }
}

/// That the slot of a row of a column holds the 64 bits of an id.
pub open spec fn stores_id(c: Column, row: int, id: u64) -> bool {
    c matches Column::Int64(s) && 0 <= row < s@.len() && s@[row].value == (id as i64)
}

/// An id column reads as an id exactly where its slot holds the bits of it.
pub proof fn law_an_id_is_read_from_its_slot(c: Column, row: int, id: u64)
    requires
        0 <= row < columns::column_len(c),
    ensures
        columns::id_at(c, row) == Ok::<u64, Seq<char>>(id) <==> stores_id(c, row, id),
{
    if let Column::Int64(s) = c {
        let v = s@[row].value;
        assert(((v as u64) as i64) == v) by (bit_vector);
        assert(((id as i64) as u64) == id) by (bit_vector);
    }
}

/// That a row of a table holds properties: one for each declared name and no
/// others, each in the column of its name and of its declared type.
pub open spec fn stores_properties(
    table: Seq<(String, Column)>,
    row: int,
    defs: Seq<PropertyDefView>,
    properties: Map<Seq<char>, PropertyValueView>,
) -> bool {
    &&& forall|name: Seq<char>| #[trigger]
        properties.dom().contains(name) <==> exists|k: int|
            0 <= k < defs.len() && (#[trigger] defs[k]).name == name
    &&& forall|k: int|
        0 <= k < defs.len() ==> exists|c: Column| #[trigger]
            has_column(table, (#[trigger] defs[k]).name, c) && stores(
                c,
                row,
                properties[defs[k].name],
            ) && is_of(properties[defs[k].name], defs[k].ty)
}

/// That no property is declared twice.
pub open spec fn distinct_defs(defs: Seq<PropertyDefView>) -> bool {
    forall|i: int, j: int|
        0 <= i < j < defs.len() ==> (#[trigger] defs[i]).name != (#[trigger] defs[j]).name
}

/// That all columns of a table have one length.
pub open spec fn all_of_length(table: Seq<(String, Column)>, n: nat) -> bool {
    forall|i: int| 0 <= i < table.len() ==> columns::column_len((#[trigger] table[i]).1) == n
}

proof fn lemma_column_length(table: Seq<(String, Column)>, n: nat, name: Seq<char>, c: Column)
    requires
        all_of_length(table, n),
        has_column(table, name, c),
    ensures
        columns::column_len(c) == n,
{
}

proof fn lemma_properties_read(
    table: Seq<(String, Column)>,
    n: nat,
    row: int,
    defs: Seq<PropertyDefView>,
    properties: Map<Seq<char>, PropertyValueView>,
)
    requires
        all_of_length(table, n),
        0 <= row < n,
        distinct_defs(defs),
        stores_properties(table, row, defs, properties),
    ensures
        columns::properties_in(table, row, defs) == Ok::<
            Map<Seq<char>, PropertyValueView>,
            Seq<char>,
        >(properties),
    decreases defs.len(),
{
    if defs.len() == 0 {
        assert(properties =~= Map::<Seq<char>, PropertyValueView>::empty());
    } else {
        let shorter = defs.drop_last();
        let last = defs.last();
        let fewer = properties.remove(last.name);
        assert forall|i: int, j: int| 0 <= i < j < shorter.len() implies (
        #[trigger] shorter[i]).name != (#[trigger] shorter[j]).name by {
            assert(defs[i].name != defs[j].name);
        }
        assert(defs[defs.len() - 1] == last);
        assert forall|name: Seq<char>| #[trigger] fewer.dom().contains(name) <==> exists|k: int|
            0 <= k < shorter.len() && (#[trigger] shorter[k]).name == name by {
            if fewer.dom().contains(name) {
                assert(properties.dom().contains(name));
                let k = choose|k: int| 0 <= k < defs.len() && (#[trigger] defs[k]).name == name;
                assert(shorter[k].name == name);
            }
            if exists|k: int| 0 <= k < shorter.len() && (#[trigger] shorter[k]).name == name {
                let k = choose|k: int|
                    0 <= k < shorter.len() && (#[trigger] shorter[k]).name == name;
                assert(defs[k].name != defs[defs.len() - 1].name);
                assert(properties.dom().contains(name));
            }
        }
        assert forall|k: int| 0 <= k < shorter.len() implies exists|c: Column| #[trigger]
            has_column(table, (#[trigger] shorter[k]).name, c) && stores(
                c,
                row,
                fewer[shorter[k].name],
            ) && is_of(fewer[shorter[k].name], shorter[k].ty) by {
            assert(defs[k] == shorter[k]);
            assert(defs[k].name != defs[defs.len() - 1].name);
            let c = choose|c: Column| #[trigger]
                has_column(table, defs[k].name, c) && stores(c, row, properties[defs[k].name])
                    && is_of(properties[defs[k].name], defs[k].ty);
            assert(has_column(table, shorter[k].name, c));
        }
        lemma_properties_read(table, n, row, shorter, fewer);
        let k = defs.len() - 1;
        let c = choose|c: Column| #[trigger]
            has_column(table, defs[k].name, c) && stores(c, row, properties[defs[k].name]) && is_of(
                properties[defs[k].name],
                defs[k].ty,
            );
        lemma_column_length(table, n, last.name, c);
        law_a_column_is_found_by_its_name(table, last.name, c);
        law_a_cell_reads_what_is_stored(c, row, last.ty, properties[last.name]);
        assert(properties.dom().contains(last.name));
        assert(fewer.insert(last.name, properties[last.name]) =~= properties);
    }
}

proof fn lemma_read_properties(
    table: Seq<(String, Column)>,
    n: nat,
    row: int,
    defs: Seq<PropertyDefView>,
)
    requires
        all_of_length(table, n),
        0 <= row < n,
        distinct_defs(defs),
        columns::properties_in(table, row, defs) is Ok,
    ensures
        stores_properties(table, row, defs, columns::properties_in(table, row, defs)->Ok_0),
    decreases defs.len(),
{
    let properties = columns::properties_in(table, row, defs)->Ok_0;
    if defs.len() > 0 {
        let shorter = defs.drop_last();
        let last = defs.last();
        let fewer = columns::properties_in(table, row, shorter)->Ok_0;
        assert forall|i: int, j: int| 0 <= i < j < shorter.len() implies (
        #[trigger] shorter[i]).name != (#[trigger] shorter[j]).name by {
            assert(defs[i].name != defs[j].name);
        }
        assert(defs[defs.len() - 1] == last);
        lemma_read_properties(table, n, row, shorter);
        let found = columns::find_column(table, last.name)->Some_0;
        let v = columns::cell(found, row, last.ty)->Ok_0;
        law_a_column_is_found_by_its_name(table, last.name, found);
        lemma_column_length(table, n, last.name, found);
        law_a_cell_reads_what_is_stored(found, row, last.ty, v);
        assert(properties == fewer.insert(last.name, v));
        assert forall|name: Seq<char>| #[trigger] properties.dom().contains(name) <==> exists|
            k: int,
        |
            0 <= k < defs.len() && (#[trigger] defs[k]).name == name by {
            if properties.dom().contains(name) && name != last.name {
                assert(fewer.dom().contains(name));
                let k = choose|k: int|
                    0 <= k < shorter.len() && (#[trigger] shorter[k]).name == name;
                assert(defs[k].name == name);
            }
            if exists|k: int| 0 <= k < defs.len() && (#[trigger] defs[k]).name == name {
                let k = choose|k: int| 0 <= k < defs.len() && (#[trigger] defs[k]).name == name;
                if k < shorter.len() {
                    assert(shorter[k].name == name);
                    assert(fewer.dom().contains(name));
                }
            }
        }
        assert forall|k: int| 0 <= k < defs.len() implies exists|c: Column| #[trigger]
            has_column(table, (#[trigger] defs[k]).name, c) && stores(
                c,
                row,
                properties[defs[k].name],
            ) && is_of(properties[defs[k].name], defs[k].ty) by {
            if k < shorter.len() {
                assert(shorter[k] == defs[k]);
                assert(defs[k].name != defs[defs.len() - 1].name);
                let c = choose|c: Column| #[trigger]
                    has_column(table, shorter[k].name, c) && stores(c, row, fewer[shorter[k].name])
                        && is_of(fewer[shorter[k].name], shorter[k].ty);
                assert(has_column(table, defs[k].name, c));
            } else {
                assert(has_column(table, defs[k].name, found));
            }
        }
    }
}

/// That a row of a table holds a node: its id in the column `node_id`, and its
/// properties in theirs.
pub open spec fn stores_node(
    table: Seq<(String, Column)>,
    row: int,
    defs: Seq<PropertyDefView>,
    node: NodeRowView,
) -> bool {
    &&& exists|c: Column| #[trigger]
        has_column(table, "node_id"@, c) && stores_id(c, row, node.id.0)
    &&& stores_properties(table, row, defs, node.properties)
}

/// That a row of a table holds an edge: its id, its source and its target each
/// in the column of that name, and its properties in theirs.
pub open spec fn stores_edge(
    table: Seq<(String, Column)>,
    row: int,
    defs: Seq<PropertyDefView>,
    edge: EdgeRowView,
) -> bool {
    &&& exists|c: Column| #[trigger]
        has_column(table, "edge_id"@, c) && stores_id(c, row, edge.id.0)
    &&& exists|c: Column| #[trigger]
        has_column(table, "src_node_id"@, c) && stores_id(c, row, edge.src.0)
    &&& exists|c: Column| #[trigger]
        has_column(table, "dst_node_id"@, c) && stores_id(c, row, edge.dst.0)
    &&& stores_properties(table, row, defs, edge.properties)
}

/// That a table has a column of a name.
pub open spec fn is_there(table: Seq<(String, Column)>, name: Seq<char>) -> bool {
    exists|i: int| 0 <= i < table.len() && (#[trigger] table[i]).0@ == name
}

proof fn lemma_is_there(table: Seq<(String, Column)>, name: Seq<char>)
    ensures
        columns::find_column(table, name) is Some <==> is_there(table, name),
    decreases table.len(),
{
    if table.len() > 0 {
        let rest = table.drop_first();
        lemma_is_there(rest, name);
        if is_there(rest, name) {
            let i = choose|i: int| 0 <= i < rest.len() && (#[trigger] rest[i]).0@ == name;
            assert(table[i + 1].0@ == name);
        }
        if is_there(table, name) && table[0].0@ != name {
            let i = choose|i: int| 0 <= i < table.len() && (#[trigger] table[i]).0@ == name;
            assert(rest[i - 1].0@ == name);
        }
    }
}

/// A node is read from a row of a table exactly where the row holds it; a row
/// that holds none is an error.
pub proof fn law_a_node_is_read_where_it_is_stored(
    table: Seq<(String, Column)>,
    n: nat,
    def: NodeDefView,
    row: int,
    node: NodeRowView,
)
    requires
        all_of_length(table, n),
        distinct_defs(def.properties),
        is_there(table, "node_id"@),
        0 <= row < n,
    ensures
        columns::node_rows_of(table, n, def).len() == n,
        columns::node_rows_of(table, n, def)[row] == Ok::<NodeRowView, StorageErrorView>(node)
            <==> stores_node(table, row, def.properties, node),
{
    lemma_is_there(table, "node_id"@);
    let ids = columns::find_column(table, "node_id"@)->Some_0;
    law_a_column_is_found_by_its_name(table, "node_id"@, ids);
    lemma_column_length(table, n, "node_id"@, ids);
    law_an_id_is_read_from_its_slot(ids, row, node.id.0);
    let found = columns::node_rows_of(table, n, def)[row];
    assert(found == columns::node_row_at(table, ids, row, def.properties));
    if found == Ok::<NodeRowView, StorageErrorView>(node) {
        lemma_read_properties(table, n, row, def.properties);
        assert(has_column(table, "node_id"@, ids));
    }
    if stores_node(table, row, def.properties, node) {
        let c = choose|c: Column| #[trigger]
            has_column(table, "node_id"@, c) && stores_id(c, row, node.id.0);
        law_a_column_is_found_by_its_name(table, "node_id"@, c);
        lemma_properties_read(table, n, row, def.properties, node.properties);
    }
}

/// An edge is read from a row of a table exactly where the row holds it: its
/// id, its source and its target are the numbers in that row of their own
/// columns. A row that holds none is an error.
pub proof fn law_an_edge_is_read_where_it_is_stored(
    table: Seq<(String, Column)>,
    n: nat,
    def: EdgeDefView,
    row: int,
    edge: EdgeRowView,
)
    requires
        all_of_length(table, n),
        distinct_defs(def.properties),
        is_there(table, "edge_id"@),
        is_there(table, "src_node_id"@),
        is_there(table, "dst_node_id"@),
        0 <= row < n,
    ensures
        columns::edge_rows_of(table, n, def).len() == n,
        columns::edge_rows_of(table, n, def)[row] == Ok::<EdgeRowView, StorageErrorView>(edge)
            <==> stores_edge(table, row, def.properties, edge),
{
    lemma_is_there(table, "edge_id"@);
    lemma_is_there(table, "src_node_id"@);
    lemma_is_there(table, "dst_node_id"@);
    let ids = columns::find_column(table, "edge_id"@)->Some_0;
    let sources = columns::find_column(table, "src_node_id"@)->Some_0;
    let targets = columns::find_column(table, "dst_node_id"@)->Some_0;
    law_a_column_is_found_by_its_name(table, "edge_id"@, ids);
    law_a_column_is_found_by_its_name(table, "src_node_id"@, sources);
    law_a_column_is_found_by_its_name(table, "dst_node_id"@, targets);
    lemma_column_length(table, n, "edge_id"@, ids);
    lemma_column_length(table, n, "src_node_id"@, sources);
    lemma_column_length(table, n, "dst_node_id"@, targets);
    law_an_id_is_read_from_its_slot(ids, row, edge.id.0);
    law_an_id_is_read_from_its_slot(sources, row, edge.src.0);
    law_an_id_is_read_from_its_slot(targets, row, edge.dst.0);
    let found = columns::edge_rows_of(table, n, def)[row];
    assert(found == columns::edge_row_at(table, ids, sources, targets, row, def.properties));
    if found == Ok::<EdgeRowView, StorageErrorView>(edge) {
        lemma_read_properties(table, n, row, def.properties);
        assert(has_column(table, "edge_id"@, ids));
        assert(has_column(table, "src_node_id"@, sources));
        assert(has_column(table, "dst_node_id"@, targets));
    }
    if stores_edge(table, row, def.properties, edge) {
        let a = choose|c: Column| #[trigger]
            has_column(table, "edge_id"@, c) && stores_id(c, row, edge.id.0);
        let b = choose|c: Column| #[trigger]
            has_column(table, "src_node_id"@, c) && stores_id(c, row, edge.src.0);
        let d = choose|c: Column| #[trigger]
            has_column(table, "dst_node_id"@, c) && stores_id(c, row, edge.dst.0);
        law_a_column_is_found_by_its_name(table, "edge_id"@, a);
        law_a_column_is_found_by_its_name(table, "src_node_id"@, b);
        law_a_column_is_found_by_its_name(table, "dst_node_id"@, d);
        lemma_properties_read(table, n, row, def.properties, edge.properties);
    }
}

/// A table that holds nodes reads as exactly these nodes, in their order.
pub proof fn law_written_nodes_read_back(
    table: Seq<(String, Column)>,
    def: NodeDefView,
    nodes: Seq<NodeRowView>,
)
    requires
        all_of_length(table, nodes.len()),
        distinct_defs(def.properties),
        is_there(table, "node_id"@),
        forall|r: int|
            0 <= r < nodes.len() ==> stores_node(table, r, def.properties, #[trigger] nodes[r]),
    ensures
        columns::node_rows_of(table, nodes.len(), def) == nodes.map_values(
            |x: NodeRowView| Ok::<NodeRowView, StorageErrorView>(x),
        ),
{
    let found = columns::node_rows_of(table, nodes.len(), def);
    let all = nodes.map_values(|x: NodeRowView| Ok::<NodeRowView, StorageErrorView>(x));
    lemma_is_there(table, "node_id"@);
    assert forall|r: int| 0 <= r < nodes.len() implies found[r] == all[r] by {
        law_a_node_is_read_where_it_is_stored(table, nodes.len(), def, r, nodes[r]);
        assert(stores_node(table, r, def.properties, nodes[r]));
    }
    assert(found =~= all);
}

/// A table that holds edges reads as exactly these edges, in their order.
pub proof fn law_written_edges_read_back(
    table: Seq<(String, Column)>,
    def: EdgeDefView,
    edges: Seq<EdgeRowView>,
)
    requires
        all_of_length(table, edges.len()),
        distinct_defs(def.properties),
        is_there(table, "edge_id"@),
        is_there(table, "src_node_id"@),
        is_there(table, "dst_node_id"@),
        forall|r: int|
            0 <= r < edges.len() ==> stores_edge(table, r, def.properties, #[trigger] edges[r]),
    ensures
        columns::edge_rows_of(table, edges.len(), def) == edges.map_values(
            |x: EdgeRowView| Ok::<EdgeRowView, StorageErrorView>(x),
        ),
{
    let found = columns::edge_rows_of(table, edges.len(), def);
    let all = edges.map_values(|x: EdgeRowView| Ok::<EdgeRowView, StorageErrorView>(x));
    lemma_is_there(table, "edge_id"@);
    lemma_is_there(table, "src_node_id"@);
    lemma_is_there(table, "dst_node_id"@);
    assert forall|r: int| 0 <= r < edges.len() implies found[r] == all[r] by {
        law_an_edge_is_read_where_it_is_stored(table, edges.len(), def, r, edges[r]);
        assert(stores_edge(table, r, def.properties, edges[r]));
    }
    assert(found =~= all);
}

/// A table without a column of ids is one error.
pub proof fn law_a_table_without_ids_is_an_error(
    table: Seq<(String, Column)>,
    n: nat,
    nodes: NodeDefView,
    edges: EdgeDefView,
)
    ensures
        !is_there(table, "node_id"@) ==> columns::node_rows_of(table, n, nodes).len() == 1
            && columns::node_rows_of(table, n, nodes)[0] is Err,
        !is_there(table, "edge_id"@) || !is_there(table, "src_node_id"@) || !is_there(
            table,
            "dst_node_id"@,
        ) ==> columns::edge_rows_of(table, n, edges).len() == 1 && columns::edge_rows_of(
            table,
            n,
            edges,
        )[0] is Err,
{
    lemma_is_there(table, "node_id"@);
    lemma_is_there(table, "edge_id"@);
    lemma_is_there(table, "src_node_id"@);
    lemma_is_there(table, "dst_node_id"@);
}

} // verus!
