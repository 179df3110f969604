//! Rows of the durable store.
use graph_engine::schema::parser::{PestSchemaParser, SchemaParser};
use graph_engine::schema::{EdgeId, EdgeType, Label, NodeId, ScalarType, Schema};
use graph_engine::storage::columns::{
    batch_to_edge_rows, batch_to_node_rows, read_property_value, Batch, Column, Slot,
};
use graph_engine::storage::{
    edge_table_name, node_table_name, EdgeRow, NodeRow, PropertyValue, StorageError,
};

fn some<T>(value: T) -> Slot<T> {
    Slot { valid: true, value }
}

fn none<T>(value: T) -> Slot<T> {
    Slot {
        valid: false,
        value,
    }
}

#[test]
fn reads_each_scalar_variant() {
    let int_array = Column::Int64(vec![some(42), none(0)]);
    assert!(matches!(
        read_property_value(&int_array, 0, &ScalarType::Int64).unwrap(),
        PropertyValue::Int64(42)
    ));
    assert!(matches!(
        read_property_value(&int_array, 1, &ScalarType::Int64).unwrap(),
        PropertyValue::Null
    ));

    let float_array = Column::Float64(vec![some(1.5f64.to_bits())]);
    assert!(matches!(
        read_property_value(&float_array, 0, &ScalarType::Float64).unwrap(),
        PropertyValue::Float64(v) if f64::from_bits(v) == 1.5
    ));

    let bool_array = Column::Bool(vec![some(true)]);
    assert!(matches!(
        read_property_value(&bool_array, 0, &ScalarType::Bool).unwrap(),
        PropertyValue::Bool(true)
    ));

    let string_array = Column::String(vec![some("Alice".to_string())]);
    match read_property_value(&string_array, 0, &ScalarType::String).unwrap() {
        PropertyValue::String(s) => assert_eq!(s, "Alice"),
        other => panic!("expected String, got {other:?}"),
    }

    let ts_array = Column::Timestamp(vec![some(1_700_000_000)]);
    assert!(matches!(
        read_property_value(&ts_array, 0, &ScalarType::Timestamp).unwrap(),
        PropertyValue::Timestamp(1_700_000_000)
    ));

    let bytes_array = Column::Bytes(vec![some(b"abc".to_vec())]);
    match read_property_value(&bytes_array, 0, &ScalarType::Bytes).unwrap() {
        PropertyValue::Bytes(b) => assert_eq!(b, b"abc"),
        other => panic!("expected Bytes, got {other:?}"),
    }
}

#[test]
fn reads_a_list_of_strings() {
    let list_array = Column::List(vec![some(Column::Int64(vec![some(1), some(2), some(3)]))]);

    match read_property_value(
        &list_array,
        0,
        &ScalarType::List(Box::new(ScalarType::Int64)),
    )
    .unwrap()
    {
        PropertyValue::List(items) => {
            assert_eq!(items.len(), 3);
            assert!(matches!(items[0], PropertyValue::Int64(1)));
        }
        other => panic!("expected List, got {other:?}"),
    }
}

#[test]
fn a_type_mismatch_is_a_non_conforming_row() {
    let int_array = Column::Int64(vec![some(42)]);
    let err = read_property_value(&int_array, 0, &ScalarType::String).unwrap_err();
    assert!(matches!(err, StorageError::NonConformingRow(_)));
    assert_eq!(
        err.message(),
        "row does not conform to schema: column declared as String does not have the matching Arrow array type"
    );
}

fn person_graph_schema() -> Schema {
    PestSchemaParser
        .parse(
            r#"
            schema graph_v1 {
              node Person {
                id: NodeId
                name: String
                age: Int64?
              }
              edge KNOWS {
                from: Person
                to: Person
                since: Int64?
              }
            }
            "#,
        )
        .expect("valid IDL")
}

/// Alice has an age; Bob's is null.
#[test]
fn scan_nodes_reads_back_a_written_table() {
    let schema = person_graph_schema();
    let batch = Batch {
        columns: vec![
            ("node_id".to_string(), Column::Int64(vec![some(1), some(2)])),
            (
                "name".to_string(),
                Column::String(vec![some("Alice".to_string()), some("Bob".to_string())]),
            ),
            ("age".to_string(), Column::Int64(vec![some(30), none(0)])),
        ],
        num_rows: 2,
    };
    let def = schema.node_def(&Label("Person".to_string())).unwrap();
    let rows: Vec<NodeRow> = batch_to_node_rows(Ok(batch), def)
        .into_iter()
        .map(|r| r.expect("every row should deserialize"))
        .collect();

    assert_eq!(rows.len(), 2);

    let alice = rows
        .iter()
        .find(|r| r.id == NodeId(1))
        .expect("Alice's row");
    assert!(matches!(
        alice.properties.get("name"),
        Some(PropertyValue::String(s)) if s == "Alice"
    ));
    assert!(matches!(
        alice.properties.get("age"),
        Some(PropertyValue::Int64(30))
    ));

    let bob = rows.iter().find(|r| r.id == NodeId(2)).expect("Bob's row");
    assert!(matches!(
        bob.properties.get("age"),
        Some(PropertyValue::Null)
    ));
}

#[test]
fn scan_edges_reads_back_a_written_table() {
    let schema = person_graph_schema();
    let batch = Batch {
        columns: vec![
            ("edge_id".to_string(), Column::Int64(vec![some(100)])),
            ("src_node_id".to_string(), Column::Int64(vec![some(1)])),
            ("dst_node_id".to_string(), Column::Int64(vec![some(2)])),
            ("since".to_string(), Column::Int64(vec![some(2020)])),
        ],
        num_rows: 1,
    };
    let def = schema.edge_def(&EdgeType("KNOWS".to_string())).unwrap();
    let rows: Vec<EdgeRow> = batch_to_edge_rows(Ok(batch), def)
        .into_iter()
        .map(|r| r.expect("every row should deserialize"))
        .collect();

    assert_eq!(rows.len(), 1);
    let edge = &rows[0];
    assert_eq!(edge.id, EdgeId(100));
    assert_eq!(edge.src, NodeId(1));
    assert_eq!(edge.dst, NodeId(2));
    assert!(matches!(
        edge.properties.get("since"),
        Some(PropertyValue::Int64(2020))
    ));
}

/// Ids are stored as signed numbers and are the same 64 bits.
#[test]
fn ids_above_the_signed_range_are_read_back() {
    let schema = PestSchemaParser
        .parse("schema s { node A { id: NodeId } }")
        .unwrap();
    let id = u64::MAX - 4;
    let batch = Batch {
        columns: vec![("node_id".to_string(), Column::Int64(vec![some(id as i64)]))],
        num_rows: 1,
    };
    let rows = batch_to_node_rows(Ok(batch), schema.node_def(&Label("A".to_string())).unwrap());
    assert_eq!(rows[0].as_ref().unwrap().id, NodeId(id));
}

#[test]
fn a_batch_that_cannot_be_used_is_an_error() {
    let schema = person_graph_schema();
    let def = schema.node_def(&Label("Person".to_string())).unwrap();
    let failed = batch_to_node_rows(Err("disk".to_string()), def);
    assert_eq!(failed.len(), 1);
    assert_eq!(
        failed[0].as_ref().unwrap_err(),
        &StorageError::Backend("disk".to_string())
    );
    let without_id = Batch {
        columns: vec![(
            "name".to_string(),
            Column::String(vec![some("Alice".to_string())]),
        )],
        num_rows: 1,
    };
    let rows = batch_to_node_rows(Ok(without_id), def);
    assert!(matches!(
        rows[0].as_ref().unwrap_err(),
        StorageError::NonConformingRow(_)
    ));
}

/// Tables are named in lower case.
#[test]
fn tables_are_named_in_lower_case() {
    assert_eq!(node_table_name(&Label("Person".to_string())), "nodes_person");
    assert_eq!(
        node_table_name(&Label("CloudAccount".to_string())),
        "nodes_cloudaccount"
    );
    assert_eq!(
        edge_table_name(&EdgeType("WORKS_AT".to_string())),
        "edges_works_at"
    );
}

#[test]
fn storage_errors_are_worded() {
    assert_eq!(
        StorageError::TableNotFound("nodes_x".to_string()).message(),
        "table not found for nodes_x"
    );
    assert_eq!(
        StorageError::SnapshotResolution("none".to_string()).message(),
        "snapshot resolution failed: none"
    );
    assert_eq!(
        StorageError::Backend("io".to_string()).message(),
        "underlying Iceberg/object-store error: io"
    );
}
