//! The indexes of a partition.
use graph_engine::index::builder::{
    add_edge_rows, add_node_rows, IcebergIndexBuilder, RebuildError, Scan, ScannedEdge,
    ScannedNode,
};
use graph_engine::index::generation::GenerationHandle;
use graph_engine::index::{IndexGeneration, KeyBound, PartitionId, PropertyKey};
use graph_engine::maps::NamedMap;
use graph_engine::schema::parser::{PestSchemaParser, SchemaParser};
use graph_engine::schema::partitioning::partition_of;
use graph_engine::schema::{EdgeId, EdgeType, Label, NodeId, Schema};
use graph_engine::storage::{EdgeRow, NodeRow, PropertyValue, StorageError};

fn small_social_schema() -> Schema {
    PestSchemaParser
        .parse(
            r#"
            schema graph_v1 {
              node Person {
                id: NodeId
                @indexed name: String
                @indexed birth_year: Int64?
              }
              edge KNOWS {
                from: Person
                to: Person
              }
            }
            "#,
        )
        .expect("valid IDL")
}

fn node(id: u64, name: &str, birth_year: i64) -> ScannedNode {
    let mut properties = NamedMap::new();
    properties.insert("name".to_string(), PropertyValue::String(name.to_string()));
    properties.insert("birth_year".to_string(), PropertyValue::Int64(birth_year));
    ScannedNode {
        label: Label("Person".to_string()),
        row: NodeRow {
            id: NodeId(id),
            properties,
        },
    }
}

fn edge(id: u64, src: u64, dst: u64) -> ScannedEdge {
    ScannedEdge {
        edge_type: EdgeType("KNOWS".to_string()),
        row: EdgeRow {
            id: EdgeId(id),
            src: NodeId(src),
            dst: NodeId(dst),
            properties: NamedMap::new(),
        },
    }
}

fn build(
    partition: u32,
    n_partitions: u32,
    nodes: Vec<ScannedNode>,
    edges: Vec<ScannedEdge>,
) -> IndexGeneration {
    let builder = IcebergIndexBuilder::new((), small_social_schema(), n_partitions);
    builder.build(
        PartitionId(partition),
        Scan {
            nodes,
            edges,
            snapshot_by_table: NamedMap::new(),
            built_at_unix_ms: 17,
        },
    )
}

/// Alice -> Bob -> Carol, and Alice -> Carol directly.
fn build_test_generation() -> IndexGeneration {
    build(
        0,
        1,
        vec![
            node(1, "Alice", 1985),
            node(2, "Bob", 1990),
            node(3, "Carol", 1995),
        ],
        vec![edge(100, 1, 2), edge(101, 2, 3), edge(102, 1, 3)],
    )
}

#[test]
fn topological_index_out_neighbors_are_correct() {
    let gen = build_test_generation();

    let alice_out: Vec<NodeId> = gen
        .topology
        .out_neighbors(NodeId(1))
        .iter()
        .map(|e| e.dst_local.unwrap())
        .collect();
    assert_eq!(alice_out.len(), 2);
    assert!(alice_out.contains(&NodeId(2)));
    assert!(alice_out.contains(&NodeId(3)));

    let carol_out = gen.topology.out_neighbors(NodeId(3));
    assert!(carol_out.is_empty());
}

#[test]
fn topological_index_in_neighbors_are_correct() {
    let gen = build_test_generation();

    let carol_in: Vec<NodeId> = gen
        .topology
        .in_neighbors(NodeId(3))
        .iter()
        .map(|e| e.dst_local.unwrap())
        .collect();
    assert_eq!(carol_in.len(), 2);
    assert!(carol_in.contains(&NodeId(2)));
    assert!(carol_in.contains(&NodeId(1)));

    let alice_in = gen.topology.in_neighbors(NodeId(1));
    assert!(alice_in.is_empty());
}

#[test]
fn no_adjacency_entry_is_ever_remote_when_mono_partition() {
    let gen = build_test_generation();
    assert_eq!(gen.topology.node_ids().len(), 3);
    for node in gen.topology.node_ids() {
        for entry in gen.topology.out_neighbors(*node) {
            assert!(entry.dst_remote.is_none());
        }
    }
}

/// An id of partition 0 and one of another partition.
fn local_and_remote(n_partitions: u32) -> (u64, u64) {
    let mut local_id = None;
    let mut remote_id = None;
    for candidate in 1..10_000u64 {
        let p = partition_of(NodeId(candidate), n_partitions);
        if p == 0 && local_id.is_none() {
            local_id = Some(candidate);
        } else if p != 0 && remote_id.is_none() {
            remote_id = Some(candidate);
        }
        if local_id.is_some() && remote_id.is_some() {
            break;
        }
    }
    (
        local_id.expect("found an id hashing to partition 0"),
        remote_id.expect("found an id hashing to a non-zero partition"),
    )
}

#[test]
fn remote_edges_are_flagged_as_remote_ref_across_partitions() {
    let n_partitions = 4u32;
    let (local_id, remote_id) = local_and_remote(n_partitions);
    let gen = build(
        0,
        n_partitions,
        vec![node(local_id, "Alice", 1985), node(remote_id, "Bob", 1990)],
        vec![edge(100, local_id, remote_id)],
    );

    assert!(gen.topology.contains(NodeId(local_id)));
    assert!(!gen.topology.contains(NodeId(remote_id)));

    let out = gen.topology.out_neighbors(NodeId(local_id));
    assert_eq!(out.len(), 1);
    assert!(out[0].dst_local.is_none());
    let remote = out[0].dst_remote.expect("Bob should be a RemoteRef");
    assert_eq!(remote.node, NodeId(remote_id));
    assert_eq!(
        remote.partition,
        PartitionId(partition_of(NodeId(remote_id), n_partitions))
    );
    assert_ne!(remote.partition, PartitionId(0));
}

#[test]
fn property_index_lookup_eq_is_correct() {
    let gen = build_test_generation();
    let ids = gen
        .properties
        .lookup_eq("Person", "name", &PropertyKey::String("Bob".to_string()));
    assert_eq!(ids, &[NodeId(2)]);

    let none = gen
        .properties
        .lookup_eq("Person", "name", &PropertyKey::String("Zed".to_string()));
    assert!(none.is_empty());
}

#[test]
fn property_index_lookup_range_is_correct() {
    let gen = build_test_generation();

    let born_after_1985: Vec<NodeId> = gen.properties.lookup_range(
        "Person",
        "birth_year",
        (
            KeyBound::Excluded(PropertyKey::Int64(1985)),
            KeyBound::Unbounded,
        ),
    );
    let mut born_after_1985 = born_after_1985;
    born_after_1985.sort();
    assert_eq!(born_after_1985, vec![NodeId(2), NodeId(3)]);

    let born_1990_or_before: Vec<NodeId> = gen.properties.lookup_range(
        "Person",
        "birth_year",
        (
            KeyBound::Unbounded,
            KeyBound::Included(PropertyKey::Int64(1990)),
        ),
    );
    let mut born_1990_or_before = born_1990_or_before;
    born_1990_or_before.sort();
    assert_eq!(born_1990_or_before, vec![NodeId(1), NodeId(2)]);
}

#[test]
fn node_records_hold_the_full_property_set_per_id() {
    let gen = build_test_generation();

    let bob = gen.node_records.get(2).expect("Bob was scanned");
    assert_eq!(bob.label.0, "Person");
    assert_eq!(
        bob.properties.get("name"),
        Some(&PropertyValue::String("Bob".to_string()))
    );
    assert_eq!(
        bob.properties.get("birth_year"),
        Some(&PropertyValue::Int64(1990))
    );

    assert!(gen.node_records.get(999).is_none());
}

#[test]
fn edge_records_hold_the_full_property_set_per_locally_owned_edge() {
    let mut alice_knows_bob = edge(100, 1, 2);
    alice_knows_bob
        .row
        .properties
        .insert("since".to_string(), PropertyValue::Int64(2020));
    let gen = build(
        0,
        1,
        vec![node(1, "Alice", 1985), node(2, "Bob", 1990)],
        vec![alice_knows_bob],
    );

    let record = gen
        .edge_records
        .get(100)
        .expect("edge 100 should have a record");
    assert_eq!(record.edge_type.0, "KNOWS");
    assert_eq!(
        record.properties.get("since"),
        Some(&PropertyValue::Int64(2020))
    );

    assert!(gen.edge_records.get(999).is_none());
}

#[test]
fn edge_records_follow_the_source_nodes_partition() {
    let n_partitions = 4u32;
    let (local_id, remote_id) = local_and_remote(n_partitions);
    let nodes = || vec![node(local_id, "Alice", 1985), node(remote_id, "Bob", 1990)];
    let edges = || vec![edge(100, remote_id, local_id)];
    let gen = build(0, n_partitions, nodes(), edges());
    assert!(gen.edge_records.get(100).is_none());

    let owner = partition_of(NodeId(remote_id), n_partitions);
    let other = build(owner, n_partitions, nodes(), edges());
    assert!(other.edge_records.get(100).is_some());
}

#[test]
fn generation_handle_swap_does_not_disturb_an_in_flight_acquire() {
    let handle = GenerationHandle::new(build_test_generation());

    let held = handle.acquire();
    assert_eq!(held.meta.node_count, 3);

    let mut new_generation = build(0, 1, Vec::new(), Vec::new());
    new_generation.meta.node_count = 999;
    new_generation.meta.edge_count = 999;
    handle.swap(new_generation);

    // What a query already holds stays as it was...
    assert_eq!(held.meta.node_count, 3);
    // ...while a fresh acquire sees the swapped-in one.
    assert_eq!(handle.acquire().meta.node_count, 999);
}

/// The meta data tell of the nodes of the partition, and of all edges that
/// were scanned.
#[test]
fn meta_data_count_what_was_scanned() {
    let gen = build_test_generation();
    assert_eq!(gen.meta.partition, PartitionId(0));
    assert_eq!(gen.meta.built_at_unix_ms, 17);
    assert_eq!(gen.meta.node_count, 3);
    assert_eq!(gen.meta.edge_count, 3);

    let n = 3u32;
    let mut total = 0;
    for p in 0..n {
        let part = build(
            p,
            n,
            (1..=50).map(|i| node(i, "x", 1)).collect(),
            vec![edge(100, 1, 2)],
        );
        total += part.meta.node_count;
        assert_eq!(part.meta.edge_count, 1);
    }
    assert_eq!(total, 50);
}

/// Values that no key stands for are not indexed.
#[test]
fn values_without_a_key_are_not_indexed() {
    let mut odd = node(1, "Alice", 1985);
    odd.row
        .properties
        .insert("birth_year".to_string(), PropertyValue::Null);
    let gen = build(0, 1, vec![odd, node(2, "Bob", 1990)], Vec::new());
    let all = gen.properties.lookup_range(
        "Person",
        "birth_year",
        (KeyBound::Unbounded, KeyBound::Unbounded),
    );
    assert_eq!(all, vec![NodeId(2)]);
}

/// A row that could not be read ends a scan.
#[test]
fn a_row_that_cannot_be_read_fails_the_scan() {
    let mut nodes = Vec::new();
    let label = Label("Person".to_string());
    let ok = add_node_rows(&mut nodes, &label, vec![Ok(node(1, "Alice", 1985).row)]);
    assert!(ok.is_ok());
    assert_eq!(nodes.len(), 1);
    let err = add_node_rows(
        &mut nodes,
        &label,
        vec![Err(StorageError::NonConformingRow("bad".to_string()))],
    )
    .unwrap_err();
    assert_eq!(
        err.message(),
        "storage error while rebuilding index: row does not conform to schema: bad"
    );
    let mut edges = Vec::new();
    let err = add_edge_rows(
        &mut edges,
        &EdgeType("KNOWS".to_string()),
        vec![Err(StorageError::Backend("gone".to_string()))],
    )
    .unwrap_err();
    assert_eq!(
        err,
        RebuildError::Storage(StorageError::Backend("gone".to_string()))
    );
}

/// An edge to a node that this partition should hold and does not is left out.
#[test]
fn edges_that_lead_nowhere_are_left_out() {
    let g = build(0, 1, vec![node(1, "Alice", 1970)], vec![edge(100, 1, 2), edge(101, 2, 1)]);
    assert!(g.topology.out_neighbors(NodeId(1)).is_empty());
    assert!(g.topology.in_neighbors(NodeId(1)).is_empty());
    let g = build(0, 1, vec![node(1, "Alice", 1970)], vec![edge(100, 1, 1)]);
    let entries = g.topology.out_neighbors(NodeId(1));
    assert_eq!(entries.len(), 1);
    assert_eq!(entries[0].dst_local, Some(NodeId(1)));
    assert!(entries[0].dst_remote.is_none());
}
