//! The coordinator and the partition nodes, with every request going over
//! the wire types.
use graph_engine::cluster::discovery::{Discovery, DiscoveryError, StaticDiscovery};
use graph_engine::cluster::{PartitionMap, ReplicaEndpoint, ReplicaId};
use graph_engine::coordinator::config::{Config, ConfigError, DiscoveryMode, Environment};
use graph_engine::coordinator::grpc_partition_rpc::{
    make_all_request, make_anti_request, make_hop_request, make_start_request, read_edges,
    read_nodes, received_frontier,
};
use graph_engine::coordinator::ordering::{limit_rows, sort_bindings_by_property};
use graph_engine::coordinator::projection::QueryResult;
use graph_engine::coordinator::service::{
    hop_count, read_query, status_target, GraphServiceImpl, QueryFailure, Stage,
};
use graph_engine::dsl::floats::{bind_floats, float_texts};
use graph_engine::dsl::{OrderBy, PropertyFilter, SortDirection};
use graph_engine::index::builder::{
    IcebergIndexBuilder, RebuildError, Scan, ScannedEdge, ScannedNode,
};
use graph_engine::index::generation::GenerationHandle;
use graph_engine::index::{EdgeRecord, IndexGeneration, NodeRecord, PartitionId, PropertyKey};
use graph_engine::maps::{IdMap, NamedMap};
use graph_engine::partition_node;
use graph_engine::partition_node::rebuild::{
    next_generation, rebuild_metrics, snapshot_age_secs, Gauges, NextGeneration,
};
use graph_engine::partition_node::service::{
    can_expand, ExpandHopRequest, PartitionServiceImpl, ResolveStartRequest,
};
use graph_engine::query::distributed::PartitionRpc;
use graph_engine::query::hydration::Records;
use graph_engine::query::{AntiJoinStep, Binding, ExecutionError, Frontier, PlanStep};
use graph_engine::schema::parser::{PestSchemaParser, SchemaParser};
use graph_engine::schema::partitioning::partition_of;
use graph_engine::schema::{EdgeId, EdgeType, Label, NodeId, Schema};
use graph_engine::storage::{EdgeRow, NodeRow, PropertyValue, SnapshotId, StorageError};
use graph_engine::viewer::{http_status, unreachable_text, viewer_entry, ViewerEntry};
use graph_engine::wire::{
    proto_comparison_op_to_op, proto_filter_to_property_filter, proto_value_to_literal,
    proto_value_to_property_key, Code, FilterMessage, Kind, Status, Value,
};
use std::collections::HashMap;
use std::sync::Arc;

const LEAST_PRIVILEGE: &str = r#"
schema least_privilege {
  node Workload {
    id: NodeId
    @indexed workload_id: String
    kind: String
    cloud_account: String
    env: String
    service: String?
    team: String?
    observed_since: Timestamp
  }

  node IAMRole {
    id: NodeId
    @indexed arn: String
    cloud_account: String
    trust_principals: List<String>
  }

  node DataStore {
    id: NodeId
    @indexed arn: String
    kind: String
    @indexed data_class: String
  }

  // Declared access.
  edge ASSUMES {
    from: Workload
    to: IAMRole
  }

  edge GRANTS {
    from: IAMRole
    to: DataStore
    action: String
  }

  // Observed access.
  edge RAN_AS {
    from: Workload
    to: IAMRole
    last_seen: Timestamp
  }

  edge ACCESSED {
    from: Workload
    to: DataStore
    action: String
    last_seen: Timestamp
  }
}
"#;

const SOCIAL: &str = r#"
schema graph_v1 {
  node Person {
    id: NodeId
    @indexed name: String
    @indexed birth_year: Int64
  }
  edge KNOWS {
    from: Person
    to: Person
  }
}
"#;

type Fields<'a> = Vec<(&'a str, PropertyValue)>;

fn text(s: &str) -> PropertyValue {
    PropertyValue::String(s.to_string())
}

fn fields(of: Fields) -> NamedMap<PropertyValue> {
    let mut properties = NamedMap::new();
    for (name, value) in of {
        properties.insert(name.to_string(), value);
    }
    properties
}

fn node(label: &str, id: u64, of: Fields) -> ScannedNode {
    ScannedNode {
        label: Label(label.to_string()),
        row: NodeRow {
            id: NodeId(id),
            properties: fields(of),
        },
    }
}

fn edge(edge_type: &str, id: u64, src: u64, dst: u64, of: Fields) -> ScannedEdge {
    ScannedEdge {
        edge_type: EdgeType(edge_type.to_string()),
        row: EdgeRow {
            id: EdgeId(id),
            src: NodeId(src),
            dst: NodeId(dst),
            properties: fields(of),
        },
    }
}

fn build(
    idl: &str,
    partition: u32,
    n_partitions: u32,
    nodes: &[ScannedNode],
    edges: &[ScannedEdge],
) -> IndexGeneration {
    let mut snapshot_by_table = NamedMap::new();
    snapshot_by_table.insert("nodes_x".to_string(), SnapshotId(77));
    IcebergIndexBuilder::new((), schema(idl), n_partitions).build(
        PartitionId(partition),
        Scan {
            nodes: nodes.to_vec(),
            edges: edges.to_vec(),
            snapshot_by_table,
            built_at_unix_ms: 1_000,
        },
    )
}

fn schema(idl: &str) -> Schema {
    PestSchemaParser.parse(idl).expect("valid IDL")
}

/// Reaches partition nodes by their address, in one process.
struct WireRpc {
    nodes: HashMap<String, PartitionServiceImpl>,
}

impl WireRpc {
    fn at(&self, replica: &ReplicaEndpoint) -> Result<&PartitionServiceImpl, ExecutionError> {
        self.nodes.get(&replica.address).ok_or_else(|| {
            ExecutionError::Rpc(format!("failed to connect to replica {}", replica.address))
        })
    }
}

fn failed(status: Status) -> ExecutionError {
    ExecutionError::Rpc(status.message)
}

impl PartitionRpc for WireRpc {
    fn resolve_start(
        &self,
        replica: &ReplicaEndpoint,
        step: &PlanStep,
    ) -> Result<Vec<Binding>, ExecutionError> {
        let request = make_start_request(step)?;
        self.at(replica)?.resolve_start(request).map_err(failed)
    }

    fn resolve_all(
        &self,
        replica: &ReplicaEndpoint,
        step: &PlanStep,
    ) -> Result<Vec<Binding>, ExecutionError> {
        let request = make_all_request(step)?;
        self.at(replica)?.resolve_all(request).map_err(failed)
    }

    fn expand_hop(
        &self,
        replica: &ReplicaEndpoint,
        step: &PlanStep,
        frontier: &Vec<Binding>,
    ) -> Result<Frontier, ExecutionError> {
        let request = make_hop_request(step, frontier)?;
        assert!(can_expand(&request));
        let rows = self.at(replica)?.expand_hop(request).map_err(failed)?;
        Ok(received_frontier(rows))
    }

    fn check_anti_join(
        &self,
        replica: &ReplicaEndpoint,
        step: &AntiJoinStep,
        conditions: &Vec<PropertyFilter>,
        frontier: &Vec<Binding>,
    ) -> Result<Vec<Binding>, ExecutionError> {
        let request = make_anti_request(step, conditions, frontier);
        self.at(replica)?.check_anti_join(request).map_err(failed)
    }

    fn get_node_properties(
        &self,
        replica: &ReplicaEndpoint,
        ids: &Vec<NodeId>,
    ) -> Result<Vec<(NodeId, NodeRecord)>, ExecutionError> {
        let ids: Vec<u64> = ids.iter().map(|id| id.0).collect();
        Ok(read_nodes(&self.at(replica)?.get_node_properties(&ids)))
    }

    fn get_edge_properties(
        &self,
        replica: &ReplicaEndpoint,
        ids: &Vec<EdgeId>,
    ) -> Result<Vec<(EdgeId, EdgeRecord)>, ExecutionError> {
        let ids: Vec<u64> = ids.iter().map(|id| id.0).collect();
        Ok(read_edges(&self.at(replica)?.get_edge_properties(&ids)))
    }
}

fn start(
    idl: &str,
    n_partitions: u32,
    nodes: &[ScannedNode],
    edges: &[ScannedEdge],
) -> (GraphServiceImpl<WireRpc>, Result<PartitionMap, DiscoveryError>) {
    let mut services = HashMap::new();
    let mut addrs = Vec::new();
    for p in 0..n_partitions {
        let address = format!("127.0.0.1:{}", 18911 + p);
        let generation = build(idl, p, n_partitions, nodes, edges);
        services.insert(
            address.clone(),
            PartitionServiceImpl::new(
                Arc::new(GenerationHandle::new(generation)),
                PartitionId(p),
            ),
        );
        addrs.push((p, address));
    }
    let discovery = StaticDiscovery::single_replica_per_partition(addrs);
    (
        GraphServiceImpl::new(
            schema(idl),
            idl.to_string(),
            WireRpc { nodes: services },
            n_partitions,
        ),
        discovery.current_map(),
    )
}

fn execute_query(
    service: &GraphServiceImpl<WireRpc>,
    discovered: &Result<PartitionMap, DiscoveryError>,
    dsl: &str,
) -> Result<Vec<QueryResult>, QueryFailure> {
    let query = read_query(dsl)?;
    let mut doubles = NamedMap::new();
    for t in float_texts(&query) {
        let bits = t.parse::<f64>().expect("a number").to_bits();
        doubles.insert(t, bits);
    }
    let query = bind_floats(query, &doubles);
    assert!(service.can_prepare(&query));
    let prepared = service.prepare(&query)?;
    service.answer(&prepared, discovered)
}

fn string_at(row: &QueryResult, name: &str) -> String {
    match row.projection.get(name).and_then(|v| v.kind.clone()) {
        Some(Kind::StringValue(s)) => s,
        other => panic!("expected a StringValue projection, got {other:?}"),
    }
}

const N_PARTITIONS: u32 = 2;
const ROLE_ID: u64 = 1;
const STORE_ID: u64 = 2;
const W_USED: u64 = 10;
const W_NEVER: u64 = 11;
const W_WRONG_ACTION: u64 = 12;
const W_STALE: u64 = 13;

fn ts(rfc3339: &str) -> i64 {
    chrono::DateTime::parse_from_rfc3339(rfc3339)
        .expect("valid RFC3339 literal")
        .timestamp_micros()
}

fn least_privilege() -> (Vec<ScannedNode>, Vec<ScannedEdge>) {
    let mut nodes = vec![
        node(
            "IAMRole",
            ROLE_ID,
            vec![
                ("arn", text("arn:aws:iam::111111111111:role/prod-role")),
                ("cloud_account", text("111111111111")),
                ("trust_principals", PropertyValue::List(vec![text("prod-role")])),
            ],
        ),
        node(
            "DataStore",
            STORE_ID,
            vec![
                ("arn", text("arn:aws:s3:::prod-bucket")),
                ("kind", text("s3")),
                ("data_class", text("sensitive")),
            ],
        ),
    ];
    let mut edges = vec![edge(
        "GRANTS",
        300,
        ROLE_ID,
        STORE_ID,
        vec![("action", text("s3:GetObject"))],
    )];
    for (i, (id, name)) in [
        (W_USED, "used"),
        (W_NEVER, "never"),
        (W_WRONG_ACTION, "wrong-action"),
        (W_STALE, "stale"),
    ]
    .into_iter()
    .enumerate()
    {
        nodes.push(node(
            "Workload",
            id,
            vec![
                ("workload_id", text(name)),
                ("kind", text("pod")),
                ("cloud_account", text("111111111111")),
                ("env", text("prod")),
                ("service", text("checkout")),
                ("team", text("team-checkout")),
                (
                    "observed_since",
                    PropertyValue::Timestamp(ts("2024-01-01T00:00:00Z")),
                ),
            ],
        ));
        edges.push(edge("ASSUMES", 200 + i as u64, id, ROLE_ID, Vec::new()));
        edges.push(edge(
            "RAN_AS",
            250 + i as u64,
            id,
            ROLE_ID,
            vec![(
                "last_seen",
                PropertyValue::Timestamp(ts("2024-06-01T00:00:00Z")),
            )],
        ));
    }
    for (id, workload, action, last_seen) in [
        (400, W_USED, "s3:GetObject", "2024-07-01T00:00:00Z"),
        (401, W_WRONG_ACTION, "s3:PutObject", "2024-07-01T00:00:00Z"),
        (402, W_STALE, "s3:GetObject", "2024-02-01T00:00:00Z"),
    ] {
        edges.push(edge(
            "ACCESSED",
            id,
            workload,
            STORE_ID,
            vec![
                ("action", text(action)),
                ("last_seen", PropertyValue::Timestamp(ts(last_seen))),
            ],
        ));
    }
    (nodes, edges)
}

/// Of what a role grants, what its workloads do not use.
#[test]
fn least_privilege_query_surfaces_exactly_the_unused_permissions() {
    let by_partition: Vec<u32> = [W_USED, W_NEVER, W_WRONG_ACTION, W_STALE]
        .iter()
        .map(|&id| partition_of(NodeId(id), N_PARTITIONS))
        .collect();
    assert!(
        by_partition.iter().any(|&p| p == 0) && by_partition.iter().any(|&p| p == 1),
        "fixture ids must spread across both partitions, got {by_partition:?}"
    );

    let (nodes, edges) = least_privilege();
    let (service, discovered) = start(LEAST_PRIVILEGE, N_PARTITIONS, &nodes, &edges);
    let results = execute_query(
        &service,
        &discovered,
        r#"
        MATCH (w:Workload)-[:ASSUMES]->(r:IAMRole)-[g:GRANTS]->(d:DataStore)
        WHERE d.data_class = "sensitive"
          AND NOT EXISTS {
            MATCH (w)-[a:ACCESSED]->(d)
            WHERE a.action = g.action AND a.last_seen >= "2024-05-01T00:00:00Z"
          }
        RETURN w.workload_id, w.team, r.arn, g.action, d.arn
        "#,
    )
    .expect("execute_query should succeed");

    let mut unused: Vec<String> = results
        .iter()
        .map(|r| string_at(r, "w.workload_id"))
        .collect();
    unused.sort();
    assert_eq!(
        unused,
        vec![
            "never".to_string(),
            "stale".to_string(),
            "wrong-action".to_string()
        ],
        "the used workload must be excluded by NOT EXISTS, the other three must be findings"
    );

    for row in &results {
        assert_eq!(string_at(row, "d.arn"), "arn:aws:s3:::prod-bucket");
        assert_eq!(string_at(row, "g.action"), "s3:GetObject");
    }
}

fn people() -> (Vec<ScannedNode>, Vec<ScannedEdge>) {
    let person = |id: u64, name: &str, year: i64| {
        node(
            "Person",
            id,
            vec![
                ("name", text(name)),
                ("birth_year", PropertyValue::Int64(year)),
            ],
        )
    };
    (
        vec![
            person(1, "Alice", 1970),
            person(2, "Bob", 1990),
            person(3, "Carol", 1995),
            person(4, "Dave", 2000),
            person(5, "Erin", 2005),
        ],
        vec![
            edge("KNOWS", 100, 1, 2, Vec::new()),
            edge("KNOWS", 101, 2, 3, Vec::new()),
            edge("KNOWS", 102, 3, 4, Vec::new()),
            edge("KNOWS", 103, 4, 5, Vec::new()),
        ],
    )
}

/// Three hops from Alice are Bob, Carol and Dave; the youngest two come
/// first.
#[test]
fn order_by_desc_and_limit_are_applied_over_real_grpc() {
    let (nodes, edges) = people();
    let (service, discovered) = start(SOCIAL, 1, &nodes, &edges);
    let results = execute_query(
        &service,
        &discovered,
        r#"
        MATCH (p:Person {name: "Alice"})-[:KNOWS*1..3]->(friend:Person)
        RETURN friend.name
        ORDER BY friend.birth_year DESC
        LIMIT 2
        "#,
    )
    .expect("execute_query should succeed");

    assert_eq!(
        results.len(),
        2,
        "LIMIT 2 should cap the result set at 2 rows"
    );
    let names: Vec<String> = results.iter().map(|r| string_at(r, "friend.name")).collect();
    assert_eq!(
        names,
        vec!["Dave".to_string(), "Carol".to_string()],
        "ORDER BY birth_year DESC should put the youngest-in-id (latest birth_year) friends first"
    );
}

#[test]
fn ascending_order_and_no_limit() {
    let (nodes, edges) = people();
    let (service, discovered) = start(SOCIAL, 3, &nodes, &edges);
    let names = |dsl: &str| -> Vec<String> {
        execute_query(&service, &discovered, dsl)
            .expect("succeeds")
            .iter()
            .map(|r| string_at(r, "p.name"))
            .collect()
    };
    assert_eq!(
        names("MATCH (p:Person) RETURN p.name ORDER BY p.name"),
        vec!["Alice", "Bob", "Carol", "Dave", "Erin"]
    );
    assert_eq!(
        names("MATCH (p:Person) RETURN p.name ORDER BY p.birth_year DESC LIMIT 1"),
        vec!["Erin"]
    );
    assert!(names("MATCH (p:Person) RETURN p.name LIMIT 0").is_empty());
}

/// A whole node is projected to its id, with its record; an edge too.
#[test]
fn whole_nodes_and_edges_come_with_their_records() {
    let (nodes, edges) = least_privilege();
    let (service, discovered) = start(LEAST_PRIVILEGE, 2, &nodes, &edges);
    let results = execute_query(
        &service,
        &discovered,
        "MATCH (r:IAMRole)-[g:GRANTS]->(d:DataStore) RETURN r, g, d.kind",
    )
    .expect("succeeds");
    assert_eq!(results.len(), 1);
    let row = &results[0];
    assert_eq!(
        row.projection.get("r").unwrap().kind,
        Some(Kind::Int64Value(ROLE_ID as i64))
    );
    assert_eq!(
        row.projection.get("g").unwrap().kind,
        Some(Kind::Int64Value(300))
    );
    assert_eq!(string_at(row, "d.kind"), "s3");
    let role = row.properties.get("r").unwrap();
    assert_eq!(role.label, "IAMRole");
    assert!(role.fields.get("arn").is_some());
    // A list is not sent.
    assert!(role.fields.get("trust_principals").is_none());
    assert!(row.properties.get("g").is_none());
    let grants = row.edge_properties.get("g").unwrap();
    assert_eq!(grants.edge_type, "GRANTS");
    assert_eq!(
        grants.fields.get("action").unwrap().kind,
        Some(Kind::StringValue("s3:GetObject".to_string()))
    );

    match viewer_entry(row, "r") {
        Some(ViewerEntry::Record(record)) => assert_eq!(record.label, "IAMRole"),
        other => panic!("expected a record, got {other:?}"),
    }
    match viewer_entry(row, "d.kind") {
        Some(ViewerEntry::NodeId(value)) => {
            assert_eq!(value.kind, Some(Kind::StringValue("s3".to_string())))
        }
        other => panic!("expected a value, got {other:?}"),
    }
    assert!(viewer_entry(row, "d").is_none());
}

/// Queries that are wrong are refused before any partition is asked.
#[test]
fn wrong_queries_are_refused() {
    let (service, _) = start(SOCIAL, 1, &[], &[]);
    let down: Result<PartitionMap, DiscoveryError> =
        Err(DiscoveryError::KubernetesApi("no route".to_string()));

    let failure = execute_query(&service, &down, "MATCH (p:Person").unwrap_err();
    assert_eq!(failure.stage, Stage::Parse);
    assert_eq!(failure.status.code, Code::InvalidArgument);
    assert!(failure
        .status
        .message
        .starts_with("syntax error: syntax error at position "));

    let failure = execute_query(&service, &down, "MATCH (p:Robot) RETURN p").unwrap_err();
    assert_eq!(failure.stage, Stage::Validate);
    assert_eq!(failure.status.code, Code::InvalidArgument);
    assert_eq!(
        failure.status.message,
        "query failed validation: [UnknownLabel(\"Robot\")]"
    );

    let failure = execute_query(&service, &down, "MATCH (p:Person) RETURN p").unwrap_err();
    assert_eq!(failure.stage, Stage::Discovery);
    assert_eq!(failure.status.code, Code::Unavailable);
    assert_eq!(
        failure.status.message,
        "cluster discovery failed: Kubernetes API error: no route"
    );
}

/// A replica that cannot be reached fails the query.
#[test]
fn a_replica_that_cannot_be_reached_fails_the_query() {
    let (service, _) = start(SOCIAL, 1, &[], &[]);
    let elsewhere = StaticDiscovery::single_replica_per_partition(vec![(
        0,
        "127.0.0.1:1".to_string(),
    )])
    .current_map();
    let failure = execute_query(&service, &elsewhere, "MATCH (p:Person) RETURN p").unwrap_err();
    assert_eq!(failure.stage, Stage::Execute);
    assert_eq!(failure.status.code, Code::Internal);
    assert_eq!(
        failure.status.message,
        "partition RPC failed: failed to connect to replica 127.0.0.1:1"
    );
}

/// Some queries fit the schema and still cannot be planned.
#[test]
fn a_start_without_a_label_cannot_be_prepared() {
    let (service, _) = start(SOCIAL, 1, &[], &[]);
    let query = read_query("MATCH (p) RETURN p").unwrap();
    assert!(!service.can_prepare(&query));
    let query = read_query("MATCH (p:Robot) RETURN p").unwrap();
    assert!(service.can_prepare(&query));
}

#[test]
fn hops_are_counted() {
    let (service, _) = start(SOCIAL, 1, &[], &[]);
    let query =
        read_query("MATCH (p:Person)-[:KNOWS]->(q:Person)<-[:KNOWS*1..4]-(r:Person) RETURN r")
            .unwrap();
    assert_eq!(hop_count(&service.prepare(&query).unwrap().plan), 2);
}

#[test]
fn the_schema_is_told() {
    let (service, _) = start(SOCIAL, 1, &[], &[]);
    let told = service.get_schema();
    assert_eq!(told.schema_idl, SOCIAL);
    assert_eq!(told.version, "graph_v1");
}

/// The status of the cluster is that of its first partition.
#[test]
fn the_first_partition_stands_for_the_cluster() {
    let (_, discovered) = start(SOCIAL, 3, &[], &[]);
    assert_eq!(status_target(&discovered).unwrap().address, "127.0.0.1:18911");

    let empty: Result<PartitionMap, DiscoveryError> = Ok(PartitionMap::default());
    let status = status_target(&empty).unwrap_err();
    assert_eq!(status.code, Code::Unavailable);
    assert_eq!(status.message, "no partitions currently discovered");

    let mut map = PartitionMap::default();
    for (p, healthy) in [(7u32, true), (3, false)] {
        map.insert(
            PartitionId(p),
            vec![ReplicaEndpoint {
                replica: ReplicaId(format!("r{p}")),
                address: "127.0.0.1:1".to_string(),
                healthy,
            }],
        );
    }
    let sick: Result<PartitionMap, DiscoveryError> = Ok(map);
    assert_eq!(
        status_target(&sick).unwrap_err().message,
        "no healthy replica for partition 3"
    );
    let down: Result<PartitionMap, DiscoveryError> =
        Err(DiscoveryError::KubernetesApi("x".to_string()));
    assert_eq!(
        status_target(&down).unwrap_err().message,
        "cluster discovery failed: Kubernetes API error: x"
    );
}

fn service_of(nodes: &[ScannedNode], edges: &[ScannedEdge]) -> PartitionServiceImpl {
    PartitionServiceImpl::new(
        Arc::new(GenerationHandle::new(build(SOCIAL, 0, 1, nodes, edges))),
        PartitionId(0),
    )
}

#[test]
fn a_node_tells_the_status_of_its_index() {
    let (nodes, edges) = people();
    let service = service_of(&nodes, &edges);
    assert_eq!(service.partition(), PartitionId(0));
    let status = service.get_index_status();
    assert_eq!(status.node_count, 5);
    assert_eq!(status.edge_count, 4);
    assert_eq!(status.last_rebuilt_unix_ms, 1_000);
    assert_eq!(
        status.pinned_snapshot_by_table.get("nodes_x"),
        Some(&SnapshotId(77))
    );
}

#[test]
fn unknown_ids_are_passed_over() {
    let (nodes, edges) = people();
    let service = service_of(&nodes, &edges);
    let known = service.get_node_properties(&vec![2, 99, 4]);
    assert_eq!(known.iter().map(|p| p.0).collect::<Vec<_>>(), vec![2, 4]);
    assert_eq!(known[0].1.label, "Person");
    assert_eq!(service.get_edge_properties(&vec![1, 103]).len(), 1);
}

#[test]
fn requests_that_are_wrong_are_refused() {
    let service = service_of(&[], &[]);
    let request = |key: Option<Value>| ResolveStartRequest {
        alias: "p".to_string(),
        label_or_type: "Person".to_string(),
        property: "name".to_string(),
        key,
    };
    let refused = |key: Option<Value>| {
        let status = service.resolve_start(request(key)).unwrap_err();
        assert_eq!(status.code, Code::InvalidArgument);
        status.message
    };
    assert_eq!(refused(None), "missing key");
    assert_eq!(refused(Some(Value { kind: None })), "missing Value.kind");
    assert_eq!(
        refused(Some(Value {
            kind: Some(Kind::BytesValue(vec![1]))
        })),
        "PropertyIndex has no key variant for float/bytes values"
    );
    assert!(service
        .resolve_start(request(Some(Value {
            kind: Some(Kind::StringValue("x".to_string()))
        })))
        .unwrap()
        .is_empty());

    let hop = |filter: FilterMessage| ExpandHopRequest {
        frontier: Vec::new(),
        from_alias: "p".to_string(),
        to_alias: "q".to_string(),
        to_label: "Person".to_string(),
        edge_type: String::new(),
        edge_alias: String::new(),
        incoming: false,
        hop_min: 1,
        hop_max: 1,
        filters: vec![filter],
    };
    let filter = |op: i32, value: Option<Kind>| FilterMessage {
        property: "name".to_string(),
        op,
        value: value.map(|k| Value { kind: Some(k) }),
    };
    let wrong = hop(filter(9, None));
    assert!(can_expand(&wrong));
    assert_eq!(
        service.expand_hop(wrong).unwrap_err().message,
        "unknown ComparisonOp"
    );
    assert_eq!(
        service.expand_hop(hop(filter(0, None))).unwrap_err().message,
        "missing filter value"
    );
    assert_eq!(
        service
            .expand_hop(hop(filter(0, Some(Kind::TimestampValue(1)))))
            .unwrap_err()
            .message,
        "WHERE filters don't support timestamp/bytes literals in v1"
    );
    // A double has no place in an index.
    assert!(!can_expand(&hop(filter(
        0,
        Some(Kind::Float64Value(1.5f64.to_bits()))
    ))));
}

#[test]
fn values_of_the_wire_are_keys_and_literals() {
    let value = |k: Kind| Value { kind: Some(k) };
    assert_eq!(
        proto_value_to_property_key(&value(Kind::TimestampValue(5))).unwrap(),
        PropertyKey::Timestamp(5)
    );
    assert_eq!(
        proto_value_to_property_key(&value(Kind::BoolValue(true))).unwrap(),
        PropertyKey::Bool(true)
    );
    assert!(proto_value_to_property_key(&value(Kind::Float64Value(0))).is_err());
    assert_eq!(
        proto_value_to_literal(&value(Kind::Int64Value(-3))).unwrap(),
        graph_engine::dsl::Literal::Int64(-3)
    );
    assert!(proto_value_to_literal(&value(Kind::BytesValue(Vec::new()))).is_err());
    for op in 0..6 {
        let back = proto_comparison_op_to_op(op).unwrap();
        assert_eq!(graph_engine::wire::comparison_op_to_proto(back), op);
    }
    assert!(proto_comparison_op_to_op(-1).is_err());
    let sent = graph_engine::wire::property_filter_to_proto(&PropertyFilter {
        property: "x".to_string(),
        op: graph_engine::dsl::ComparisonOp::Lte,
        value: graph_engine::dsl::Literal::Float64(2.5f64.to_bits()),
    });
    let back = proto_filter_to_property_filter(&sent).unwrap();
    assert_eq!(back.property, "x");
    assert_eq!(back.op, graph_engine::dsl::ComparisonOp::Lte);
    assert_eq!(
        back.value,
        graph_engine::dsl::Literal::Float64(2.5f64.to_bits())
    );
}

#[test]
fn steps_of_the_wrong_kind_cannot_be_asked() {
    let all = PlanStep::ResolveAll {
        alias: "p".to_string(),
        label: "Person".to_string(),
    };
    assert_eq!(
        make_start_request(&all).unwrap_err(),
        ExecutionError::Rpc("resolve_start called with a non-ResolveStart step".to_string())
    );
    assert_eq!(
        make_hop_request(&all, &Vec::new()).unwrap_err(),
        ExecutionError::Rpc("expand_hop called with a non-ExpandHop step".to_string())
    );
}

/// Rows without a value come first, and last when the order is reversed; rows
/// that are equal keep their order.
#[test]
fn rows_are_sorted_stably() {
    let mut nodes: IdMap<NodeRecord> = IdMap::new();
    for (id, value) in [
        (1u64, Some(2.5f64)),
        (2, None),
        (3, Some(-1.0)),
        (4, Some(2.5)),
        (5, Some(f64::NEG_INFINITY)),
    ] {
        let mut properties = NamedMap::new();
        if let Some(v) = value {
            properties.insert("x".to_string(), PropertyValue::Float64(v.to_bits()));
        }
        nodes.insert(
            id,
            NodeRecord {
                label: Label("A".to_string()),
                properties,
            },
        );
    }
    let records = Records {
        nodes,
        edges: IdMap::new(),
    };
    let rows = || -> Vec<Binding> {
        (1..=5)
            .map(|id| Binding::from_node("a".to_string(), NodeId(id)))
            .collect()
    };
    let sorted = |direction: SortDirection| -> Vec<u64> {
        sort_bindings_by_property(
            rows(),
            &OrderBy {
                alias: "a".to_string(),
                property: "x".to_string(),
                direction,
            },
            &records,
        )
        .iter()
        .map(|b| b.nodes.get("a").unwrap().0)
        .collect()
    };
    assert_eq!(sorted(SortDirection::Asc), vec![2, 5, 3, 1, 4]);
    assert_eq!(sorted(SortDirection::Desc), vec![1, 4, 3, 5, 2]);
    assert_eq!(limit_rows(rows(), Some(2)).len(), 2);
    assert_eq!(limit_rows(rows(), Some(9)).len(), 5);
    assert_eq!(limit_rows(rows(), None).len(), 5);
}

/// A rebuild that fails leaves what is served as it is.
#[test]
fn a_failed_rebuild_changes_nothing() {
    let (nodes, edges) = people();
    let built: Result<IndexGeneration, RebuildError> = Ok(build(SOCIAL, 0, 1, &nodes, &edges));
    let (outcome, gauges) = rebuild_metrics(&built);
    assert_eq!(outcome, "ok");
    assert_eq!(
        gauges,
        Some(Gauges {
            nodes: 5,
            edges: 4,
            snapshot_age_secs: 0
        })
    );
    assert!(matches!(next_generation(built), NextGeneration::Serve(_)));

    let failed: Result<IndexGeneration, RebuildError> = Err(RebuildError::Storage(
        StorageError::Backend("down".to_string()),
    ));
    assert_eq!(rebuild_metrics(&failed), ("error", None));
    assert!(matches!(next_generation(failed), NextGeneration::Keep(_)));
}

#[test]
fn ages_are_whole_seconds() {
    assert_eq!(snapshot_age_secs(5_999, 1_000), 4);
    assert_eq!(snapshot_age_secs(1_000, 5_999), 0);
    assert_eq!(snapshot_age_secs(2_000, 1_000), 1);
}

#[test]
fn failures_have_http_statuses() {
    assert_eq!(http_status(Code::InvalidArgument), 400);
    assert_eq!(http_status(Code::Unavailable), 502);
    assert_eq!(http_status(Code::DeadlineExceeded), 502);
    assert_eq!(http_status(Code::Internal), 500);
    assert_eq!(http_status(Code::Unknown), 500);
    assert_eq!(
        unreachable_text("http://x", "refused"),
        "couldn't reach graph-coordinator at http://x: refused"
    );
}

fn environment() -> Environment {
    Environment {
        schema_path: Some("s.graphschema".to_string()),
        n_partitions: None,
        listen_addr: None,
        metrics_listen_addr: None,
        discovery_mode: None,
        k8s_namespace: None,
        k8s_label_selector: None,
        k8s_partition_port: None,
        partition_node_addrs: None,
    }
}

fn configured(env: &Environment) -> Result<Config, ConfigError> {
    let valid: Vec<bool> = env
        .addresses()
        .iter()
        .map(|a| a.contains(":"))
        .collect();
    Config::from_env(env, &valid)
}

#[test]
fn a_coordinator_has_defaults() {
    let config = configured(&environment()).unwrap();
    assert_eq!(config.schema_path, "s.graphschema");
    assert_eq!(config.n_partitions, 1);
    assert_eq!(config.listen_addr, "0.0.0.0:7000");
    assert_eq!(config.metrics_listen_addr, "0.0.0.0:9100");
    match config.discovery {
        DiscoveryMode::Static { partition_addrs } => {
            assert_eq!(partition_addrs, vec![(0, "127.0.0.1:7001".to_string())])
        }
        other => panic!("expected Static, got {other:?}"),
    }
}

#[test]
fn a_coordinator_is_configured_by_its_environment() {
    let mut env = environment();
    env.n_partitions = Some("2".to_string());
    env.partition_node_addrs = Some("0=127.0.0.1:7001,1=127.0.0.1:7002".to_string());
    match configured(&env).unwrap().discovery {
        DiscoveryMode::Static { partition_addrs } => assert_eq!(
            partition_addrs,
            vec![
                (0, "127.0.0.1:7001".to_string()),
                (1, "127.0.0.1:7002".to_string())
            ]
        ),
        other => panic!("expected Static, got {other:?}"),
    }
    env.discovery_mode = Some("kubernetes".to_string());
    env.k8s_partition_port = Some("7100".to_string());
    match configured(&env).unwrap().discovery {
        DiscoveryMode::Kubernetes {
            namespace,
            label_selector,
            partition_port,
        } => {
            assert_eq!(namespace, "default");
            assert_eq!(label_selector, "app=graph-partition-node");
            assert_eq!(partition_port, 7100);
        }
        other => panic!("expected Kubernetes, got {other:?}"),
    }
}

#[test]
fn wrong_settings_of_a_coordinator_are_named() {
    let said = |change: fn(&mut Environment)| {
        let mut env = environment();
        change(&mut env);
        configured(&env).unwrap_err().message()
    };
    assert_eq!(
        said(|e| e.schema_path = None),
        "missing required environment variable GRAPH_SCHEMA_PATH"
    );
    assert_eq!(
        said(|e| e.n_partitions = Some("many".to_string())),
        "invalid value for GRAPH_N_PARTITIONS: many"
    );
    assert_eq!(
        said(|e| e.listen_addr = Some("nowhere".to_string())),
        "invalid value for GRAPH_COORDINATOR_LISTEN_ADDR: not a valid socket address"
    );
    assert_eq!(
        said(|e| e.metrics_listen_addr = Some("9100".to_string())),
        "invalid value for GRAPH_COORDINATOR_METRICS_LISTEN_ADDR: not a valid socket address"
    );
    assert_eq!(
        said(|e| e.discovery_mode = Some("dns".to_string())),
        "invalid value for GRAPH_DISCOVERY_MODE: \"dns\" (expected \"static\" or \"kubernetes\")"
    );
    assert_eq!(
        said(|e| e.partition_node_addrs = Some("7001".to_string())),
        "invalid value for GRAPH_PARTITION_NODE_ADDRS: expected \"<partition_id>=<host:port>\", got \"7001\""
    );
    assert_eq!(
        said(|e| e.partition_node_addrs = Some("x=127.0.0.1:1".to_string())),
        "invalid value for GRAPH_PARTITION_NODE_ADDRS: \"x\" is not a valid partition id"
    );
    assert_eq!(
        said(|e| e.partition_node_addrs = Some("0=127.0.0.1:1,1=here".to_string())),
        "invalid value for GRAPH_PARTITION_NODE_ADDRS: \"here\" is not a valid socket address"
    );
    assert_eq!(
        said(|e| {
            e.discovery_mode = Some("kubernetes".to_string());
            e.k8s_partition_port = Some("65536".to_string());
        }),
        "invalid value for GRAPH_K8S_PARTITION_PORT: 65536"
    );
}

#[test]
fn a_partition_node_is_configured_by_its_environment() {
    let mut env = partition_node::config::Environment {
        schema_path: Some("s".to_string()),
        warehouse_path: None,
        catalog_db_path: None,
        namespace: None,
        partition_id: None,
        n_partitions: None,
        rebuild_interval_secs: None,
        listen_addr: None,
        metrics_listen_addr: None,
    };
    let config = partition_node::config::Config::from_env(&env, true, true).unwrap();
    assert_eq!(config.warehouse_path, "./warehouse");
    assert_eq!(config.catalog_db_path, "./catalog.sqlite");
    assert_eq!(config.namespace, "graph");
    assert_eq!(config.partition_id, 0);
    assert_eq!(config.n_partitions, 1);
    assert_eq!(config.rebuild_interval_secs, 30);
    assert_eq!(config.listen_addr, "0.0.0.0:7001");

    env.partition_id = Some("3".to_string());
    env.rebuild_interval_secs = Some("5".to_string());
    let config = partition_node::config::Config::from_env(&env, true, true).unwrap();
    assert_eq!(config.partition_id, 3);
    assert_eq!(config.rebuild_interval_secs, 5);

    assert_eq!(
        partition_node::config::Config::from_env(&env, false, true)
            .unwrap_err()
            .message(),
        "invalid value for GRAPH_PARTITION_LISTEN_ADDR: not a valid socket address"
    );
    env.partition_id = Some("-1".to_string());
    assert_eq!(
        partition_node::config::Config::from_env(&env, true, true)
            .unwrap_err()
            .message(),
        "invalid value for GRAPH_PARTITION_ID: -1"
    );
}
