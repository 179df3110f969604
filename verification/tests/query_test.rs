//! Planning, filtering and execution of queries.
use graph_engine::cluster::{PartitionHasher, PartitionMap, ReplicaEndpoint, ReplicaId};
use graph_engine::dsl::parser::{Parser, PestParser};
use graph_engine::dsl::{ComparisonOp, Direction, Literal, PropertyFilter};
use graph_engine::index::builder::{IcebergIndexBuilder, Scan, ScannedEdge, ScannedNode};
use graph_engine::index::generation::GenerationHandle;
use graph_engine::index::{
    EdgeRecord, IndexGeneration, NodeRecord, PartitionId, PropertyKey,
};
use graph_engine::maps::NamedMap;
use graph_engine::query::distributed::{dedup, PartitionRpc, ScatterGatherExecutor};
use graph_engine::query::filter_eval::{evaluate_filter, evaluate_filters, literal_matches};
use graph_engine::query::local_executor::{LocalExecutor, SimpleLocalExecutor};
use graph_engine::query::lookup::filter_ids;
use graph_engine::query::planner::{flip_op, is_plannable, NaivePlanner, Planner};
use graph_engine::query::{
    AntiJoinStep, Binding, ExecutionError, Frontier, PlanStep, QueryPlan,
};
use graph_engine::schema::parser::{PestSchemaParser, SchemaParser};
use graph_engine::schema::partitioning::partition_of;
use graph_engine::schema::{EdgeId, EdgeType, Label, NodeId, Schema};
use graph_engine::storage::{EdgeRow, NodeRow, PropertyValue};
use std::collections::{HashMap, HashSet};

fn plan_of(dsl: &str) -> QueryPlan {
    let query = PestParser.parse(dsl).expect("valid DSL");
    NaivePlanner.plan(&query)
}

#[test]
fn a_timestamp_property_matches_an_rfc3339_string_literal() {
    // 2024-05-01T00:00:00Z in epoch microseconds.
    let micros = chrono::DateTime::parse_from_rfc3339("2024-05-01T00:00:00Z")
        .unwrap()
        .timestamp_micros();
    assert!(literal_matches(
        &PropertyValue::Timestamp(micros + 1),
        ComparisonOp::Gte,
        &Literal::String("2024-05-01T00:00:00Z".to_string()),
    ));
    assert!(!literal_matches(
        &PropertyValue::Timestamp(micros - 1),
        ComparisonOp::Gte,
        &Literal::String("2024-05-01T00:00:00Z".to_string()),
    ));
}

#[test]
fn an_unparseable_string_never_matches_a_timestamp_property() {
    assert!(!literal_matches(
        &PropertyValue::Timestamp(0),
        ComparisonOp::Eq,
        &Literal::String("not a date".to_string()),
    ));
}

#[test]
fn plans_the_k_hop_example() {
    let plan = plan_of(
        r#"
        MATCH (p:Person {name: "Alice"})-[:KNOWS*1..3]->(friend:Person)
        WHERE friend.birth_year > 1990
        RETURN friend
        "#,
    );

    assert_eq!(plan.steps.len(), 2);
    match &plan.steps[0] {
        PlanStep::ResolveStart {
            alias,
            label_or_type,
            property,
            key,
        } => {
            assert_eq!(alias, "p");
            assert_eq!(label_or_type, "Person");
            assert_eq!(property, "name");
            assert_eq!(*key, PropertyKey::String("Alice".to_string()));
        }
        other => panic!("expected ResolveStart, got {other:?}"),
    }

    match &plan.steps[1] {
        PlanStep::ExpandHop {
            from_alias,
            to_alias,
            to_label,
            edge_type,
            hops,
            filters,
            edge_alias,
            ..
        } => {
            assert_eq!(from_alias, "p");
            assert_eq!(to_alias, "friend");
            assert_eq!(to_label.as_deref(), Some("Person"));
            assert_eq!(edge_type.as_deref(), Some("KNOWS"));
            assert_eq!(hops.min, 1);
            assert_eq!(hops.max, 3);
            assert_eq!(filters.len(), 1);
            assert_eq!(filters[0].property, "birth_year");
            assert_eq!(*edge_alias, None);
        }
        other => panic!("expected ExpandHop, got {other:?}"),
    }

    assert_eq!(plan.project.len(), 1);
    assert_eq!(plan.project[0].alias, "friend");
    assert_eq!(plan.project[0].property, None);
}

#[test]
fn plans_a_multi_edge_pattern() {
    let plan = plan_of(
        "MATCH (p:Person {name: \"Alice\"})-[:WORKS_AT]->(o:Organization)<-[:WORKS_AT]-(c:Person) RETURN c, o",
    );

    assert_eq!(plan.steps.len(), 3);
    let PlanStep::ExpandHop { direction: d1, .. } = &plan.steps[1] else {
        panic!("expected ExpandHop")
    };
    let PlanStep::ExpandHop { direction: d2, .. } = &plan.steps[2] else {
        panic!("expected ExpandHop")
    };
    assert_eq!(*d1, Direction::Outgoing);
    assert_eq!(*d2, Direction::Incoming);
}

#[test]
fn plans_a_filterless_start_as_resolve_all() {
    let plan = plan_of("MATCH (w:Workload) RETURN w");

    match &plan.steps[0] {
        PlanStep::ResolveAll { alias, label } => {
            assert_eq!(alias, "w");
            assert_eq!(label, "Workload");
        }
        other => panic!("expected ResolveAll, got {other:?}"),
    }
}

#[test]
fn plans_the_least_privilege_example() {
    let plan = plan_of(
        r#"
        MATCH (w:Workload)-[:ASSUMES]->(r:IAMRole)-[g:GRANTS]->(d:DataStore)
        WHERE d.data_class = "sensitive"
          AND NOT EXISTS {
            MATCH (w)-[a:ACCESSED]->(d)
            WHERE a.action = g.action AND a.last_seen >= "2024-05-01T00:00:00Z"
          }
        RETURN w.service, w.team, r.arn, g.action, d.arn
        "#,
    );

    assert_eq!(plan.steps.len(), 4);
    assert!(matches!(plan.steps[0], PlanStep::ResolveAll { .. }));

    let PlanStep::ExpandHop {
        edge_alias: grants_alias,
        ..
    } = &plan.steps[2]
    else {
        panic!("expected the GRANTS ExpandHop");
    };
    assert_eq!(grants_alias.as_deref(), Some("g"));

    let PlanStep::AntiJoin(anti_join) = &plan.steps[3] else {
        panic!("expected a trailing AntiJoin step");
    };
    assert_eq!(anti_join.from_alias, "w");
    assert_eq!(anti_join.to_alias, "d");
    assert_eq!(anti_join.edge_alias.as_deref(), Some("a"));
    assert_eq!(anti_join.edge_type.as_deref(), Some("ACCESSED"));
    assert_eq!(anti_join.direction, Direction::Outgoing);

    assert_eq!(anti_join.literal_conditions.len(), 1);
    assert_eq!(anti_join.literal_conditions[0].property, "last_seen");

    assert_eq!(anti_join.outer_conditions.len(), 1);
    let (inner_property, op, outer) = &anti_join.outer_conditions[0];
    assert_eq!(inner_property, "action");
    assert_eq!(*op, ComparisonOp::Eq);
    assert_eq!(outer.alias, "g");
    assert_eq!(outer.property, "action");

    assert_eq!(plan.project.len(), 5);
    assert_eq!(plan.project[3].alias, "g");
    assert_eq!(plan.project[3].property.as_deref(), Some("action"));
}


fn schema() -> Schema {
    PestSchemaParser
        .parse(
            r#"
            schema graph_v1 {
              node Person {
                id: NodeId
                @indexed name: String
                @indexed birth_year: Int64
              }
              edge KNOWS {
                from: Person
                to: Person
              }
            }
            "#,
        )
        .expect("valid IDL")
}

fn node(id: u64, name: &str, birth_year: i64) -> ScannedNode {
    let mut properties = NamedMap::new();
    properties.insert("name".to_string(), PropertyValue::String(name.to_string()));
    properties.insert("birth_year".to_string(), PropertyValue::Int64(birth_year));
    ScannedNode {
        label: Label("Person".to_string()),
        row: NodeRow {
            id: NodeId(id),
            properties,
        },
    }
}

fn edge(id: u64, src: u64, dst: u64) -> ScannedEdge {
    ScannedEdge {
        edge_type: EdgeType("KNOWS".to_string()),
        row: EdgeRow {
            id: EdgeId(id),
            src: NodeId(src),
            dst: NodeId(dst),
            properties: NamedMap::new(),
        },
    }
}

fn build(
    partition: u32,
    n_partitions: u32,
    nodes: Vec<ScannedNode>,
    edges: Vec<ScannedEdge>,
) -> IndexGeneration {
    IcebergIndexBuilder::new((), schema(), n_partitions).build(
        PartitionId(partition),
        Scan {
            nodes,
            edges,
            snapshot_by_table: NamedMap::new(),
            built_at_unix_ms: 0,
        },
    )
}

/// Alice knows Bob, who knows Carol, who knows Dave, who knows Erin. Erin is
/// four hops away, and Bob is not born after 1990.
#[test]
fn end_to_end_k_hop_query() {
    let handle = GenerationHandle::new(build(
        0,
        1,
        vec![
            node(1, "Alice", 1970),
            node(2, "Bob", 1990),
            node(3, "Carol", 1995),
            node(4, "Dave", 2000),
            node(5, "Erin", 2005),
        ],
        vec![
            edge(100, 1, 2),
            edge(101, 2, 3),
            edge(102, 3, 4),
            edge(103, 4, 5),
        ],
    ));
    let plan = plan_of(
        r#"
        MATCH (p:Person {name: "Alice"})-[:KNOWS*1..3]->(friend:Person)
        WHERE friend.birth_year > 1990
        RETURN friend
        "#,
    );

    let executor = SimpleLocalExecutor;
    let mut bindings = executor
        .resolve_start(&handle, &plan.steps[0])
        .expect("resolve_start should succeed");
    assert_eq!(bindings.len(), 1, "exactly Alice should resolve the start");

    for step in &plan.steps[1..] {
        let frontier = executor
            .expand_hop(&handle, step, &bindings)
            .expect("expand_hop should succeed");
        bindings = frontier.local;
    }

    let friends: HashSet<NodeId> = bindings
        .iter()
        .map(|b| *b.nodes.get(&plan.project[0].alias).unwrap())
        .collect();
    assert_eq!(friends, HashSet::from([NodeId(3), NodeId(4)]));
}

/// The next id behind `cursor` that a partition owns.
fn find_id(n_partitions: u32, target_partition: u32, cursor: &mut u64) -> u64 {
    loop {
        *cursor += 1;
        if partition_of(NodeId(*cursor), n_partitions) == target_partition {
            return *cursor;
        }
    }
}

struct FakeRpc {
    generations: HashMap<u32, GenerationHandle>,
}

impl FakeRpc {
    fn handle(&self, replica: &ReplicaEndpoint) -> &GenerationHandle {
        let partition: u32 = replica
            .replica
            .0
            .strip_prefix("partition-")
            .expect("replica ids are always \"partition-<n>\"")
            .parse()
            .expect("replica ids always end in a valid u32");
        &self.generations[&partition]
    }
}

impl PartitionRpc for FakeRpc {
    fn resolve_start(
        &self,
        replica: &ReplicaEndpoint,
        step: &PlanStep,
    ) -> Result<Vec<Binding>, ExecutionError> {
        SimpleLocalExecutor.resolve_start(self.handle(replica), step)
    }

    fn resolve_all(
        &self,
        replica: &ReplicaEndpoint,
        step: &PlanStep,
    ) -> Result<Vec<Binding>, ExecutionError> {
        SimpleLocalExecutor.resolve_all(self.handle(replica), step)
    }

    fn expand_hop(
        &self,
        replica: &ReplicaEndpoint,
        step: &PlanStep,
        frontier: &Vec<Binding>,
    ) -> Result<Frontier, ExecutionError> {
        SimpleLocalExecutor.expand_hop(self.handle(replica), step, frontier)
    }

    fn check_anti_join(
        &self,
        replica: &ReplicaEndpoint,
        step: &AntiJoinStep,
        conditions: &Vec<PropertyFilter>,
        frontier: &Vec<Binding>,
    ) -> Result<Vec<Binding>, ExecutionError> {
        SimpleLocalExecutor.check_anti_join(self.handle(replica), step, conditions, frontier)
    }

    fn get_node_properties(
        &self,
        replica: &ReplicaEndpoint,
        ids: &Vec<NodeId>,
    ) -> Result<Vec<(NodeId, NodeRecord)>, ExecutionError> {
        let generation = self.handle(replica).acquire();
        Ok(ids
            .iter()
            .filter_map(|id| generation.node_records.get(id.0).map(|r| (*id, r.clone())))
            .collect())
    }

    fn get_edge_properties(
        &self,
        replica: &ReplicaEndpoint,
        ids: &Vec<EdgeId>,
    ) -> Result<Vec<(EdgeId, EdgeRecord)>, ExecutionError> {
        let generation = self.handle(replica).acquire();
        Ok(ids
            .iter()
            .filter_map(|id| generation.edge_records.get(id.0).map(|r| (*id, r.clone())))
            .collect())
    }
}

fn replica_endpoint(partition: u32) -> ReplicaEndpoint {
    ReplicaEndpoint {
        replica: ReplicaId(format!("partition-{partition}")),
        address: format!("127.0.0.1:{}", 7001 + partition),
        healthy: true,
    }
}

fn cluster(
    n_partitions: u32,
    nodes: &[ScannedNode],
    edges: &[ScannedEdge],
) -> (ScatterGatherExecutor<FakeRpc>, PartitionMap) {
    let mut generations = HashMap::new();
    let mut partitions = PartitionMap::default();
    for p in 0..n_partitions {
        let generation = build(p, n_partitions, nodes.to_vec(), edges.to_vec());
        generations.insert(p, GenerationHandle::new(generation));
        partitions.insert(PartitionId(p), vec![replica_endpoint(p)]);
    }
    (
        ScatterGatherExecutor::new(FakeRpc { generations }, PartitionHasher { n_partitions }),
        partitions,
    )
}

fn bound(bindings: &[Binding], alias: &str) -> HashSet<NodeId> {
    bindings
        .iter()
        .map(|b| *b.nodes.get(alias).unwrap())
        .collect()
}

/// Alice and Bob are of one partition, Carol and Dave of another; the result
/// is that of a single partition.
#[test]
fn distributed_k_hop_query_crosses_a_partition_boundary() {
    let n_partitions = 2u32;
    let mut cursor = 0u64;
    let alice = find_id(n_partitions, 0, &mut cursor);
    let bob = find_id(n_partitions, 0, &mut cursor);
    let carol = find_id(n_partitions, 1, &mut cursor);
    let dave = find_id(n_partitions, 1, &mut cursor);

    let full_nodes = vec![
        node(alice, "Alice", 1970),
        node(bob, "Bob", 1990),
        node(carol, "Carol", 1995),
        node(dave, "Dave", 2000),
    ];
    let full_edges = vec![
        edge(100, alice, bob),
        edge(101, bob, carol),
        edge(102, carol, dave),
    ];
    let (executor, partitions) = cluster(n_partitions, &full_nodes, &full_edges);
    let plan = plan_of(
        r#"
        MATCH (p:Person {name: "Alice"})-[:KNOWS*1..3]->(friend:Person)
        WHERE friend.birth_year > 1990
        RETURN friend
        "#,
    );

    let bindings = executor
        .execute(&plan, &partitions)
        .expect("distributed execution should succeed");
    let friends = bound(&bindings, &plan.project[0].alias);
    assert_eq!(friends, HashSet::from([NodeId(carol), NodeId(dave)]));
}

/// The same queries give the same rows, however many partitions there are.
#[test]
fn results_do_not_depend_on_the_number_of_partitions() {
    let nodes: Vec<ScannedNode> = (1..=30)
        .map(|i| node(i, &format!("n{}", i % 5), 1980 + i as i64))
        .collect();
    let edges: Vec<ScannedEdge> = (1..=60)
        .map(|i| edge(1000 + i, 1 + (i * 7) % 30, 1 + (i * 11) % 30))
        .collect();
    for dsl in [
        r#"MATCH (a:Person {name: "n1"})-[:KNOWS]->(b:Person) RETURN b"#,
        r#"MATCH (a:Person {name: "n2"})<-[:KNOWS*1..3]-(b:Person) WHERE b.birth_year <= 2000 RETURN b"#,
        r#"MATCH (a:Person)-[e:KNOWS]->(b:Person) WHERE a.birth_year > 1990 RETURN b"#,
        r#"MATCH (a:Person {name: "n3"})-[:KNOWS]->(b:Person)-[:KNOWS]->(c:Person) WHERE NOT EXISTS { MATCH (a)-[:KNOWS]->(c) } RETURN c"#,
    ] {
        let plan = plan_of(dsl);
        let mut seen: Vec<HashSet<Vec<u64>>> = Vec::new();
        for n in [1u32, 2, 5] {
            let (executor, partitions) = cluster(n, &nodes, &edges);
            let rows = executor.execute(&plan, &partitions).expect("succeeds");
            assert!(!rows.is_empty(), "{dsl}");
            seen.push(
                rows.iter()
                    .map(|b| {
                        ["a", "b", "c", "e"]
                            .iter()
                            .map(|alias| {
                                b.nodes.get(alias).map(|n| n.0).unwrap_or_else(|| {
                                    b.edges.get(alias).map(|e| e.0).unwrap_or(0)
                                })
                            })
                            .collect()
                    })
                    .collect(),
            );
        }
        assert_eq!(seen[0], seen[1], "{dsl}");
        assert_eq!(seen[0], seen[2], "{dsl}");
    }
}

/// What a partition without a healthy replica owns is left out.
#[test]
fn rows_of_a_partition_without_replicas_go_no_further() {
    let n_partitions = 2u32;
    let mut cursor = 0u64;
    let alice = find_id(n_partitions, 0, &mut cursor);
    let bob = find_id(n_partitions, 1, &mut cursor);
    let nodes = vec![node(alice, "Alice", 1970), node(bob, "Bob", 1990)];
    let edges = vec![edge(1, alice, bob), edge(2, bob, alice)];
    let (executor, mut partitions) = cluster(n_partitions, &nodes, &edges);
    let mut sick = replica_endpoint(1);
    sick.healthy = false;
    partitions.insert(PartitionId(1), vec![sick]);

    let all = executor
        .execute(&plan_of("MATCH (p:Person) RETURN p"), &partitions)
        .unwrap();
    assert_eq!(bound(&all, "p"), HashSet::from([NodeId(alice)]));
    let two = executor
        .execute(
            &plan_of(r#"MATCH (p:Person {name: "Alice"})-[:KNOWS]->(q)-[:KNOWS]->(r) RETURN r"#),
            &partitions,
        )
        .unwrap();
    assert!(two.is_empty());
}

#[test]
fn plans_that_cannot_be_executed_are_errors() {
    let (executor, partitions) = cluster(1, &[node(1, "Alice", 1970)], &[]);
    let empty = QueryPlan {
        steps: Vec::new(),
        remaining: Vec::new(),
        project: Vec::new(),
    };
    assert_eq!(
        executor.execute(&empty, &partitions).unwrap_err().message(),
        "plan step referenced unknown alias: a plan always has at least a ResolveStart step"
    );
    let twice = QueryPlan {
        steps: vec![
            PlanStep::ResolveAll {
                alias: "p".into(),
                label: "Person".into(),
            },
            PlanStep::ResolveAll {
                alias: "q".into(),
                label: "Person".into(),
            },
        ],
        remaining: Vec::new(),
        project: Vec::new(),
    };
    assert_eq!(
        executor.execute(&twice, &partitions).unwrap_err(),
        ExecutionError::UnknownAlias(
            "every plan step after the first must be ExpandHop or AntiJoin".to_string()
        )
    );
}

#[test]
fn execution_errors_are_worded() {
    assert_eq!(
        ExecutionError::NoIndex.message(),
        "index generation unavailable"
    );
    assert_eq!(
        ExecutionError::Rpc("down".to_string()).message(),
        "partition RPC failed: down"
    );
}

/// A condition on the start that is not its key, and one on an edge, are
/// checked at the end.
#[test]
fn conditions_on_the_start_are_enforced() {
    let nodes = vec![
        node(1, "Alice", 1970),
        node(2, "Alice", 1980),
        node(3, "Bob", 1990),
    ];
    let edges = vec![edge(10, 1, 3), edge(11, 2, 3)];
    let (executor, partitions) = cluster(2, &nodes, &edges);
    let rows = executor
        .execute(
            &plan_of(
                r#"MATCH (p:Person {name: "Alice"})-[:KNOWS]->(q:Person) WHERE p.birth_year > 1975 RETURN p"#,
            ),
            &partitions,
        )
        .unwrap();
    assert_eq!(bound(&rows, "p"), HashSet::from([NodeId(2)]));
}

/// Only a start with a label and at most one filter, not for a double, can be
/// planned.
#[test]
fn some_queries_cannot_be_planned() {
    let plannable = |dsl: &str| is_plannable(&PestParser.parse(dsl).expect("valid DSL"));
    assert!(plannable("MATCH (p:Person) RETURN p"));
    assert!(!plannable("MATCH (p) RETURN p"));
    assert!(!plannable("MATCH (p:Person {x: 1.5}) RETURN p"));
    assert!(plannable(r#"MATCH (p:Person {name: "Alice"}) RETURN p"#));
    assert!(!plannable(
        r#"MATCH (p:Person {name: "Alice", birth_year: 1990}) RETURN p"#
    ));
    assert!(plannable("MATCH (p:Person)-->(q {x: 1.5}) RETURN p"));
}

/// A condition on the start stands in the plan.
#[test]
fn a_condition_on_the_start_changes_the_plan() {
    let without = plan_of("MATCH (p:Person) RETURN p");
    let with = plan_of(r#"MATCH (p:Person) WHERE p.name = "Alice" RETURN p"#);
    assert!(without.remaining.is_empty());
    assert_eq!(with.remaining.len(), 1);
    assert_eq!(with.remaining[0].0, "p");
    assert_eq!(with.remaining[0].1.property, "name");
    assert_eq!(with.steps.len(), without.steps.len());
}

#[test]
fn flipped_operators_say_the_same() {
    let pairs = [
        (ComparisonOp::Eq, ComparisonOp::Eq),
        (ComparisonOp::Ne, ComparisonOp::Ne),
        (ComparisonOp::Lt, ComparisonOp::Gt),
        (ComparisonOp::Lte, ComparisonOp::Gte),
        (ComparisonOp::Gt, ComparisonOp::Lt),
        (ComparisonOp::Gte, ComparisonOp::Lte),
    ];
    for (op, flipped) in pairs {
        assert_eq!(flip_op(op), flipped);
        for (x, y) in [(1, 2), (2, 2), (3, 2)] {
            let here = literal_matches(&PropertyValue::Int64(x), op, &Literal::Int64(y));
            let there = literal_matches(&PropertyValue::Int64(y), flipped, &Literal::Int64(x));
            assert_eq!(here, there);
        }
    }
}

/// What a start without a filter and one with a filter are asked through.
struct StartsRpc;

impl PartitionRpc for StartsRpc {
    fn resolve_start(
        &self,
        _replica: &ReplicaEndpoint,
        _step: &PlanStep,
    ) -> Result<Vec<Binding>, ExecutionError> {
        Ok(vec![Binding::from_node("p".to_string(), NodeId(1))])
    }

    fn resolve_all(
        &self,
        _replica: &ReplicaEndpoint,
        _step: &PlanStep,
    ) -> Result<Vec<Binding>, ExecutionError> {
        Ok(vec![Binding::from_node("p".to_string(), NodeId(2))])
    }

    fn expand_hop(
        &self,
        _replica: &ReplicaEndpoint,
        _step: &PlanStep,
        _frontier: &Vec<Binding>,
    ) -> Result<Frontier, ExecutionError> {
        panic!("no hop is asked for")
    }

    fn check_anti_join(
        &self,
        _replica: &ReplicaEndpoint,
        _step: &AntiJoinStep,
        _conditions: &Vec<PropertyFilter>,
        _frontier: &Vec<Binding>,
    ) -> Result<Vec<Binding>, ExecutionError> {
        panic!("no check is asked for")
    }

    fn get_node_properties(
        &self,
        _replica: &ReplicaEndpoint,
        _ids: &Vec<NodeId>,
    ) -> Result<Vec<(NodeId, NodeRecord)>, ExecutionError> {
        panic!("no properties are asked for")
    }

    fn get_edge_properties(
        &self,
        _replica: &ReplicaEndpoint,
        _ids: &Vec<EdgeId>,
    ) -> Result<Vec<(EdgeId, EdgeRecord)>, ExecutionError> {
        panic!("no properties are asked for")
    }
}

#[test]
fn a_start_is_asked_through_its_own_call() {
    let executor = ScatterGatherExecutor::new(StartsRpc, PartitionHasher { n_partitions: 1 });
    let mut partitions = PartitionMap::default();
    partitions.insert(PartitionId(0), vec![replica_endpoint(0)]);
    let started = |dsl: &str| {
        let rows = executor.execute(&plan_of(dsl), &partitions).unwrap();
        bound(&rows, "p")
    };
    assert_eq!(
        started(r#"MATCH (p:Person {name: "Alice"}) RETURN p"#),
        HashSet::from([NodeId(1)])
    );
    assert_eq!(
        started("MATCH (p:Person) RETURN p"),
        HashSet::from([NodeId(2)])
    );
}

#[test]
fn names_are_held_once_in_order() {
    let mut map: NamedMap<u64> = NamedMap::new();
    map.insert("b".to_string(), 1);
    map.insert("a".to_string(), 2);
    map.insert("b".to_string(), 3);
    assert_eq!(map.len(), 2);
    assert_eq!(map.entry(0), (&"b".to_string(), &3));
    assert_eq!(map.entry(1), (&"a".to_string(), &2));
    assert_eq!(map.get("b"), Some(&3));
    assert_eq!(map.get("c"), None);
}

fn filter(property: &str, op: ComparisonOp, value: Literal) -> PropertyFilter {
    PropertyFilter {
        property: property.to_string(),
        op,
        value,
    }
}

#[test]
fn filters_compare_values_of_one_type() {
    let mut p = NamedMap::new();
    p.insert("i".to_string(), PropertyValue::Int64(5));
    p.insert("f".to_string(), PropertyValue::Float64(1.5f64.to_bits()));
    p.insert("b".to_string(), PropertyValue::Bool(true));
    p.insert("s".to_string(), PropertyValue::String("m".to_string()));
    p.insert("n".to_string(), PropertyValue::Null);
    let ok = |f: PropertyFilter| evaluate_filter(&p, &f);
    assert!(ok(filter("i", ComparisonOp::Eq, Literal::Int64(5))));
    assert!(ok(filter("i", ComparisonOp::Lt, Literal::Int64(6))));
    assert!(!ok(filter("i", ComparisonOp::Gt, Literal::Int64(6))));
    assert!(!ok(filter("i", ComparisonOp::Eq, Literal::Bool(true))));
    assert!(ok(filter(
        "f",
        ComparisonOp::Gte,
        Literal::Float64((-2.5f64).to_bits())
    )));
    assert!(!ok(filter(
        "f",
        ComparisonOp::Ne,
        Literal::Float64(f64::NAN.to_bits())
    )));
    assert!(ok(filter(
        "f",
        ComparisonOp::Lt,
        Literal::Float64(f64::INFINITY.to_bits())
    )));
    assert!(ok(filter("b", ComparisonOp::Ne, Literal::Bool(false))));
    assert!(ok(filter(
        "s",
        ComparisonOp::Lte,
        Literal::String("mm".to_string())
    )));
    assert!(!ok(filter("n", ComparisonOp::Eq, Literal::Int64(0))));
    assert!(!ok(filter("missing", ComparisonOp::Ne, Literal::Int64(0))));
    assert!(evaluate_filters(
        &p,
        &vec![
            filter("i", ComparisonOp::Eq, Literal::Int64(5)),
            filter("b", ComparisonOp::Eq, Literal::Bool(true)),
        ]
    ));
    assert!(!evaluate_filters(
        &p,
        &vec![
            filter("i", ComparisonOp::Eq, Literal::Int64(5)),
            filter("b", ComparisonOp::Eq, Literal::Bool(false)),
        ]
    ));
    assert!(evaluate_filters(&p, &Vec::new()));
}

/// Both zeros are the same double.
#[test]
fn zeros_are_equal() {
    assert!(literal_matches(
        &PropertyValue::Float64(0.0f64.to_bits()),
        ComparisonOp::Eq,
        &Literal::Float64((-0.0f64).to_bits()),
    ));
}

/// A time with an offset is the instant that it stands for.
#[test]
fn an_offset_is_taken_into_account() {
    let utc = chrono::DateTime::parse_from_rfc3339("2024-05-01T10:00:00Z")
        .unwrap()
        .timestamp_micros();
    assert!(literal_matches(
        &PropertyValue::Timestamp(utc),
        ComparisonOp::Eq,
        &Literal::String("2024-05-01T12:00:00+02:00".to_string()),
    ));
    assert!(!literal_matches(
        &PropertyValue::Timestamp(utc),
        ComparisonOp::Eq,
        &Literal::String("2024-05-01T12:00:00Z".to_string()),
    ));
}

#[test]
fn repeated_rows_are_dropped() {
    let rows = vec![
        Binding::from_node("a".to_string(), NodeId(1)),
        Binding::from_node("a".to_string(), NodeId(2)),
        Binding::from_node("a".to_string(), NodeId(1)),
        Binding::from_node("b".to_string(), NodeId(1)),
    ];
    let kept = dedup(rows);
    assert_eq!(kept.len(), 3);
    assert_eq!(kept[1].nodes.get("a"), Some(&NodeId(2)));
    assert_eq!(kept[2].nodes.get("b"), Some(&NodeId(1)));
}

#[test]
fn an_inequality_is_not_looked_up_in_an_index() {
    let handle = GenerationHandle::new(build(0, 1, vec![node(1, "Alice", 1970)], Vec::new()));
    let step = PlanStep::ExpandHop {
        from_alias: "p".to_string(),
        to_alias: "q".to_string(),
        to_label: Some("Person".to_string()),
        edge_type: None,
        direction: Direction::Outgoing,
        hops: graph_engine::dsl::HopRange { min: 1, max: 1 },
        filters: vec![filter("name", ComparisonOp::Ne, Literal::String("x".to_string()))],
        edge_alias: None,
    };
    let frontier = vec![Binding::from_node("p".to_string(), NodeId(1))];
    let err = SimpleLocalExecutor
        .expand_hop(&handle, &step, &frontier)
        .unwrap_err();
    assert_eq!(
        err.message(),
        "plan step referenced unknown alias: WHERE ... <> on property name is not supported in v1"
    );
    assert_eq!(
        SimpleLocalExecutor
            .resolve_start(&handle, &step)
            .unwrap_err(),
        ExecutionError::UnknownAlias(
            "resolve_start called with a non-ResolveStart step".to_string()
        )
    );
}

/// The filters of a later node without a label are checked at the end.
#[test]
fn filters_of_a_node_without_a_label_are_enforced() {
    let plan = plan_of(
        r#"MATCH (p:Person {name: "Alice"})-[:KNOWS]->(q {name: "Bob"}) RETURN q"#,
    );
    assert_eq!(plan.remaining.len(), 1);
    assert_eq!(plan.remaining[0].0, "q");
    assert_eq!(plan.remaining[0].1.property, "name");
    let nodes = vec![
        node(1, "Alice", 1970),
        node(2, "Bob", 1980),
        node(3, "Carol", 1990),
    ];
    let edges = vec![edge(10, 1, 2), edge(11, 1, 3)];
    for n in 1..4 {
        let (executor, partitions) = cluster(n, &nodes, &edges);
        let rows = executor.execute(&plan, &partitions).unwrap();
        assert_eq!(bound(&rows, "q"), HashSet::from([NodeId(2)]));
    }
}

fn workload_index(edges: Vec<ScannedEdge>) -> IndexGeneration {
    let schema = PestSchemaParser
        .parse(
            r#"
            schema graph_v1 {
              node Workload {
                id: NodeId
                @indexed observed_since: Timestamp
              }
              edge CALLS {
                from: Workload
                to: Workload
              }
            }
            "#,
        )
        .expect("valid IDL");
    let workload = |id: u64, micros: i64| {
        let mut properties = NamedMap::new();
        properties.insert(
            "observed_since".to_string(),
            PropertyValue::Timestamp(micros),
        );
        ScannedNode {
            label: Label("Workload".to_string()),
            row: NodeRow {
                id: NodeId(id),
                properties,
            },
        }
    };
    IcebergIndexBuilder::new((), schema, 1).build(
        PartitionId(0),
        Scan {
            nodes: vec![
                workload(1, 1_704_067_200_000_000),
                workload(2, 1_719_792_000_000_000),
            ],
            edges,
            snapshot_by_table: NamedMap::new(),
            built_at_unix_ms: 0,
        },
    )
}

/// A text is compared with stored timestamps as the instant that it names.
#[test]
fn timestamps_are_looked_up_by_the_instant_a_text_names() {
    let g = workload_index(Vec::new());
    let ids = |op: ComparisonOp, text: &str, instant: Option<i64>| {
        filter_ids(
            &g.properties,
            "Workload",
            &filter("observed_since", op, Literal::String(text.to_string())),
            instant,
        )
    };
    // 2024-05-01T00:00:00Z in microseconds since the epoch.
    let may = Some(1_714_521_600_000_000);
    assert_eq!(
        ids(ComparisonOp::Gte, "2024-05-01T00:00:00Z", may),
        vec![NodeId(2)]
    );
    assert_eq!(
        ids(ComparisonOp::Lt, "2024-05-01T00:00:00Z", may),
        vec![NodeId(1)]
    );
    assert!(ids(ComparisonOp::Eq, "2024-05-01T00:00:00Z", may).is_empty());
    assert_eq!(
        ids(
            ComparisonOp::Eq,
            "2024-01-01T00:00:00Z",
            Some(1_704_067_200_000_000)
        ),
        vec![NodeId(1)]
    );
    assert!(ids(ComparisonOp::Gte, "some day", None).is_empty());
    assert!(ids(ComparisonOp::Lte, "some day", None).is_empty());
}

/// A hop filters by the instant that a text names.
#[test]
fn a_hop_filters_timestamps_by_instants() {
    let calls = |id: u64, src: u64, dst: u64| ScannedEdge {
        edge_type: EdgeType("CALLS".to_string()),
        row: edge(id, src, dst).row,
    };
    let g = workload_index(vec![calls(10, 1, 1), calls(11, 1, 2)]);
    let handle = GenerationHandle::new(g);
    let step = PlanStep::ExpandHop {
        from_alias: "p".to_string(),
        to_alias: "q".to_string(),
        to_label: Some("Workload".to_string()),
        edge_type: None,
        direction: Direction::Outgoing,
        hops: graph_engine::dsl::HopRange { min: 1, max: 1 },
        filters: vec![filter(
            "observed_since",
            ComparisonOp::Gte,
            Literal::String("2024-05-01T00:00:00Z".to_string()),
        )],
        edge_alias: None,
    };
    let frontier = vec![Binding::from_node("p".to_string(), NodeId(1))];
    let found = SimpleLocalExecutor
        .expand_hop(&handle, &step, &frontier)
        .unwrap();
    assert_eq!(bound(&found.local, "q"), HashSet::from([NodeId(2)]));
}

/// A start is found by the instant that a text names.
#[test]
fn a_start_is_found_by_its_timestamp() {
    let handle = GenerationHandle::new(workload_index(Vec::new()));
    let at = |dsl: &str| {
        let rows = SimpleLocalExecutor
            .resolve_start(&handle, &plan_of(dsl).steps[0])
            .unwrap();
        bound(&rows, "w")
    };
    assert_eq!(
        at(r#"MATCH (w:Workload {observed_since: "2024-01-01T01:00:00+01:00"}) RETURN w"#),
        HashSet::from([NodeId(1)])
    );
    assert!(at(r#"MATCH (w:Workload {observed_since: "2024-01-02T00:00:00Z"}) RETURN w"#).is_empty());
    assert!(at(r#"MATCH (w:Workload {observed_since: "some day"}) RETURN w"#).is_empty());
}
