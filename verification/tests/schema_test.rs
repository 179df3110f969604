//! The schema language, its evolution, and partitioning.
use graph_engine::schema::evolution::{EvolutionKind, SchemaEvolution, SpecSchemaEvolution};
use graph_engine::schema::parser::{PestSchemaParser, SchemaParser};
use graph_engine::schema::partitioning::{partition_of, partition_of_hash, stable_hash};
use graph_engine::schema::{EdgeType, Label, NodeId, ScalarType, Schema, SchemaError};

const LEAST_PRIVILEGE: &str = r#"
schema least_privilege {
  node Workload {
    id: NodeId
    @indexed workload_id: String
    kind: String
    cloud_account: String
    env: String
    service: String?
    team: String?
    observed_since: Timestamp
  }

  node IAMRole {
    id: NodeId
    @indexed arn: String
    cloud_account: String
    trust_principals: List<String>
  }

  node DataStore {
    id: NodeId
    @indexed arn: String
    kind: String
    @indexed data_class: String
  }

  // Declared access.
  edge ASSUMES {
    from: Workload
    to: IAMRole
  }

  edge GRANTS {
    from: IAMRole
    to: DataStore
    action: String
  }

  // Observed access.
  edge RAN_AS {
    from: Workload
    to: IAMRole
    last_seen: Timestamp
  }

  edge ACCESSED {
    from: Workload
    to: DataStore
    action: String
    last_seen: Timestamp
  }
}
"#;

const DATADOG_INFRA: &str = r#"
schema datadog_infra {
  node CloudAccount { id: NodeId @indexed name: String provider: String }
  node Team { id: NodeId @indexed name: String }
  node Service { id: NodeId @indexed name: String tier: String? }
  node Host { id: NodeId @indexed hostname: String region: String }
  node Container { id: NodeId @indexed image: String }
  node Monitor { id: NodeId @indexed name: String threshold: Float64? }
  node Dashboard { id: NodeId @indexed title: String }

  edge CONTAINS { from: CloudAccount to: Host }
  edge OWNS { from: Team to: Service }
  edge RUNS_ON { from: Container to: Host }
  edge PART_OF { from: Container to: Service }
  edge MONITORS { from: Monitor to: Service }
  edge DEPENDS_ON { from: Service to: Service latency_ms: Float64? }
  edge DISPLAYS { from: Dashboard to: Monitor }
}
"#;

fn schema(source: &str) -> Schema {
    PestSchemaParser.parse(source).expect("valid IDL")
}

#[test]
fn identical_schemas_are_compatible() {
    let s = schema(
        r#"schema graph_v1 { node Person { id: NodeId name: String } }"#,
    );
    assert_eq!(SpecSchemaEvolution.diff(&s, &s), EvolutionKind::Compatible);
}

#[test]
fn adding_an_optional_property_is_compatible() {
    let from = schema(r#"schema graph_v1 { node Person { id: NodeId } }"#);
    let to = schema(
        r#"schema graph_v2 { node Person { id: NodeId nickname: String? } }"#,
    );
    assert_eq!(
        SpecSchemaEvolution.diff(&from, &to),
        EvolutionKind::Compatible
    );
}

#[test]
fn adding_a_node_label_is_compatible() {
    let from = schema(r#"schema graph_v1 { node Person { id: NodeId } }"#);
    let to = schema(
        r#"
        schema graph_v2 {
          node Person { id: NodeId }
          node Organization { id: NodeId }
        }
        "#,
    );
    assert_eq!(
        SpecSchemaEvolution.diff(&from, &to),
        EvolutionKind::Compatible
    );
}

#[test]
fn adding_an_edge_type_is_compatible() {
    let from = schema(
        r#"schema graph_v1 { node Person { id: NodeId } }"#,
    );
    let to = schema(
        r#"
        schema graph_v2 {
          node Person { id: NodeId }
          edge KNOWS { from: Person to: Person }
        }
        "#,
    );
    assert_eq!(
        SpecSchemaEvolution.diff(&from, &to),
        EvolutionKind::Compatible
    );
}

#[test]
fn removing_a_property_is_incompatible() {
    let from = schema(
        r#"schema graph_v1 { node Person { id: NodeId name: String } }"#,
    );
    let to = schema(r#"schema graph_v2 { node Person { id: NodeId } }"#);

    match SpecSchemaEvolution.diff(&from, &to) {
        EvolutionKind::Incompatible { reasons } => {
            assert_eq!(reasons.len(), 1);
            assert!(reasons[0].contains("name"));
        }
        other => panic!("expected Incompatible, got {other:?}"),
    }
}

#[test]
fn changing_a_property_type_is_incompatible() {
    let from = schema(
        r#"schema graph_v1 { node Person { id: NodeId age: Int64 } }"#,
    );
    let to = schema(
        r#"schema graph_v2 { node Person { id: NodeId age: String } }"#,
    );

    match SpecSchemaEvolution.diff(&from, &to) {
        EvolutionKind::Incompatible { reasons } => {
            assert_eq!(reasons.len(), 1);
            assert!(reasons[0].contains("age"));
        }
        other => panic!("expected Incompatible, got {other:?}"),
    }
}

#[test]
fn removing_a_node_label_is_incompatible() {
    let from = schema(
        r#"
        schema graph_v1 {
          node Person { id: NodeId }
          node Organization { id: NodeId }
        }
        "#,
    );
    let to = schema(r#"schema graph_v2 { node Person { id: NodeId } }"#);

    match SpecSchemaEvolution.diff(&from, &to) {
        EvolutionKind::Incompatible { reasons } => {
            assert_eq!(reasons.len(), 1);
            assert!(reasons[0].contains("Organization"));
        }
        other => panic!("expected Incompatible, got {other:?}"),
    }
}

#[test]
fn renaming_a_property_is_reported_as_a_removal() {
    let from = schema(
        r#"schema graph_v1 { node Person { id: NodeId name: String } }"#,
    );
    let to = schema(
        r#"schema graph_v2 { node Person { id: NodeId full_name: String } }"#,
    );

    match SpecSchemaEvolution.diff(&from, &to) {
        EvolutionKind::Incompatible { reasons } => {
            assert_eq!(reasons.len(), 1);
            assert!(reasons[0].contains("name") && !reasons[0].contains("full_name"));
        }
        other => panic!("expected Incompatible, got {other:?}"),
    }
}

#[test]
fn accumulates_multiple_incompatible_reasons() {
    let from = schema(
        r#"
        schema graph_v1 {
          node Person { id: NodeId name: String age: Int64 }
        }
        "#,
    );
    let to = schema(
        r#"
        schema graph_v2 {
          node Person { id: NodeId age: String }
        }
        "#,
    );

    match SpecSchemaEvolution.diff(&from, &to) {
        EvolutionKind::Incompatible { reasons } => assert_eq!(reasons.len(), 2),
        other => panic!("expected Incompatible, got {other:?}"),
    }
}

#[test]
fn parses_the_spec_example() {
    let source = r#"
        schema graph_v1 {
          node Person {
            id: NodeId
            @indexed name: String
            birth_year: Int64?
          }

          node Organization {
            id: NodeId
            name: String
          }

          edge WORKS_AT {
            from: Person
            to: Organization
            since: Timestamp?
          }

          edge KNOWS {
            from: Person
            to: Person
            since: Timestamp?
          }
        }
    "#;

    PestSchemaParser
        .parse(source)
        .expect("the example should parse");
}

#[test]
fn rejects_a_property_missing_a_type() {
    let source = r#"
        schema graph_v1 {
          node Person {
            id: NodeId
            name:
          }
        }
    "#;

    assert!(PestSchemaParser
        .parse(source).is_err());
}

#[test]
fn parses_the_spec_example_into_the_expected_schema() {
    let source = r#"
        schema graph_v1 {
          node Person {
            id: NodeId
            @indexed name: String
            birth_year: Int64?
          }

          node Organization {
            id: NodeId
            name: String
          }

          edge WORKS_AT {
            from: Person
            to: Organization
            since: Timestamp?
          }

          edge KNOWS {
            from: Person
            to: Person
            since: Timestamp?
          }
        }
    "#;

    let schema = PestSchemaParser
        .parse(source)
        .expect("the example should parse");

    assert_eq!(schema.version, "graph_v1");
    assert_eq!(schema.nodes.len(), 2);
    assert_eq!(schema.edges.len(), 2);

    let person = schema
        .node_def(&Label("Person".into()))
        .expect("Person node should be present");
    assert_eq!(person.properties.len(), 2);

    let name = person
        .properties
        .iter()
        .find(|p| p.name == "name")
        .expect("name property");
    assert_eq!(name.ty, ScalarType::String);
    assert!(name.indexed);
    assert!(!name.optional);

    let birth_year = person
        .properties
        .iter()
        .find(|p| p.name == "birth_year")
        .expect("birth_year property");
    assert_eq!(birth_year.ty, ScalarType::Int64);
    assert!(!birth_year.indexed);
    assert!(birth_year.optional);

    let works_at = schema
        .edge_def(&EdgeType("WORKS_AT".into()))
        .expect("WORKS_AT edge should be present");
    assert_eq!(works_at.from, Label("Person".into()));
    assert_eq!(works_at.to, Label("Organization".into()));
    assert_eq!(works_at.properties.len(), 1);

    let knows = schema
        .edge_def(&EdgeType("KNOWS".into()))
        .expect("KNOWS edge should be present");
    assert_eq!(knows.from, Label("Person".into()));
    assert_eq!(knows.to, Label("Person".into()));
}

#[test]
fn parses_list_and_vector_property_types() {
    let source = r#"
        schema graph_v1 {
          node Document {
            id: NodeId
            tags: List<String>
            embedding: Vector<Float32, 768>
          }
        }
    "#;

    let schema = PestSchemaParser
        .parse(source)
        .expect("List<T> and Vector<Float32, N> properties should parse");
    let doc = schema.node_def(&Label("Document".into())).unwrap();

    let tags = doc.properties.iter().find(|p| p.name == "tags").unwrap();
    assert_eq!(tags.ty, ScalarType::List(Box::new(ScalarType::String)));

    let embedding = doc
        .properties
        .iter()
        .find(|p| p.name == "embedding")
        .unwrap();
    assert_eq!(embedding.ty, ScalarType::Vector { dim: 768 });
}

#[test]
fn rejects_a_property_without_a_type() {
    let source = r#"
        schema graph_v1 {
          node Person {
            id: NodeId
            name:
          }
        }
    "#;

    let err = PestSchemaParser.parse(source).unwrap_err();
    assert!(matches!(err, SchemaError::Parse(_)));
}

#[test]
fn rejects_a_duplicate_node_label() {
    let source = r#"
        schema graph_v1 {
          node Person { id: NodeId }
          node Person { id: NodeId }
        }
    "#;

    let err = PestSchemaParser.parse(source).unwrap_err();
    assert!(matches!(err, SchemaError::Parse(_)));
}

#[test]
fn rejects_a_duplicate_edge_type() {
    let source = r#"
        schema graph_v1 {
          node Person { id: NodeId }
          edge KNOWS { from: Person to: Person }
          edge KNOWS { from: Person to: Person }
        }
    "#;

    let err = PestSchemaParser.parse(source).unwrap_err();
    assert!(matches!(err, SchemaError::Parse(_)));
}

#[test]
fn rejects_an_edge_type_with_unknown_source_label() {
    let source = r#"
        schema graph_v1 {
          node Organization { id: NodeId }
          edge WORKS_AT {
            from: Person
            to: Organization
          }
        }
    "#;

    let err = PestSchemaParser.parse(source).unwrap_err();
    assert!(matches!(err, SchemaError::Parse(_)));
}

#[test]
fn rejects_an_edge_type_with_unknown_target_label() {
    let source = r#"
        schema graph_v1 {
          node Person { id: NodeId }
          edge WORKS_AT {
            from: Person
            to: Organization
          }
        }
    "#;

    let err = PestSchemaParser.parse(source).unwrap_err();
    assert!(matches!(err, SchemaError::Parse(_)));
}

#[test]
fn partition_of_is_deterministic_and_in_range() {
    for id in 0..1000u64 {
        let p = partition_of(NodeId(id), 16);
        assert!(p < 16);
        assert_eq!(p, partition_of(NodeId(id), 16));
    }
}

#[test]
fn datadog_infra_schema_parses() {
    let schema = PestSchemaParser
        .parse(DATADOG_INFRA)
        .expect("the schema should be valid IDL");

    for label in [
        "CloudAccount",
        "Team",
        "Service",
        "Host",
        "Container",
        "Monitor",
        "Dashboard",
    ] {
        assert!(
            schema.node_def(&Label(label.to_string())).is_some(),
            "missing node {label}"
        );
    }
    for edge_type in [
        "CONTAINS",
        "OWNS",
        "RUNS_ON",
        "PART_OF",
        "MONITORS",
        "DEPENDS_ON",
        "DISPLAYS",
    ] {
        assert!(
            schema.edge_def(&EdgeType(edge_type.to_string())).is_some(),
            "missing edge type {edge_type}"
        );
    }
}

#[test]
fn least_privilege_schema_parses() {
    let schema = PestSchemaParser
        .parse(LEAST_PRIVILEGE)
        .expect("the schema should be valid IDL");

    for label in ["Workload", "IAMRole", "DataStore"] {
        assert!(
            schema.node_def(&Label(label.to_string())).is_some(),
            "missing node {label}"
        );
    }
    for edge_type in ["ASSUMES", "GRANTS", "RAN_AS", "ACCESSED"] {
        assert!(
            schema.edge_def(&EdgeType(edge_type.to_string())).is_some(),
            "missing edge type {edge_type}"
        );
    }
}

/// Declared and observed access never share an edge type, and `ACCESSED`
/// starts at the workload.
#[test]
fn declared_and_observed_access_stay_on_separate_edge_types() {
    let schema = PestSchemaParser.parse(LEAST_PRIVILEGE).expect("valid IDL");

    let grants = schema
        .edge_def(&EdgeType("GRANTS".to_string()))
        .expect("GRANTS edge");
    assert_eq!(grants.from.0, "IAMRole");
    assert_eq!(grants.to.0, "DataStore");

    let accessed = schema
        .edge_def(&EdgeType("ACCESSED".to_string()))
        .expect("ACCESSED edge");
    assert_eq!(
        accessed.from.0, "Workload",
        "ACCESSED must start at the actor (Workload), not the vehicle (IAMRole)"
    );
    assert_eq!(accessed.to.0, "DataStore");

    assert_ne!(
        (grants.from.0.as_str(), grants.to.0.as_str()),
        (accessed.from.0.as_str(), accessed.to.0.as_str()),
        "GRANTS (declared) and ACCESSED (observed) must not share an endpoint shape that could tempt collapsing them"
    );
}


/// Each reason is worded, types as they are written in the engine.
#[test]
fn reasons_of_a_change_are_exact() {
    let from = schema(
        "schema a { node A { id: NodeId x: Int64 y: List<String> } node B { id: NodeId } edge E { from: A to: A } edge F { from: A to: A z: Bool } }",
    );
    let to = schema(
        "schema b { node A { id: NodeId x: Vector<Float32, 3> } edge F { from: A to: A z: Bytes } }",
    );
    match SpecSchemaEvolution.diff(&from, &to) {
        EvolutionKind::Incompatible { reasons } => {
            assert!(reasons
                .iter()
                .any(|r| r.contains("property x changed type from Int64 to Vector { dim: 3 }")));
            assert!(reasons.iter().any(|r| r.contains("property y was removed")));
            assert!(reasons.iter().any(|r| r.contains("B")));
            assert!(reasons.iter().any(|r| r.contains("E")));
            assert!(reasons
                .iter()
                .any(|r| r.contains("property z changed type from Bool to Bytes")));
            assert_eq!(reasons.len(), 5);
        }
        other => panic!("expected Incompatible, got {other:?}"),
    }
}

/// XXH3 of the eight little-endian bytes of an id, against values of the
/// reference implementation of the hash.
#[test]
fn node_hashes_are_those_of_xxh3() {
    for id in [0u64, 1, 2, 42, u64::MAX] {
        assert_eq!(
            stable_hash(id),
            xxhash_rust::xxh3::xxh3_64(&id.to_le_bytes())
        );
        assert_ne!(stable_hash(id), id);
        assert_eq!(
            partition_of(NodeId(id), 7),
            (stable_hash(id) % 7) as u32
        );
    }
    assert_eq!(partition_of_hash(23, 5), 3);
    assert_eq!(partition_of(NodeId(99), 1), 0);
}

/// Comments run to the end of their line, and do not matter.
#[test]
fn comments_in_a_schema_do_not_matter() {
    let plain = schema("schema s { node A { id: NodeId } }");
    let commented = schema("schema s { // one\n node A { // two\n id: NodeId }\n// three\n}");
    assert_eq!(plain.version, commented.version);
    assert_eq!(plain.nodes.len(), commented.nodes.len());
    assert_eq!(
        SpecSchemaEvolution.diff(&plain, &commented),
        EvolutionKind::Compatible
    );
}

#[test]
fn rejects_text_behind_a_schema() {
    let err = PestSchemaParser
        .parse("schema s { node A { id: NodeId } } extra")
        .unwrap_err();
    assert!(matches!(err, SchemaError::Parse(_)));
}
