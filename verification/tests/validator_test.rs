//! Validation of queries against a schema.
use graph_engine::dsl::parser::{Parser, PestParser};
use graph_engine::dsl::validator::{
    debug_of_errors, SchemaValidator, ValidationError, Validator,
};
use graph_engine::dsl::Query;
use graph_engine::schema::parser::{PestSchemaParser, SchemaParser};
use graph_engine::schema::Schema;

const LEAST_PRIVILEGE: &str = r#"
schema least_privilege {
  node Workload {
    id: NodeId
    @indexed workload_id: String
    kind: String
    cloud_account: String
    env: String
    service: String?
    team: String?
    observed_since: Timestamp
  }

  node IAMRole {
    id: NodeId
    @indexed arn: String
    cloud_account: String
    trust_principals: List<String>
  }

  node DataStore {
    id: NodeId
    @indexed arn: String
    kind: String
    @indexed data_class: String
  }

  // Declared access.
  edge ASSUMES {
    from: Workload
    to: IAMRole
  }

  edge GRANTS {
    from: IAMRole
    to: DataStore
    action: String
  }

  // Observed access.
  edge RAN_AS {
    from: Workload
    to: IAMRole
    last_seen: Timestamp
  }

  edge ACCESSED {
    from: Workload
    to: DataStore
    action: String
    last_seen: Timestamp
  }
}
"#;

fn schema() -> Schema {
    PestSchemaParser
        .parse(
            r#"
                schema graph_v1 {
                  node Person {
                    id: NodeId
                    name: String
                    birth_year: Int64?
                  }
                  node Organization {
                    id: NodeId
                    name: String
                  }
                  edge WORKS_AT {
                    from: Person
                    to: Organization
                  }
                  edge KNOWS {
                    from: Person
                    to: Person
                  }
                }
                "#,
        )
        .expect("valid IDL")
}

fn least_privilege_schema() -> Schema {
    PestSchemaParser.parse(LEAST_PRIVILEGE).expect("valid IDL")
}

fn query(dsl: &str) -> Query {
    PestParser.parse(dsl).expect("valid DSL")
}

#[test]
fn a_valid_query_passes() {
    let q = query(
        r#"
        MATCH (p:Person {name: "Alice"})-[:KNOWS*1..3]->(friend:Person)
        WHERE friend.birth_year > 1990
        RETURN friend
        "#,
    );

    assert_eq!(SchemaValidator.validate(&q, &schema()), Ok(()));
}

#[test]
fn an_unknown_label_fails() {
    let q = query("MATCH (p:Robot) RETURN p");

    let errors = SchemaValidator.validate(&q, &schema()).unwrap_err();
    assert_eq!(errors, vec![ValidationError::UnknownLabel("Robot".into())]);
}

#[test]
fn an_unknown_edge_type_fails() {
    let q = query("MATCH (p:Person)-[:LIKES]->(o:Organization) RETURN p");

    let errors = SchemaValidator.validate(&q, &schema()).unwrap_err();
    assert_eq!(
        errors,
        vec![ValidationError::UnknownEdgeType("LIKES".into())]
    );
}

#[test]
fn an_incompatible_operator_fails() {
    let q = query(
        r#"
        MATCH (p:Person)
        WHERE p.name > "Alice"
        RETURN p
        "#,
    );

    let errors = SchemaValidator.validate(&q, &schema()).unwrap_err();
    assert_eq!(
        errors,
        vec![ValidationError::IncompatibleOperator {
            property: "name".into()
        }]
    );
}

#[test]
fn an_unknown_property_fails() {
    let q = query(
        r#"
        MATCH (p:Person)
        WHERE p.nickname = "Al"
        RETURN p
        "#,
    );

    let errors = SchemaValidator.validate(&q, &schema()).unwrap_err();
    assert_eq!(
        errors,
        vec![ValidationError::UnknownProperty {
            label: "Person".into(),
            property: "nickname".into(),
        }]
    );
}

#[test]
fn accumulates_multiple_errors() {
    let q = query("MATCH (p:Robot)-[:LIKES]->(o:Organization) RETURN p");

    let errors = SchemaValidator.validate(&q, &schema()).unwrap_err();
    assert_eq!(errors.len(), 2);
}

#[test]
fn an_unbound_alias_in_a_comparison_fails() {
    let q = query("MATCH (p:Person) WHERE p <> ghost RETURN p");

    let errors = SchemaValidator.validate(&q, &schema()).unwrap_err();
    assert_eq!(errors, vec![ValidationError::UnknownAlias("ghost".into())]);
}

#[test]
fn the_least_privilege_example_validates() {
    let q = query(
        r#"
        MATCH (w:Workload)-[:ASSUMES]->(r:IAMRole)-[g:GRANTS]->(d:DataStore)
        WHERE d.data_class = "sensitive"
          AND NOT EXISTS {
            MATCH (w)-[a:ACCESSED]->(d)
            WHERE a.action = g.action AND a.last_seen >= "2024-05-01T00:00:00Z"
          }
        RETURN w.service, w.team, r.arn, g.action, d.arn
        "#,
    );

    assert_eq!(
        SchemaValidator.validate(&q, &least_privilege_schema()),
        Ok(())
    );
}

#[test]
fn an_edge_alias_on_a_variable_length_hop_fails() {
    let q = query("MATCH (w:Workload)-[g:GRANTS*1..3]->(d:DataStore) RETURN g");

    let errors = SchemaValidator
        .validate(&q, &least_privilege_schema())
        .unwrap_err();
    assert_eq!(
        errors,
        vec![ValidationError::EdgeAliasOnVariableLengthHop {
            alias: "g".into(),
            min: 1,
            max: 3,
        }]
    );
}

#[test]
fn a_not_exists_anchor_not_bound_outside_fails() {
    let q = query(
        r#"
        MATCH (w:Workload)
        WHERE NOT EXISTS { MATCH (w)-[a:ACCESSED]->(ghost) }
        RETURN w
        "#,
    );

    let errors = SchemaValidator
        .validate(&q, &least_privilege_schema())
        .unwrap_err();
    assert_eq!(
        errors,
        vec![ValidationError::NotExistsAnchorNotPreBound("ghost".into())]
    );
}

#[test]
fn a_not_exists_anchor_redeclaring_a_label_fails() {
    let q = query(
        r#"
        MATCH (w:Workload)-[:ASSUMES]->(r:IAMRole)-[g:GRANTS]->(d:DataStore)
        WHERE NOT EXISTS { MATCH (w:Workload)-[a:ACCESSED]->(d) }
        RETURN w
        "#,
    );

    let errors = SchemaValidator
        .validate(&q, &least_privilege_schema())
        .unwrap_err();
    assert_eq!(
        errors,
        vec![ValidationError::NotExistsAnchorNotPreBound("w".into())]
    );
}

#[test]
fn a_not_exists_incoming_edge_fails() {
    let q = query(
        r#"
        MATCH (w:Workload)-[:ASSUMES]->(r:IAMRole)-[g:GRANTS]->(d:DataStore)
        WHERE NOT EXISTS { MATCH (d)<-[a:ACCESSED]-(w) }
        RETURN w
        "#,
    );

    let errors = SchemaValidator
        .validate(&q, &least_privilege_schema())
        .unwrap_err();
    assert!(errors.contains(&ValidationError::NotExistsMustBeOutgoing));
}

#[test]
fn a_nested_not_exists_fails() {
    let q = query(
        r#"
        MATCH (w:Workload)-[:ASSUMES]->(r:IAMRole)-[g:GRANTS]->(d:DataStore)
        WHERE NOT EXISTS {
          MATCH (w)-[a:ACCESSED]->(d)
          WHERE NOT EXISTS { MATCH (w)-[a2:RAN_AS]->(r) }
        }
        RETURN w
        "#,
    );

    let errors = SchemaValidator
        .validate(&q, &least_privilege_schema())
        .unwrap_err();
    assert!(errors.contains(&ValidationError::NestedNotExists));
}

#[test]
fn a_valid_order_by_passes() {
    let q = query(
        r#"
        MATCH (p:Person)-[:KNOWS*1..3]->(friend:Person)
        RETURN friend ORDER BY friend.birth_year DESC
        "#,
    );

    assert_eq!(SchemaValidator.validate(&q, &schema()), Ok(()));
}

#[test]
fn an_order_by_on_an_unbound_alias_fails() {
    let q = query("MATCH (p:Person) RETURN p ORDER BY ghost.name");

    let errors = SchemaValidator.validate(&q, &schema()).unwrap_err();
    assert_eq!(errors, vec![ValidationError::UnknownAlias("ghost".into())]);
}

#[test]
fn an_order_by_on_an_unknown_property_fails() {
    let q = query("MATCH (p:Person) RETURN p ORDER BY p.nickname");

    let errors = SchemaValidator.validate(&q, &schema()).unwrap_err();
    assert_eq!(
        errors,
        vec![ValidationError::UnknownProperty {
            label: "Person".into(),
            property: "nickname".into(),
        }]
    );
}

#[test]
fn a_return_item_on_an_unknown_edge_property_fails() {
    let q = query(
        r#"
        MATCH (r:IAMRole)-[g:GRANTS]->(d:DataStore)
        RETURN g.nonexistent
        "#,
    );

    let errors = SchemaValidator
        .validate(&q, &least_privilege_schema())
        .unwrap_err();
    assert_eq!(
        errors,
        vec![ValidationError::UnknownProperty {
            label: "GRANTS".into(),
            property: "nonexistent".into(),
        }]
    );
}


/// Each fault has its words, and its form in a list.
#[test]
fn faults_are_worded() {
    let q = query(
        r#"
        MATCH (w:Workload)-[g:GRANTS*1..3]->(d:DataStore)
        WHERE NOT EXISTS { MATCH (w)-[a:ACCESSED]->(d)-[b:ACCESSED]->(w) }
        RETURN w.nothing, ghost, w
        "#,
    );
    let errors = SchemaValidator
        .validate(&q, &least_privilege_schema())
        .unwrap_err();
    assert!(errors.contains(&ValidationError::NotExistsWrongShape(5)));
    let said: Vec<String> = errors.iter().map(|e| e.message()).collect();
    assert!(said.contains(&"unknown property nothing on Workload".to_string()));
    assert!(said.contains(&"alias ghost is not bound by this pattern".to_string()));
    assert!(said.iter().any(|m| m.contains("got 5 pattern step(s)")));
    assert_eq!(debug_of_errors(&errors), format!("{errors:?}"));
}

#[test]
fn every_fault_is_listed_as_it_is_written() {
    let all = vec![
        ValidationError::UnknownLabel("a\"b".into()),
        ValidationError::UnknownEdgeType("E".into()),
        ValidationError::UnknownProperty {
            label: "L".into(),
            property: "p\n".into(),
        },
        ValidationError::IncompatibleOperator {
            property: "p".into(),
        },
        ValidationError::UnknownAlias("x".into()),
        ValidationError::EdgeAliasOnVariableLengthHop {
            alias: "g".into(),
            min: 1,
            max: 30,
        },
        ValidationError::NotExistsAnchorNotPreBound("w".into()),
        ValidationError::NotExistsWrongShape(7),
        ValidationError::NestedNotExists,
        ValidationError::NotExistsMustBeOutgoing,
    ];
    assert_eq!(debug_of_errors(&all), format!("{all:?}"));
    assert_eq!(debug_of_errors(&Vec::new()), "[]");
    assert_eq!(
        all[5].message(),
        "edge alias g is on a variable-length hop (*1..30) — edge aliases are only valid on a single hop"
    );
    assert_eq!(
        all[9].message(),
        "NOT EXISTS { ... } edge must be outgoing (`->`), not incoming (`<-`)"
    );
}

/// A value of an indexed property can be a list, but no operator fits it.
#[test]
fn no_operator_fits_a_list() {
    let q = query(r#"MATCH (r:IAMRole) WHERE r.trust_principals = "x" RETURN r"#);
    let errors = SchemaValidator
        .validate(&q, &least_privilege_schema())
        .unwrap_err();
    assert_eq!(
        errors,
        vec![ValidationError::IncompatibleOperator {
            property: "trust_principals".into()
        }]
    );
}

/// The alias of an edge can be returned whether or not the edge has a type; a
/// property of it is declared under a type.
#[test]
fn an_edge_without_a_type_can_be_returned() {
    let schema = PestSchemaParser
        .parse(
            "schema graph_v1 { node Person { id: NodeId } edge KNOWS { from: Person to: Person } }",
        )
        .expect("valid IDL");
    let validated = |dsl: &str| SchemaValidator.validate(&query(dsl), &schema);
    assert!(validated("MATCH (a:Person)-[e]->(b:Person) RETURN e").is_ok());
    assert!(validated("MATCH (a:Person)-[e:KNOWS]->(b:Person) RETURN e").is_ok());
    assert_eq!(
        validated("MATCH (a:Person)-[e]->(b:Person) RETURN e.since").unwrap_err(),
        vec![ValidationError::UnknownAlias("e".to_string())]
    );
    assert_eq!(
        validated("MATCH (a:Person)-[e]->(b:Person) RETURN f").unwrap_err(),
        vec![ValidationError::UnknownAlias("f".to_string())]
    );
}
