//! The query language: its grammar and its parser.
use graph_engine::dsl::floats::{bind_floats, float_texts};
use graph_engine::dsl::parser::{Parser, PestParser};
use graph_engine::dsl::{
    ComparisonOp, Direction, DslError, HopRange, Literal, OrderBy, PatternStep, PropertyFilter,
    PropertyRef, ReturnItem, SortDirection, WhereCondition,
};
use graph_engine::maps::NamedMap;
use graph_engine::schema::{EdgeType, Label};

#[test]
fn parses_the_k_hop_example() {
    let source = r#"
        MATCH (p:Person {name: "Alice"})-[:KNOWS*1..3]->(friend:Person)
        WHERE friend.birth_year > 1990
        RETURN friend
    "#;

    PestParser.parse(source).expect("the k-hop example should parse");
}

#[test]
fn parses_the_pattern_matching_example() {
    let source = r#"
        MATCH (p:Person)-[:WORKS_AT]->(o:Organization)<-[:WORKS_AT]-(colleague:Person)
        WHERE p.name = "Alice" AND colleague <> p
        RETURN colleague, o
    "#;

    PestParser.parse(source)
        .expect("the pattern-matching example should parse");
}

#[test]
fn accepts_an_untyped_single_hop_edge() {
    let source = "MATCH (a)-->(b) RETURN a";

    PestParser.parse(source)
        .expect("a bare edge with no type or hop range should parse");
}

#[test]
fn grammar_rejects_a_query_missing_return() {
    let source = "MATCH (p:Person)";

    assert!(PestParser.parse(source).is_err());
}

#[test]
fn rejects_a_query_not_starting_with_match() {
    let source = "RETURN p";

    assert!(PestParser.parse(source).is_err());
}

#[test]
fn rejects_a_where_clause_with_a_dangling_and() {
    let source = r#"
        MATCH (p:Person)
        WHERE p.name = "Alice" AND
        RETURN p
    "#;

    assert!(PestParser.parse(source).is_err());
}

#[test]
fn parses_the_least_privilege_example() {
    let source = r#"
        MATCH (w:Workload)-[:ASSUMES]->(r:IAMRole)-[g:GRANTS]->(d:DataStore)
        WHERE d.data_class = "sensitive"
          AND NOT EXISTS {
            MATCH (w)-[a:ACCESSED]->(d)
            WHERE a.action = g.action AND a.last_seen >= "2024-05-01T00:00:00Z"
          }
        RETURN w.service, w.team, r.arn, g.action, d.arn
    "#;

    PestParser.parse(source)
        .expect("the least-privilege-via-telemetry example should parse");
}

#[test]
fn accepts_an_edge_alias_alone_with_no_type() {
    let source = "MATCH (a)-[e]->(b) RETURN e";
    PestParser.parse(source).expect("a bare edge alias should parse");
}

#[test]
fn accepts_a_return_item_with_a_property() {
    let source = "MATCH (p:Person) RETURN p.name";
    PestParser.parse(source).expect("RETURN alias.property should parse");
}

#[test]
fn accepts_order_by_and_limit() {
    let source =
        "MATCH (p:Person)-[:KNOWS*1..3]->(friend:Person) RETURN friend ORDER BY friend.birth_year DESC LIMIT 10";

    PestParser.parse(source).expect("ORDER BY ... LIMIT n should parse");
}

#[test]
fn accepts_a_bare_limit() {
    let source = "MATCH (p:Person) RETURN p LIMIT 5";

    PestParser.parse(source).expect("a bare LIMIT should parse");
}

#[test]
fn rejects_a_not_exists_clause_missing_its_closing_brace() {
    let source = r#"
        MATCH (w:Workload)
        WHERE NOT EXISTS { MATCH (w)-[a:ACCESSED]->(w)
        RETURN w
    "#;

    assert!(PestParser.parse(source).is_err());
}

#[test]
fn parses_a_single_node_pattern() {
    let query = PestParser
        .parse(r#"MATCH (p:Person {name: "Alice"}) RETURN p"#)
        .expect("valid DSL should parse");

    assert_eq!(query.pattern.steps.len(), 1);
    let PatternStep::Node(node) = &query.pattern.steps[0] else {
        panic!("expected a single node step");
    };
    assert_eq!(node.alias, "p");
    assert_eq!(node.label, Some(Label("Person".into())));
    assert_eq!(
        node.property_filters,
        vec![PropertyFilter {
            property: "name".into(),
            op: ComparisonOp::Eq,
            value: Literal::String("Alice".into()),
        }]
    );
    assert_eq!(
        query.returns,
        vec![ReturnItem {
            alias: "p".into(),
            property: None
        }]
    );
}

#[test]
fn parses_a_full_pattern_chain_with_a_hop_range() {
    let query = PestParser
        .parse("MATCH (p:Person)-[:KNOWS*1..3]->(friend:Person) RETURN friend")
        .expect("valid DSL should parse");

    assert_eq!(query.pattern.steps.len(), 3);

    let PatternStep::Edge(edge) = &query.pattern.steps[1] else {
        panic!("expected an edge step in the middle");
    };
    assert_eq!(edge.edge_type, Some(EdgeType("KNOWS".into())));
    assert_eq!(edge.direction, Direction::Outgoing);
    assert_eq!(edge.hops, HopRange { min: 1, max: 3 });
}

#[test]
fn parses_an_untyped_incoming_edge_with_default_hop_range() {
    let query = PestParser
        .parse("MATCH (a:Person)<--(b:Person) RETURN a")
        .expect("valid DSL should parse");

    let PatternStep::Edge(edge) = &query.pattern.steps[1] else {
        panic!("expected an edge step in the middle");
    };
    assert_eq!(edge.edge_type, None);
    assert_eq!(edge.direction, Direction::Incoming);
    assert_eq!(edge.hops, HopRange { min: 1, max: 1 });
}

#[test]
fn parses_a_where_clause_property_condition() {
    let query = PestParser
        .parse(
            r#"
            MATCH (p:Person)-[:KNOWS*1..3]->(friend:Person)
            WHERE friend.birth_year > 1990
            RETURN friend
            "#,
        )
        .expect("valid DSL should parse");

    assert_eq!(
        query.where_conditions,
        vec![WhereCondition::Property(
            "friend".into(),
            PropertyFilter {
                property: "birth_year".into(),
                op: ComparisonOp::Gt,
                value: Literal::Int64(1990),
            }
        )]
    );
}

#[test]
fn parses_a_where_clause_with_a_property_condition_and_an_alias_comparison() {
    let query = PestParser
        .parse(
            r#"
            MATCH (p:Person)-[:WORKS_AT]->(o:Organization)<-[:WORKS_AT]-(colleague:Person)
            WHERE p.name = "Alice" AND colleague <> p
            RETURN colleague, o
            "#,
        )
        .expect("valid DSL should parse");

    assert_eq!(
        query.where_conditions,
        vec![
            WhereCondition::Property(
                "p".into(),
                PropertyFilter {
                    property: "name".into(),
                    op: ComparisonOp::Eq,
                    value: Literal::String("Alice".into()),
                }
            ),
            WhereCondition::AliasComparison {
                left: "colleague".into(),
                op: ComparisonOp::Ne,
                right: "p".into(),
            },
        ]
    );
    assert_eq!(
        query.returns,
        vec![
            ReturnItem {
                alias: "colleague".into(),
                property: None
            },
            ReturnItem {
                alias: "o".into(),
                property: None
            },
        ]
    );
}

#[test]
fn parses_an_edge_alias() {
    let query = PestParser
        .parse("MATCH (r:IAMRole)-[g:GRANTS]->(d:DataStore) RETURN g")
        .expect("valid DSL should parse");

    let PatternStep::Edge(edge) = &query.pattern.steps[1] else {
        panic!("expected an edge step in the middle");
    };
    assert_eq!(edge.alias.as_deref(), Some("g"));
    assert_eq!(edge.edge_type, Some(EdgeType("GRANTS".into())));
}

#[test]
fn parses_return_items_with_and_without_a_property() {
    let query = PestParser
        .parse("MATCH (w:Workload)-[g:GRANTS]->(d:DataStore) RETURN w, g.action, d.arn")
        .expect("valid DSL should parse");

    assert_eq!(
        query.returns,
        vec![
            ReturnItem {
                alias: "w".into(),
                property: None
            },
            ReturnItem {
                alias: "g".into(),
                property: Some("action".into())
            },
            ReturnItem {
                alias: "d".into(),
                property: Some("arn".into())
            },
        ]
    );
}

#[test]
fn parses_a_property_to_property_comparison() {
    let query = PestParser
        .parse(
            r#"
            MATCH (w:Workload)-[a:ACCESSED]->(d:DataStore)
            WHERE a.action = w.kind
            RETURN a
            "#,
        )
        .expect("valid DSL should parse");

    assert_eq!(
        query.where_conditions,
        vec![WhereCondition::PropertyComparison {
            left: PropertyRef {
                alias: "a".into(),
                property: "action".into()
            },
            op: ComparisonOp::Eq,
            right: PropertyRef {
                alias: "w".into(),
                property: "kind".into()
            },
        }]
    );
}

#[test]
fn parses_the_least_privilege_example_into_the_expected_ast() {
    let query = PestParser
        .parse(
            r#"
            MATCH (w:Workload)-[:ASSUMES]->(r:IAMRole)-[g:GRANTS]->(d:DataStore)
            WHERE d.data_class = "sensitive"
              AND NOT EXISTS {
                MATCH (w)-[a:ACCESSED]->(d)
                WHERE a.action = g.action AND a.last_seen >= "2024-05-01T00:00:00Z"
              }
            RETURN w.service, w.team, r.arn, g.action, d.arn
            "#,
        )
        .expect("valid DSL should parse");

    assert_eq!(query.pattern.steps.len(), 5);
    let PatternStep::Edge(grants) = &query.pattern.steps[3] else {
        panic!("expected the GRANTS edge step");
    };
    assert_eq!(grants.alias.as_deref(), Some("g"));

    assert_eq!(query.where_conditions.len(), 2);
    assert_eq!(
        query.where_conditions[0],
        WhereCondition::Property(
            "d".into(),
            PropertyFilter {
                property: "data_class".into(),
                op: ComparisonOp::Eq,
                value: Literal::String("sensitive".into()),
            }
        )
    );

    let WhereCondition::NotExists(subquery) = &query.where_conditions[1] else {
        panic!("expected a NOT EXISTS condition");
    };
    assert_eq!(subquery.pattern.steps.len(), 3);
    let PatternStep::Node(anchor_w) = &subquery.pattern.steps[0] else {
        panic!("expected the (w) anchor node");
    };
    assert_eq!(anchor_w.alias, "w");
    assert_eq!(anchor_w.label, None, "re-anchored alias carries no label");
    assert!(anchor_w.property_filters.is_empty());
    let PatternStep::Edge(accessed) = &subquery.pattern.steps[1] else {
        panic!("expected the ACCESSED edge step");
    };
    assert_eq!(accessed.alias.as_deref(), Some("a"));
    assert_eq!(accessed.edge_type, Some(EdgeType("ACCESSED".into())));

    assert_eq!(
        subquery.where_conditions,
        vec![
            WhereCondition::PropertyComparison {
                left: PropertyRef {
                    alias: "a".into(),
                    property: "action".into()
                },
                op: ComparisonOp::Eq,
                right: PropertyRef {
                    alias: "g".into(),
                    property: "action".into()
                },
            },
            WhereCondition::Property(
                "a".into(),
                PropertyFilter {
                    property: "last_seen".into(),
                    op: ComparisonOp::Gte,
                    value: Literal::String("2024-05-01T00:00:00Z".into()),
                }
            ),
        ]
    );

    assert_eq!(
        query.returns,
        vec![
            ReturnItem {
                alias: "w".into(),
                property: Some("service".into())
            },
            ReturnItem {
                alias: "w".into(),
                property: Some("team".into())
            },
            ReturnItem {
                alias: "r".into(),
                property: Some("arn".into())
            },
            ReturnItem {
                alias: "g".into(),
                property: Some("action".into())
            },
            ReturnItem {
                alias: "d".into(),
                property: Some("arn".into())
            },
        ]
    );
}

#[test]
fn parses_order_by_and_limit() {
    let query = PestParser
        .parse(
            "MATCH (p:Person)-[:KNOWS*1..3]->(friend:Person) \
             RETURN friend ORDER BY friend.birth_year DESC LIMIT 10",
        )
        .expect("valid DSL should parse");

    assert_eq!(
        query.order_by,
        Some(OrderBy {
            alias: "friend".into(),
            property: "birth_year".into(),
            direction: SortDirection::Desc,
        })
    );
    assert_eq!(query.limit, Some(10));
}

#[test]
fn order_by_direction_defaults_to_ascending_and_limit_is_independent() {
    let query = PestParser
        .parse("MATCH (p:Person) RETURN p ORDER BY p.name")
        .expect("valid DSL should parse");

    assert_eq!(
        query.order_by,
        Some(OrderBy {
            alias: "p".into(),
            property: "name".into(),
            direction: SortDirection::Asc,
        })
    );
    assert_eq!(query.limit, None);
}

#[test]
fn parses_a_bare_limit_with_no_order_by() {
    let query = PestParser
        .parse("MATCH (p:Person) RETURN p LIMIT 5")
        .expect("valid DSL should parse");

    assert_eq!(query.order_by, None);
    assert_eq!(query.limit, Some(5));
}

#[test]
fn rejects_malformed_dsl_with_a_syntax_error() {
    let err = PestParser.parse("MATCH (p:Person RETURN p").unwrap_err();
    assert!(matches!(err, DslError::Syntax { .. }));
}

#[test]
fn parser_rejects_a_query_missing_return() {
    let err = PestParser.parse("MATCH (p:Person)").unwrap_err();
    assert!(matches!(err, DslError::Syntax { .. }));
}


fn literal_of(dsl: &str) -> Literal {
    let query = PestParser.parse(dsl).expect("valid DSL");
    let WhereCondition::Property(_, filter) = &query.where_conditions[0] else {
        panic!("expected a property condition");
    };
    filter.value.clone()
}

#[test]
fn literals_of_every_kind_are_read() {
    let with = |l: &str| literal_of(&format!("MATCH (p:P) WHERE p.x = {l} RETURN p"));
    assert_eq!(with("7"), Literal::Int64(7));
    assert_eq!(with("-7"), Literal::Int64(-7));
    assert_eq!(with("-9223372036854775808"), Literal::Int64(i64::MIN));
    assert_eq!(with("1.5"), Literal::FloatText("1.5".into()));
    assert_eq!(with("-0.25"), Literal::FloatText("-0.25".into()));
    assert_eq!(with("true"), Literal::Bool(true));
    assert_eq!(with("false"), Literal::Bool(false));
    assert_eq!(with("\"a b\""), Literal::String("a b".into()));
}

/// An integer that does not fit in 64 bits is refused.
#[test]
fn integers_that_do_not_fit_are_refused() {
    assert!(PestParser
        .parse("MATCH (p:P) WHERE p.x = 9223372036854775808 RETURN p")
        .is_err());
}

#[test]
fn every_comparison_is_read() {
    for (sign, op) in [
        ("=", ComparisonOp::Eq),
        ("<>", ComparisonOp::Ne),
        ("<", ComparisonOp::Lt),
        ("<=", ComparisonOp::Lte),
        (">", ComparisonOp::Gt),
        (">=", ComparisonOp::Gte),
    ] {
        let query = PestParser
            .parse(&format!("MATCH (p:P) WHERE p.x {sign} 1 RETURN p"))
            .expect("valid DSL");
        let WhereCondition::Property(alias, filter) = &query.where_conditions[0] else {
            panic!("expected a property condition");
        };
        assert_eq!(alias, "p");
        assert_eq!(filter.op, op);
    }
}

/// Where a query is wrong, and how, is said in words.
#[test]
fn syntax_errors_say_where_they_are() {
    let err = PestParser.parse("RETURN p").unwrap_err();
    assert_eq!(err.message(), "syntax error at position 0: expected MATCH");
    let err = PestParser.parse("MATCH (p:Person)").unwrap_err();
    assert_eq!(
        err.message(),
        "syntax error at position 16: expected a RETURN clause"
    );
}

/// An error is where the text stops following the grammar, in bytes.
#[test]
fn syntax_errors_are_where_the_text_goes_wrong() {
    let at = |dsl: &str| match PestParser.parse(dsl).unwrap_err() {
        DslError::Syntax { pos, .. } => pos,
    };
    assert_eq!(at("MATCH (p:Person RETURN p"), 16);
    assert_eq!(at("MATCH (p)-[e:KNOWS*1..]->(q) RETURN q"), 22);
    assert_eq!(at("MATCH (p)-[:KNOWS]->(q RETURN q"), 23);
    assert_eq!(at("MATCH (p) WHERE p.x = 1 AND RETURN p"), 35);
    assert_eq!(at("MATCH (p) WHERE p.x > RETURN p"), 29);
    assert_eq!(at("MATCH (p) RETURN p LIMIT many"), 25);
    assert_eq!(at("MATCH (p) RETURN p ORDER p.x"), 25);
    assert_eq!(at("MATCH (p) RETURN p; more"), 18);
    assert_eq!(at("MATCH (p {name: \"\u{e9}\" RETURN p"), 21);
}

/// The texts of numbers with a fraction are found wherever they stand, and
/// replaced by their doubles.
#[test]
fn doubles_take_the_place_of_their_texts() {
    let query = PestParser
        .parse(
            r#"
            MATCH (p:P {x: 1.5})-[e:E]->(q:Q)
            WHERE q.y > 2.5 AND NOT EXISTS { MATCH (p)-[f:F]->(q) WHERE f.z = 3.5 }
            RETURN p
            "#,
        )
        .expect("valid DSL");
    let mut texts = float_texts(&query);
    texts.sort();
    assert_eq!(texts, vec!["1.5", "2.5", "3.5"]);
    let mut doubles: NamedMap<u64> = NamedMap::new();
    for t in &texts {
        doubles.insert(t.clone(), t.parse::<f64>().unwrap().to_bits());
    }
    let bound = bind_floats(query, &doubles);
    assert!(float_texts(&bound).is_empty());
    let PatternStep::Node(p) = &bound.pattern.steps[0] else {
        panic!("expected a node");
    };
    assert_eq!(p.property_filters[0].value, Literal::Float64(1.5f64.to_bits()));
    let WhereCondition::Property(_, f) = &bound.where_conditions[0] else {
        panic!("expected a property condition");
    };
    assert_eq!(f.value, Literal::Float64(2.5f64.to_bits()));
}
