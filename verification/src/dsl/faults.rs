//! Which faults a query has, said of the query and the schema.
//!
//! A fault is reported exactly where the query has it.
use crate::dsl::validator;
use crate::dsl::validator::{ScopeView, ValidationErrorView};
use crate::dsl::{
    ComparisonOp, Direction, EdgePatternView, ExistsSubqueryView, NodePatternView, OrderByView,
    PatternStepView, PropertyFilterView, QueryView, ReturnItemView, WhereConditionView,
};
use crate::schema;
use crate::schema::{PropertyDefView, ScalarType, SchemaView};
use vstd::prelude::*;

verus! {

/// That values of a type can be compared so: for equality unless they are lists
/// or vectors, by their order where they are numbers or timestamps.
pub open spec fn can_compare(ty: ScalarType, op: ComparisonOp) -> bool {
    match ty {
        ScalarType::Int64 | ScalarType::Float64 | ScalarType::Timestamp => true,
        ScalarType::Bool | ScalarType::String | ScalarType::Bytes => op == ComparisonOp::Eq || op
            == ComparisonOp::Ne,
        ScalarType::List(_) => false,
        ScalarType::Vector { dim } => false,
    }
}

/// That a node of the pattern stands for an alias.
pub open spec fn is_node(steps: Seq<PatternStepView>, alias: Seq<char>) -> bool {
    exists|k: int|
        0 <= k < steps.len() && (#[trigger] steps[k]) is Node && (steps[k]->Node_0).alias == alias
}

/// That an edge of the pattern has an alias.
pub open spec fn is_edge(steps: Seq<PatternStepView>, alias: Seq<char>) -> bool {
    exists|k: int|
        0 <= k < steps.len() && (#[trigger] steps[k]) is Edge && (steps[k]->Edge_0).alias == Some(
            alias,
        )
}

/// That a node of the pattern gives an alias a label.
pub open spec fn labels(step: PatternStepView, alias: Seq<char>, label: Seq<char>) -> bool {
    step is Node && (step->Node_0).alias == alias && (step->Node_0).label == Some(label)
}

/// That an edge of the pattern gives an alias a type.
pub open spec fn types(step: PatternStepView, alias: Seq<char>, t: Seq<char>) -> bool {
    step is Edge && (step->Edge_0).alias == Some(alias) && (step->Edge_0).edge_type == Some(t)
}

/// That a label is the last one that the pattern gives an alias.
pub open spec fn is_labelled(steps: Seq<PatternStepView>, alias: Seq<char>, label: Seq<char>) -> bool {
    exists|k: int|
        0 <= k < steps.len() && labels(#[trigger] steps[k], alias, label) && forall|
            j: int,
            other: Seq<char>,
        |
            k < j < steps.len() ==> !(#[trigger] labels(steps[j], alias, other))
}

/// That a type is the last one that the pattern gives an alias.
pub open spec fn is_typed(steps: Seq<PatternStepView>, alias: Seq<char>, t: Seq<char>) -> bool {
    exists|k: int|
        0 <= k < steps.len() && types(#[trigger] steps[k], alias, t) && forall|
            j: int,
            other: Seq<char>,
        |
            k < j < steps.len() ==> !(#[trigger] types(steps[j], alias, other))
}

/// That an alias has a type where a condition stands: the edge of the
/// `NOT EXISTS` around it comes first.
pub open spec fn has_type(
    steps: Seq<PatternStepView>,
    inner: Option<EdgePatternView>,
    alias: Seq<char>,
    t: Seq<char>,
) -> bool {
    if inner matches Some(e) && e.alias == Some(alias) && e.edge_type is Some {
        (inner->Some_0).edge_type == Some(t)
    } else {
        is_typed(steps, alias, t)
    }
}

/// A fault of comparing a property of what a label or an edge type declares.
pub open spec fn declared_fault(
    owner: Seq<char>,
    properties: Seq<PropertyDefView>,
    property: Seq<char>,
    op: ComparisonOp,
    fault: ValidationErrorView,
) -> bool {
    match schema::find_property(properties, property) {
        None => fault == ValidationErrorView::UnknownProperty { label: owner, property },
        Some(p) => !can_compare(p.ty, op) && fault == ValidationErrorView::IncompatibleOperator {
            property,
        },
    }
}

/// A fault of `alias.property` under an operator: it is not declared for what
/// the alias stands for, it cannot be compared so, or the alias stands for
/// nothing that has a label or a type.
pub open spec fn reference_fault(
    steps: Seq<PatternStepView>,
    inner: Option<EdgePatternView>,
    s: SchemaView,
    alias: Seq<char>,
    property: Seq<char>,
    op: ComparisonOp,
    fault: ValidationErrorView,
) -> bool {
    ||| exists|label: Seq<char>| #[trigger]
        is_labelled(steps, alias, label) && (schema::find_node(s.nodes, label) matches Some(d)
            && declared_fault(label, d.properties, property, op, fault))
    ||| (forall|label: Seq<char>| !(#[trigger] is_labelled(steps, alias, label))) && exists|
        t: Seq<char>,
    | #[trigger]
        has_type(steps, inner, alias, t) && (schema::find_edge(s.edges, t) matches Some(d)
            && declared_fault(t, d.properties, property, op, fault))
    ||| (forall|label: Seq<char>| !(#[trigger] is_labelled(steps, alias, label))) && (forall|
        t: Seq<char>,
    | !(#[trigger] has_type(steps, inner, alias, t))) && fault == ValidationErrorView::UnknownAlias(
        alias,
    )
}

/// A fault of a node of the pattern.
pub open spec fn node_fault(n: NodePatternView, s: SchemaView, fault: ValidationErrorView) -> bool {
    n.label matches Some(label) && match schema::find_node(s.nodes, label) {
        None => fault == ValidationErrorView::UnknownLabel(label),
        Some(d) => exists|j: int|
            0 <= j < n.property_filters.len() && declared_fault(
                label,
                d.properties,
                (#[trigger] n.property_filters[j]).property,
                n.property_filters[j].op,
                fault,
            ),
    }
}

/// A fault of an edge of the pattern: its type is not declared, or it is named
/// although it may be more or less than one hop.
pub open spec fn edge_fault(e: EdgePatternView, s: SchemaView, fault: ValidationErrorView) -> bool {
    ||| e.edge_type matches Some(t) && schema::find_edge(s.edges, t) is None && fault
        == ValidationErrorView::UnknownEdgeType(t)
    ||| e.alias matches Some(alias) && !(e.hops.min == 1 && e.hops.max == 1) && fault
        == ValidationErrorView::EdgeAliasOnVariableLengthHop {
        alias,
        min: e.hops.min,
        max: e.hops.max,
    }
}

/// A fault of a condition inside a `NOT EXISTS`, or of one that is none.
pub open spec fn plain_fault(
    steps: Seq<PatternStepView>,
    inner: Option<EdgePatternView>,
    s: SchemaView,
    c: WhereConditionView,
    fault: ValidationErrorView,
) -> bool {
    match c {
        WhereConditionView::Property(alias, f) => reference_fault(
            steps,
            inner,
            s,
            alias,
            f.property,
            f.op,
            fault,
        ),
        WhereConditionView::AliasComparison { left, op, right } => (!is_node(steps, left) && fault
            == ValidationErrorView::UnknownAlias(left)) || (!is_node(steps, right) && fault
            == ValidationErrorView::UnknownAlias(right)),
        WhereConditionView::PropertyComparison { left, op, right } => reference_fault(
            steps,
            inner,
            s,
            left.alias,
            left.property,
            op,
            fault,
        ) || reference_fault(
            steps,
            inner,
            s,
            right.alias,
            right.property,
            ComparisonOp::Eq,
            fault,
        ),
        WhereConditionView::NotExists(_) => fault == ValidationErrorView::NestedNotExists,
    }
}

/// A fault of an end of a `NOT EXISTS`: it is not bound outside, or says more
/// than its name.
pub open spec fn anchor_fault(
    steps: Seq<PatternStepView>,
    n: NodePatternView,
    fault: ValidationErrorView,
) -> bool {
    (!is_node(steps, n.alias) || n.label is Some || n.property_filters.len() > 0) && fault
        == ValidationErrorView::NotExistsAnchorNotPreBound(n.alias)
}

/// A fault of a `NOT EXISTS`.
pub open spec fn not_exists_fault(
    steps: Seq<PatternStepView>,
    s: SchemaView,
    sub: ExistsSubqueryView,
    fault: ValidationErrorView,
) -> bool {
    let drawn = sub.pattern.steps;
    if drawn.len() == 3 && drawn[0] is Node && drawn[1] is Edge && drawn[2] is Node {
        let e = drawn[1]->Edge_0;
        ||| anchor_fault(steps, drawn[0]->Node_0, fault)
        ||| anchor_fault(steps, drawn[2]->Node_0, fault)
        ||| e.edge_type matches Some(t) && schema::find_edge(s.edges, t) is None && fault
            == ValidationErrorView::UnknownEdgeType(t)
        ||| !(e.hops.min == 1 && e.hops.max == 1) && fault
            == ValidationErrorView::EdgeAliasOnVariableLengthHop {
            alias: match e.alias {
                Some(alias) => alias,
                None => "<unaliased>"@,
            },
            min: e.hops.min,
            max: e.hops.max,
        }
        ||| e.direction == Direction::Incoming && fault
            == ValidationErrorView::NotExistsMustBeOutgoing
        ||| exists|j: int|
            0 <= j < sub.where_conditions.len() && plain_fault(
                steps,
                Some(e),
                s,
                #[trigger] sub.where_conditions[j],
                fault,
            )
    } else {
        fault == ValidationErrorView::NotExistsWrongShape(drawn.len())
    }
}

/// A fault of a condition.
pub open spec fn condition_fault(
    steps: Seq<PatternStepView>,
    s: SchemaView,
    c: WhereConditionView,
    fault: ValidationErrorView,
) -> bool {
    match c {
        WhereConditionView::NotExists(sub) => not_exists_fault(steps, s, sub, fault),
        _ => plain_fault(steps, None, s, c, fault),
    }
}

/// A fault of what is returned.
pub open spec fn item_fault(
    steps: Seq<PatternStepView>,
    s: SchemaView,
    item: ReturnItemView,
    fault: ValidationErrorView,
) -> bool {
    match item.property {
        Some(property) => reference_fault(
            steps,
            None,
            s,
            item.alias,
            property,
            ComparisonOp::Eq,
            fault,
        ),
        None => !is_node(steps, item.alias) && !is_edge(steps, item.alias) && fault
            == ValidationErrorView::UnknownAlias(item.alias),
    }
}

/// A fault of a query.
pub open spec fn is_fault(q: QueryView, s: SchemaView, fault: ValidationErrorView) -> bool {
    let steps = q.pattern.steps;
    ||| exists|k: int|
        0 <= k < steps.len() && match #[trigger] steps[k] {
            PatternStepView::Node(n) => node_fault(n, s, fault),
            PatternStepView::Edge(e) => edge_fault(e, s, fault),
        }
    ||| exists|i: int|
        0 <= i < q.where_conditions.len() && condition_fault(
            steps,
            s,
            #[trigger] q.where_conditions[i],
            fault,
        )
    ||| exists|i: int|
        0 <= i < q.returns.len() && item_fault(steps, s, #[trigger] q.returns[i], fault)
    ||| q.order_by matches Some(o) && reference_fault(
        steps,
        None,
        s,
        o.alias,
        o.property,
        ComparisonOp::Eq,
        fault,
    )
}

proof fn lemma_concat<A>(a: Seq<A>, b: Seq<A>, x: A)
    ensures
        (a + b).contains(x) <==> a.contains(x) || b.contains(x),
{
    if (a + b).contains(x) {
        let i = choose|i: int| 0 <= i < (a + b).len() && (a + b)[i] == x;
        if i < a.len() {
            assert(a[i] == x);
        } else {
            assert(b[i - a.len()] == x);
        }
    }
    if a.contains(x) {
        let i = choose|i: int| 0 <= i < a.len() && a[i] == x;
        assert((a + b)[i] == x);
    }
    if b.contains(x) {
        let i = choose|i: int| 0 <= i < b.len() && b[i] == x;
        assert((a + b)[a.len() + i] == x);
    }
}

proof fn lemma_one<A>(a: A, x: A)
    ensures
        seq![a].contains(x) <==> a == x,
{
    assert(seq![a][0] == a);
}

proof fn lemma_label(steps: Seq<PatternStepView>, alias: Seq<char>, label: Seq<char>)
    ensures
        validator::label_of(steps, alias) == Some(label) <==> is_labelled(steps, alias, label),
    decreases steps.len(),
{
    if steps.len() > 0 {
        let shorter = steps.drop_last();
        let last = steps.len() - 1;
        lemma_label(shorter, alias, label);
        let here = steps[last] is Node && (steps[last]->Node_0).alias == alias && (
        steps[last]->Node_0).label is Some;
        if here {
            let other = (steps[last]->Node_0).label->Some_0;
            assert(labels(steps[last], alias, other));
            if other == label {
                assert(labels(steps[last], alias, label));
            }
        } else {
            if is_labelled(shorter, alias, label) {
                let k = choose|k: int|
                    0 <= k < shorter.len() && labels(#[trigger] shorter[k], alias, label) && forall|
                        j: int,
                        other: Seq<char>,
                    |
                        k < j < shorter.len() ==> !(#[trigger] labels(shorter[j], alias, other));
                assert(labels(steps[k], alias, label));
                assert forall|j: int, other: Seq<char>| k < j < steps.len() implies !(
                #[trigger] labels(steps[j], alias, other)) by {
                    if j < last {
                        assert(!labels(shorter[j], alias, other));
                    }
                }
            }
            if is_labelled(steps, alias, label) {
                let k = choose|k: int|
                    0 <= k < steps.len() && labels(#[trigger] steps[k], alias, label) && forall|
                        j: int,
                        other: Seq<char>,
                    |
                        k < j < steps.len() ==> !(#[trigger] labels(steps[j], alias, other));
                assert(k < last);
                assert(labels(shorter[k], alias, label));
                assert forall|j: int, other: Seq<char>| k < j < shorter.len() implies !(
                #[trigger] labels(shorter[j], alias, other)) by {
                    assert(!labels(steps[j], alias, other));
                }
            }
        }
    }
}

proof fn lemma_edge_type(steps: Seq<PatternStepView>, alias: Seq<char>, t: Seq<char>)
    ensures
        validator::edge_type_of(steps, alias) == Some(t) <==> is_typed(steps, alias, t),
    decreases steps.len(),
{
    if steps.len() > 0 {
        let shorter = steps.drop_last();
        let last = steps.len() - 1;
        lemma_edge_type(shorter, alias, t);
        let here = steps[last] is Edge && (steps[last]->Edge_0).alias == Some(alias) && (
        steps[last]->Edge_0).edge_type is Some;
        if here {
            let other = (steps[last]->Edge_0).edge_type->Some_0;
            assert(types(steps[last], alias, other));
            if other == t {
                assert(types(steps[last], alias, t));
            }
        } else {
            if is_typed(shorter, alias, t) {
                let k = choose|k: int|
                    0 <= k < shorter.len() && types(#[trigger] shorter[k], alias, t) && forall|
                        j: int,
                        other: Seq<char>,
                    |
                        k < j < shorter.len() ==> !(#[trigger] types(shorter[j], alias, other));
                assert(types(steps[k], alias, t));
                assert forall|j: int, other: Seq<char>| k < j < steps.len() implies !(
                #[trigger] types(steps[j], alias, other)) by {
                    if j < last {
                        assert(!types(shorter[j], alias, other));
                    }
                }
            }
            if is_typed(steps, alias, t) {
                let k = choose|k: int|
                    0 <= k < steps.len() && types(#[trigger] steps[k], alias, t) && forall|
                        j: int,
                        other: Seq<char>,
                    |
                        k < j < steps.len() ==> !(#[trigger] types(steps[j], alias, other));
                assert(k < last);
                assert(types(shorter[k], alias, t));
                assert forall|j: int, other: Seq<char>| k < j < shorter.len() implies !(
                #[trigger] types(shorter[j], alias, other)) by {
                    assert(!types(steps[j], alias, other));
                }
            }
        }
    }
}

proof fn lemma_declared(
    label: Seq<char>,
    t: Seq<char>,
    property: Seq<char>,
    op: ComparisonOp,
    s: SchemaView,
    fault: ValidationErrorView,
)
    ensures
        validator::node_property_errors(label, property, op, s).contains(fault) <==> (
        schema::find_node(s.nodes, label) matches Some(d) && declared_fault(
            label,
            d.properties,
            property,
            op,
            fault,
        )),
        validator::edge_property_errors(t, property, op, s).contains(fault) <==> (
        schema::find_edge(s.edges, t) matches Some(d) && declared_fault(
            t,
            d.properties,
            property,
            op,
            fault,
        )),
{
    lemma_one(ValidationErrorView::IncompatibleOperator { property }, fault);
    lemma_one(ValidationErrorView::UnknownProperty { label, property }, fault);
    lemma_one(ValidationErrorView::UnknownProperty { label: t, property }, fault);
}

proof fn lemma_reference(
    scope: ScopeView,
    s: SchemaView,
    alias: Seq<char>,
    property: Seq<char>,
    op: ComparisonOp,
    fault: ValidationErrorView,
)
    ensures
        validator::property_ref_errors(scope, s, alias, property, op).contains(fault)
            <==> reference_fault(scope.steps, scope.inner, s, alias, property, op, fault),
{
    let steps = scope.steps;
    lemma_one(ValidationErrorView::UnknownAlias(alias), fault);
    assert forall|label: Seq<char>|
        validator::label_of(steps, alias) == Some(label) <==> #[trigger] is_labelled(
            steps,
            alias,
            label,
        ) by {
        lemma_label(steps, alias, label);
    }
    assert forall|t: Seq<char>|
        scope.edge_type(alias) == Some(t) <==> #[trigger] has_type(
            steps,
            scope.inner,
            alias,
            t,
        ) by {
        lemma_edge_type(steps, alias, t);
    }
    match validator::label_of(steps, alias) {
        Some(label) => {
            lemma_declared(label, label, property, op, s, fault);
            assert(is_labelled(steps, alias, label));
        },
        None => {
            match scope.edge_type(alias) {
                Some(t) => {
                    lemma_declared(t, t, property, op, s, fault);
                    assert(has_type(steps, scope.inner, alias, t));
                },
                None => {},
            }
        },
    }
}

proof fn lemma_filters(
    label: Seq<char>,
    filters: Seq<PropertyFilterView>,
    s: SchemaView,
    fault: ValidationErrorView,
)
    ensures
        validator::filter_errors(label, filters, s).contains(fault) <==> (schema::find_node(
            s.nodes,
            label,
        ) matches Some(d) && exists|j: int|
            0 <= j < filters.len() && declared_fault(
                label,
                d.properties,
                (#[trigger] filters[j]).property,
                filters[j].op,
                fault,
            )),
    decreases filters.len(),
{
    if filters.len() > 0 {
        let rest = filters.drop_first();
        lemma_filters(label, rest, s, fault);
        lemma_declared(label, label, filters[0].property, filters[0].op, s, fault);
        lemma_concat(
            validator::node_property_errors(label, filters[0].property, filters[0].op, s),
            validator::filter_errors(label, rest, s),
            fault,
        );
        if let Some(d) = schema::find_node(s.nodes, label) {
            if exists|j: int|
                0 <= j < rest.len() && declared_fault(
                    label,
                    d.properties,
                    (#[trigger] rest[j]).property,
                    rest[j].op,
                    fault,
                ) {
                let j = choose|j: int|
                    0 <= j < rest.len() && declared_fault(
                        label,
                        d.properties,
                        (#[trigger] rest[j]).property,
                        rest[j].op,
                        fault,
                    );
                assert(filters[j + 1] == rest[j]);
            }
            if exists|j: int|
                0 <= j < filters.len() && declared_fault(
                    label,
                    d.properties,
                    (#[trigger] filters[j]).property,
                    filters[j].op,
                    fault,
                ) {
                let j = choose|j: int|
                    0 <= j < filters.len() && declared_fault(
                        label,
                        d.properties,
                        (#[trigger] filters[j]).property,
                        filters[j].op,
                        fault,
                    );
                if j > 0 {
                    assert(rest[j - 1] == filters[j]);
                }
            }
        }
    }
}

proof fn lemma_edge(e: EdgePatternView, s: SchemaView, fault: ValidationErrorView)
    ensures
        validator::edge_errors(e, s).contains(fault) <==> edge_fault(e, s, fault),
{
    lemma_concat(validator::edge_type_errors(e, s), validator::edge_alias_errors(e), fault);
    if let Some(t) = e.edge_type {
        lemma_one(ValidationErrorView::UnknownEdgeType(t), fault);
    }
    if let Some(alias) = e.alias {
        lemma_one(
            ValidationErrorView::EdgeAliasOnVariableLengthHop {
                alias,
                min: e.hops.min,
                max: e.hops.max,
            },
            fault,
        );
    }
}

spec fn step_fault(step: PatternStepView, s: SchemaView, fault: ValidationErrorView) -> bool {
    match step {
        PatternStepView::Node(n) => node_fault(n, s, fault),
        PatternStepView::Edge(e) => edge_fault(e, s, fault),
    }
}

proof fn lemma_steps(steps: Seq<PatternStepView>, s: SchemaView, fault: ValidationErrorView)
    ensures
        validator::steps_errors(steps, s).contains(fault) <==> exists|k: int|
            0 <= k < steps.len() && step_fault(#[trigger] steps[k], s, fault),
    decreases steps.len(),
{
    if steps.len() > 0 {
        let rest = steps.drop_first();
        lemma_steps(rest, s, fault);
        lemma_concat(
            validator::step_errors(steps[0], s),
            validator::steps_errors(rest, s),
            fault,
        );
        match steps[0] {
            PatternStepView::Node(n) => {
                if let Some(label) = n.label {
                    lemma_filters(label, n.property_filters, s, fault);
                    lemma_one(ValidationErrorView::UnknownLabel(label), fault);
                }
            },
            PatternStepView::Edge(e) => {
                lemma_edge(e, s, fault);
            },
        }
        assert(validator::step_errors(steps[0], s).contains(fault) <==> step_fault(
            steps[0],
            s,
            fault,
        ));
        if exists|k: int| 0 <= k < rest.len() && step_fault(#[trigger] rest[k], s, fault) {
            let k = choose|k: int| 0 <= k < rest.len() && step_fault(#[trigger] rest[k], s, fault);
            assert(steps[k + 1] == rest[k]);
        }
        if exists|k: int| 0 <= k < steps.len() && step_fault(#[trigger] steps[k], s, fault) {
            let k = choose|k: int|
                0 <= k < steps.len() && step_fault(#[trigger] steps[k], s, fault);
            if k > 0 {
                assert(rest[k - 1] == steps[k]);
            }
        }
    }
}

proof fn lemma_is_node(steps: Seq<PatternStepView>, alias: Seq<char>)
    ensures
        validator::binds_node(steps, alias) <==> is_node(steps, alias),
        validator::binds_edge(steps, alias) <==> is_edge(steps, alias),
{
    if is_node(steps, alias) {
        let k = choose|k: int|
            0 <= k < steps.len() && (#[trigger] steps[k]) is Node && (steps[k]->Node_0).alias
                == alias;
        assert(steps[k] matches PatternStepView::Node(n) && n.alias == alias);
    }
    if is_edge(steps, alias) {
        let k = choose|k: int|
            0 <= k < steps.len() && (#[trigger] steps[k]) is Edge && (steps[k]->Edge_0).alias
                == Some(alias);
        assert(steps[k] matches PatternStepView::Edge(e) && e.alias == Some(alias));
    }
}

proof fn lemma_plain(
    c: WhereConditionView,
    s: SchemaView,
    scope: ScopeView,
    fault: ValidationErrorView,
)
    ensures
        validator::inner_condition_errors(c, s, scope).contains(fault) <==> plain_fault(
            scope.steps,
            scope.inner,
            s,
            c,
            fault,
        ),
{
    match c {
        WhereConditionView::Property(alias, f) => {
            lemma_reference(scope, s, alias, f.property, f.op, fault);
        },
        WhereConditionView::AliasComparison { left, op, right } => {
            lemma_is_node(scope.steps, left);
            lemma_is_node(scope.steps, right);
            lemma_one(ValidationErrorView::UnknownAlias(left), fault);
            lemma_one(ValidationErrorView::UnknownAlias(right), fault);
            lemma_concat(
                validator::alias_errors(scope, left),
                validator::alias_errors(scope, right),
                fault,
            );
        },
        WhereConditionView::PropertyComparison { left, op, right } => {
            lemma_reference(scope, s, left.alias, left.property, op, fault);
            lemma_reference(scope, s, right.alias, right.property, ComparisonOp::Eq, fault);
            lemma_concat(
                validator::property_ref_errors(scope, s, left.alias, left.property, op),
                validator::property_ref_errors(
                    scope,
                    s,
                    right.alias,
                    right.property,
                    ComparisonOp::Eq,
                ),
                fault,
            );
        },
        WhereConditionView::NotExists(_) => {
            lemma_one(ValidationErrorView::NestedNotExists, fault);
        },
    }
}

proof fn lemma_plains(
    cs: Seq<WhereConditionView>,
    s: SchemaView,
    scope: ScopeView,
    fault: ValidationErrorView,
)
    ensures
        validator::inner_conditions_errors(cs, s, scope).contains(fault) <==> exists|j: int|
            0 <= j < cs.len() && plain_fault(
                scope.steps,
                scope.inner,
                s,
                #[trigger] cs[j],
                fault,
            ),
    decreases cs.len(),
{
    if cs.len() > 0 {
        let rest = cs.drop_first();
        lemma_plains(rest, s, scope, fault);
        lemma_plain(cs[0], s, scope, fault);
        lemma_concat(
            validator::inner_condition_errors(cs[0], s, scope),
            validator::inner_conditions_errors(rest, s, scope),
            fault,
        );
        if exists|j: int|
            0 <= j < rest.len() && plain_fault(
                scope.steps,
                scope.inner,
                s,
                #[trigger] rest[j],
                fault,
            ) {
            let j = choose|j: int|
                0 <= j < rest.len() && plain_fault(
                    scope.steps,
                    scope.inner,
                    s,
                    #[trigger] rest[j],
                    fault,
                );
            assert(cs[j + 1] == rest[j]);
        }
        if exists|j: int|
            0 <= j < cs.len() && plain_fault(
                scope.steps,
                scope.inner,
                s,
                #[trigger] cs[j],
                fault,
            ) {
            let j = choose|j: int|
                0 <= j < cs.len() && plain_fault(
                    scope.steps,
                    scope.inner,
                    s,
                    #[trigger] cs[j],
                    fault,
                );
            if j > 0 {
                assert(rest[j - 1] == cs[j]);
            }
        }
    }
}

proof fn lemma_anchor(scope: ScopeView, n: NodePatternView, fault: ValidationErrorView)
    ensures
        validator::anchor_errors(scope, n).contains(fault) <==> anchor_fault(
            scope.steps,
            n,
            fault,
        ),
{
    lemma_is_node(scope.steps, n.alias);
    lemma_one(ValidationErrorView::NotExistsAnchorNotPreBound(n.alias), fault);
}

proof fn lemma_not_exists(
    sub: ExistsSubqueryView,
    s: SchemaView,
    scope: ScopeView,
    fault: ValidationErrorView,
)
    ensures
        validator::not_exists_errors(sub, s, scope).contains(fault) <==> not_exists_fault(
            scope.steps,
            s,
            sub,
            fault,
        ),
{
    let drawn = sub.pattern.steps;
    lemma_one(ValidationErrorView::NotExistsWrongShape(drawn.len()), fault);
    if validator::one_hop(drawn) {
        let e = drawn[1]->Edge_0;
        let inner = ScopeView { steps: scope.steps, inner: Some(e) };
        let a = validator::anchor_errors(scope, drawn[0]->Node_0);
        let b = validator::anchor_errors(scope, drawn[2]->Node_0);
        let c = validator::edge_errors(e, s);
        let d = validator::anti_hop_errors(e);
        let f = validator::anti_direction_errors(e);
        let g = validator::inner_conditions_errors(sub.where_conditions, s, inner);
        lemma_concat(a, b, fault);
        lemma_concat(a + b, c, fault);
        lemma_concat(a + b + c, d, fault);
        lemma_concat(a + b + c + d, f, fault);
        lemma_concat(a + b + c + d + f, g, fault);
        lemma_anchor(scope, drawn[0]->Node_0, fault);
        lemma_anchor(scope, drawn[2]->Node_0, fault);
        lemma_edge(e, s, fault);
        lemma_plains(sub.where_conditions, s, inner, fault);
        lemma_one(ValidationErrorView::NotExistsMustBeOutgoing, fault);
        lemma_one(
            ValidationErrorView::EdgeAliasOnVariableLengthHop {
                alias: match e.alias {
                    Some(alias) => alias,
                    None => "<unaliased>"@,
                },
                min: e.hops.min,
                max: e.hops.max,
            },
            fault,
        );
    }
}

proof fn lemma_conditions(
    cs: Seq<WhereConditionView>,
    s: SchemaView,
    scope: ScopeView,
    fault: ValidationErrorView,
)
    requires
        scope.inner is None,
    ensures
        validator::conditions_errors(cs, s, scope).contains(fault) <==> exists|j: int|
            0 <= j < cs.len() && condition_fault(scope.steps, s, #[trigger] cs[j], fault),
    decreases cs.len(),
{
    if cs.len() > 0 {
        let rest = cs.drop_first();
        lemma_conditions(rest, s, scope, fault);
        match cs[0] {
            WhereConditionView::NotExists(sub) => {
                lemma_not_exists(sub, s, scope, fault);
            },
            _ => {
                lemma_plain(cs[0], s, scope, fault);
            },
        }
        lemma_concat(
            validator::condition_errors(cs[0], s, scope),
            validator::conditions_errors(rest, s, scope),
            fault,
        );
        if exists|j: int|
            0 <= j < rest.len() && condition_fault(scope.steps, s, #[trigger] rest[j], fault) {
            let j = choose|j: int|
                0 <= j < rest.len() && condition_fault(scope.steps, s, #[trigger] rest[j], fault);
            assert(cs[j + 1] == rest[j]);
        }
        if exists|j: int|
            0 <= j < cs.len() && condition_fault(scope.steps, s, #[trigger] cs[j], fault) {
            let j = choose|j: int|
                0 <= j < cs.len() && condition_fault(scope.steps, s, #[trigger] cs[j], fault);
            if j > 0 {
                assert(rest[j - 1] == cs[j]);
            }
        }
    }
}

proof fn lemma_items(
    items: Seq<ReturnItemView>,
    s: SchemaView,
    scope: ScopeView,
    fault: ValidationErrorView,
)
    requires
        scope.inner is None,
    ensures
        validator::return_items_errors(items, s, scope).contains(fault) <==> exists|j: int|
            0 <= j < items.len() && item_fault(scope.steps, s, #[trigger] items[j], fault),
    decreases items.len(),
{
    if items.len() > 0 {
        let rest = items.drop_first();
        let item = items[0];
        lemma_items(rest, s, scope, fault);
        match item.property {
            Some(property) => {
                lemma_reference(scope, s, item.alias, property, ComparisonOp::Eq, fault);
            },
            None => {
                lemma_is_node(scope.steps, item.alias);
                lemma_one(ValidationErrorView::UnknownAlias(item.alias), fault);
            },
        }
        lemma_concat(
            validator::return_item_errors(item, s, scope),
            validator::return_items_errors(rest, s, scope),
            fault,
        );
        if exists|j: int|
            0 <= j < rest.len() && item_fault(scope.steps, s, #[trigger] rest[j], fault) {
            let j = choose|j: int|
                0 <= j < rest.len() && item_fault(scope.steps, s, #[trigger] rest[j], fault);
            assert(items[j + 1] == rest[j]);
        }
        if exists|j: int|
            0 <= j < items.len() && item_fault(scope.steps, s, #[trigger] items[j], fault) {
            let j = choose|j: int|
                0 <= j < items.len() && item_fault(scope.steps, s, #[trigger] items[j], fault);
            if j > 0 {
                assert(rest[j - 1] == items[j]);
            }
        }
    }
}

/// A fault is reported exactly where a query has it: no fault is passed over,
/// and none is made up.
pub proof fn law_faults_are_reported(q: QueryView, s: SchemaView, fault: ValidationErrorView)
    ensures
        validator::query_errors(q, s).contains(fault) <==> is_fault(q, s, fault),
{
    let steps = q.pattern.steps;
    let scope = ScopeView { steps, inner: None };
    let a = validator::steps_errors(steps, s);
    let b = validator::conditions_errors(q.where_conditions, s, scope);
    let c = validator::return_items_errors(q.returns, s, scope);
    let d = validator::order_by_errors(q.order_by, s, scope);
    lemma_concat(a, b, fault);
    lemma_concat(a + b, c, fault);
    lemma_concat(a + b + c, d, fault);
    lemma_steps(steps, s, fault);
    lemma_conditions(q.where_conditions, s, scope, fault);
    lemma_items(q.returns, s, scope, fault);
    if let Some(o) = q.order_by {
        lemma_reference(scope, s, o.alias, o.property, ComparisonOp::Eq, fault);
    }
    if exists|k: int| 0 <= k < steps.len() && step_fault(#[trigger] steps[k], s, fault) {
        let k = choose|k: int| 0 <= k < steps.len() && step_fault(#[trigger] steps[k], s, fault);
        assert(match steps[k] {
            PatternStepView::Node(n) => node_fault(n, s, fault),
            PatternStepView::Edge(e) => edge_fault(e, s, fault),
        });
    }
    if exists|k: int|
        0 <= k < steps.len() && match #[trigger] steps[k] {
            PatternStepView::Node(n) => node_fault(n, s, fault),
            PatternStepView::Edge(e) => edge_fault(e, s, fault),
        } {
        let k = choose|k: int|
            0 <= k < steps.len() && match #[trigger] steps[k] {
                PatternStepView::Node(n) => node_fault(n, s, fault),
                PatternStepView::Edge(e) => edge_fault(e, s, fault),
            };
        assert(step_fault(steps[k], s, fault));
    }
}

/// A query is valid exactly where it has no fault.
pub proof fn law_valid_queries_have_no_fault(q: QueryView, s: SchemaView)
    ensures
        validator::query_errors(q, s).len() == 0 <==> forall|fault: ValidationErrorView|
            !(#[trigger] is_fault(q, s, fault)),
{
    let errors = validator::query_errors(q, s);
    if errors.len() == 0 {
        assert forall|fault: ValidationErrorView| !(#[trigger] is_fault(q, s, fault)) by {
            law_faults_are_reported(q, s, fault);
        }
    } else {
        assert(errors.contains(errors[0]));
        law_faults_are_reported(q, s, errors[0]);
    }
}

/// Faults are reported in the order of the clauses: those of the pattern,
/// those of the conditions, those of what is returned and those of the order;
/// and those of earlier conditions and results before those of later ones.
pub proof fn law_faults_come_in_the_order_of_the_clauses(
    q: QueryView,
    s: SchemaView,
    i: int,
    j: int,
)
    requires
        0 <= i <= q.where_conditions.len(),
        0 <= j <= q.returns.len(),
    ensures
        ({
            let bare = QueryView {
                where_conditions: q.where_conditions.take(i),
                returns: seq![],
                order_by: None,
                ..q
            };
            let filtered = QueryView { returns: q.returns.take(j), order_by: None, ..q };
            &&& validator::query_errors(bare, s).is_prefix_of(validator::query_errors(q, s))
            &&& validator::query_errors(bare, s).is_prefix_of(validator::query_errors(filtered, s))
            &&& validator::query_errors(filtered, s).is_prefix_of(validator::query_errors(q, s))
        }),
{
    let scope = ScopeView { steps: q.pattern.steps, inner: None };
    let a = validator::steps_errors(q.pattern.steps, s);
    let b = validator::conditions_errors(q.where_conditions, s, scope);
    let c = validator::return_items_errors(q.returns, s, scope);
    let b1 = validator::conditions_errors(q.where_conditions.take(i), s, scope);
    let c1 = validator::return_items_errors(q.returns.take(j), s, scope);
    lemma_earlier_conditions(q.where_conditions, s, scope, i);
    lemma_earlier_items(q.returns, s, scope, j);
    let none = validator::order_by_errors(None, s, scope);
    let last = validator::order_by_errors(q.order_by, s, scope);
    let empty = validator::return_items_errors(seq![], s, scope);
    assert(a + b1 + empty + none =~= a + b1);
    assert(a + b + c1 + none =~= a + b + c1);
    assert((a + b + c + last).take((a + b1).len() as int) =~= a + b.take(b1.len() as int));
    assert((a + b + c1).take((a + b1).len() as int) =~= a + b.take(b1.len() as int));
    assert((a + b + c + last).take((a + b + c1).len() as int) =~= a + b + c.take(
        c1.len() as int,
    ));
    assert(b.take(b1.len() as int) =~= b1);
    assert(c.take(c1.len() as int) =~= c1);
}

proof fn lemma_earlier_conditions(
    cs: Seq<WhereConditionView>,
    s: SchemaView,
    scope: ScopeView,
    i: int,
)
    requires
        0 <= i <= cs.len(),
    ensures
        validator::conditions_errors(cs.take(i), s, scope).is_prefix_of(
            validator::conditions_errors(cs, s, scope),
        ),
    decreases cs.len(),
{
    if i > 0 {
        let rest = cs.drop_first();
        lemma_earlier_conditions(rest, s, scope, i - 1);
        assert(cs.take(i).drop_first() =~= rest.take(i - 1));
        assert(cs.take(i)[0] == cs[0]);
    }
}

proof fn lemma_earlier_items(
    items: Seq<ReturnItemView>,
    s: SchemaView,
    scope: ScopeView,
    i: int,
)
    requires
        0 <= i <= items.len(),
    ensures
        validator::return_items_errors(items.take(i), s, scope).is_prefix_of(
            validator::return_items_errors(items, s, scope),
        ),
    decreases items.len(),
{
    if i > 0 {
        let rest = items.drop_first();
        lemma_earlier_items(rest, s, scope, i - 1);
        assert(items.take(i).drop_first() =~= rest.take(i - 1));
        assert(items.take(i)[0] == items[0]);
    }
}

} // verus!
