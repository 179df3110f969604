//! Validation of a query against a schema. Every fault is reported, in the
//! order of the query: pattern, conditions, projection, sort order.
use crate::dsl::{
    ComparisonOp, Direction, EdgePattern, EdgePatternView, ExistsSubquery, ExistsSubqueryView,
    NodePattern, NodePatternView, OrderBy, OrderByView, Pattern, PatternStep, PatternStepView,
    PropertyFilterView, Query, QueryView, ReturnItem, ReturnItemView, WhereCondition,
    WhereConditionView,
};
use crate::schema;
use crate::schema::{EdgeType, Label, ScalarType, Schema, SchemaView};
use crate::text;
use crate::values;
use vstd::prelude::*;
use vstd::string::*;

verus! {

/// A fault of a query.
#[derive(Clone, Debug, PartialEq)]
pub enum ValidationError {
    UnknownLabel(String),
    UnknownEdgeType(String),
    UnknownProperty { label: String, property: String },
    IncompatibleOperator { property: String },
    UnknownAlias(String),
    EdgeAliasOnVariableLengthHop { alias: String, min: u32, max: u32 },
    NotExistsAnchorNotPreBound(String),
    NotExistsWrongShape(usize),
    NestedNotExists,
    NotExistsMustBeOutgoing,
}

pub enum ValidationErrorView {
    UnknownLabel(Seq<char>),
    UnknownEdgeType(Seq<char>),
    UnknownProperty { label: Seq<char>, property: Seq<char> },
    IncompatibleOperator { property: Seq<char> },
    UnknownAlias(Seq<char>),
    EdgeAliasOnVariableLengthHop { alias: Seq<char>, min: u32, max: u32 },
    NotExistsAnchorNotPreBound(Seq<char>),
    NotExistsWrongShape(nat),
    NestedNotExists,
    NotExistsMustBeOutgoing,
}

impl View for ValidationError {
    type V = ValidationErrorView;

    open spec fn view(&self) -> ValidationErrorView {
        match self {
            ValidationError::UnknownLabel(l) => ValidationErrorView::UnknownLabel(l@),
            ValidationError::UnknownEdgeType(t) => ValidationErrorView::UnknownEdgeType(t@),
            ValidationError::UnknownProperty { label, property } =>
                ValidationErrorView::UnknownProperty { label: label@, property: property@ },
            ValidationError::IncompatibleOperator { property } =>
                ValidationErrorView::IncompatibleOperator { property: property@ },
            ValidationError::UnknownAlias(a) => ValidationErrorView::UnknownAlias(a@),
            ValidationError::EdgeAliasOnVariableLengthHop { alias, min, max } =>
                ValidationErrorView::EdgeAliasOnVariableLengthHop {
                    alias: alias@,
                    min: *min,
                    max: *max,
                },
            ValidationError::NotExistsAnchorNotPreBound(a) =>
                ValidationErrorView::NotExistsAnchorNotPreBound(a@),
            ValidationError::NotExistsWrongShape(n) => ValidationErrorView::NotExistsWrongShape(
                *n as nat,
            ),
            ValidationError::NestedNotExists => ValidationErrorView::NestedNotExists,
            ValidationError::NotExistsMustBeOutgoing =>
                ValidationErrorView::NotExistsMustBeOutgoing,
        }
    }
}

impl ValidationErrorView {
    /// The fault in words.
    pub open spec fn text(self) -> Seq<char> {
        match self {
            ValidationErrorView::UnknownLabel(l) => "unknown label: "@ + l,
            ValidationErrorView::UnknownEdgeType(t) => "unknown edge type: "@ + t,
            ValidationErrorView::UnknownProperty { label, property } => "unknown property "@
                + property + " on "@ + label,
            ValidationErrorView::IncompatibleOperator { property } =>
                "comparison operator not valid for property type: "@ + property,
            ValidationErrorView::UnknownAlias(a) => "alias "@ + a
                + " is not bound by this pattern"@,
            ValidationErrorView::EdgeAliasOnVariableLengthHop { alias, min, max } =>
                "edge alias "@ + alias + " is on a variable-length hop (*"@ + text::decimal_text(
                min as int,
            ) + ".."@ + text::decimal_text(max as int)
                + ") — edge aliases are only valid on a single hop"@,
            ValidationErrorView::NotExistsAnchorNotPreBound(a) => "NOT EXISTS { ... } anchor "@ + a
                + " must already be bound by the outer MATCH (no label/properties on it here)"@,
            ValidationErrorView::NotExistsWrongShape(n) =>
                "NOT EXISTS { ... } pattern must be exactly one edge between two already-bound nodes, got "@
                + text::decimal_text(n as int) + " pattern step(s)"@,
            ValidationErrorView::NestedNotExists =>
                "NOT EXISTS { ... } cannot be nested inside another NOT EXISTS"@,
            ValidationErrorView::NotExistsMustBeOutgoing =>
                "NOT EXISTS { ... } edge must be outgoing (`->`), not incoming (`<-`)"@,
        }
    }

    /// The fault as a value of the language that the engine is written in.
    pub open spec fn debug(self) -> Seq<char> {
        match self {
            ValidationErrorView::UnknownLabel(l) => "UnknownLabel("@ + values::debug_of(l) + ")"@,
            ValidationErrorView::UnknownEdgeType(t) => "UnknownEdgeType("@ + values::debug_of(t)
                + ")"@,
            ValidationErrorView::UnknownProperty { label, property } =>
                "UnknownProperty { label: "@ + values::debug_of(label) + ", property: "@
                + values::debug_of(property) + " }"@,
            ValidationErrorView::IncompatibleOperator { property } =>
                "IncompatibleOperator { property: "@ + values::debug_of(property) + " }"@,
            ValidationErrorView::UnknownAlias(a) => "UnknownAlias("@ + values::debug_of(a) + ")"@,
            ValidationErrorView::EdgeAliasOnVariableLengthHop { alias, min, max } =>
                "EdgeAliasOnVariableLengthHop { alias: "@ + values::debug_of(alias) + ", min: "@
                + text::decimal_text(min as int) + ", max: "@ + text::decimal_text(max as int)
                + " }"@,
            ValidationErrorView::NotExistsAnchorNotPreBound(a) => "NotExistsAnchorNotPreBound("@
                + values::debug_of(a) + ")"@,
            ValidationErrorView::NotExistsWrongShape(n) => "NotExistsWrongShape("@
                + text::decimal_text(n as int) + ")"@,
            ValidationErrorView::NestedNotExists => "NestedNotExists"@,
            ValidationErrorView::NotExistsMustBeOutgoing => "NotExistsMustBeOutgoing"@,
        }
    }
}

/// Several faults, as a list.
pub open spec fn debug_items(errors: Seq<ValidationErrorView>) -> Seq<char>
    decreases errors.len(),
{
    if errors.len() == 0 {
        seq![]
    } else if errors.len() == 1 {
        errors[0].debug()
    } else {
        debug_items(errors.drop_last()) + ", "@ + errors.last().debug()
    }
}

pub open spec fn debug_list(errors: Seq<ValidationErrorView>) -> Seq<char> {
    "["@ + debug_items(errors) + "]"@
}

impl ValidationError {
    pub fn message(&self) -> (r: String)
        ensures
            r@ == self@.text(),
    {
        match self {
            ValidationError::UnknownLabel(l) => {
                let mut s: String = "unknown label: ".to_owned();
                s.append(l.as_str());
                s
            },
            ValidationError::UnknownEdgeType(t) => {
                let mut s: String = "unknown edge type: ".to_owned();
                s.append(t.as_str());
                s
            },
            ValidationError::UnknownProperty { label, property } => {
                let mut s: String = "unknown property ".to_owned();
                s.append(property.as_str());
                s.append(" on ");
                s.append(label.as_str());
                s
            },
            ValidationError::IncompatibleOperator { property } => {
                let mut s: String = "comparison operator not valid for property type: ".to_owned();
                s.append(property.as_str());
                s
            },
            ValidationError::UnknownAlias(a) => {
                let mut s: String = "alias ".to_owned();
                s.append(a.as_str());
                s.append(" is not bound by this pattern");
                s
            },
            ValidationError::EdgeAliasOnVariableLengthHop { alias, min, max } => {
                let mut s: String = "edge alias ".to_owned();
                s.append(alias.as_str());
                s.append(" is on a variable-length hop (*");
                s.append(text::decimal_string(*min as u64).as_str());
                s.append("..");
                s.append(text::decimal_string(*max as u64).as_str());
                s.append(") — edge aliases are only valid on a single hop");
                s
            },
            ValidationError::NotExistsAnchorNotPreBound(a) => {
                let mut s: String = "NOT EXISTS { ... } anchor ".to_owned();
                s.append(a.as_str());
                s.append(
                    " must already be bound by the outer MATCH (no label/properties on it here)",
                );
                s
            },
            ValidationError::NotExistsWrongShape(n) => {
                let mut s: String =
                    "NOT EXISTS { ... } pattern must be exactly one edge between two already-bound nodes, got ".to_owned();
                s.append(text::decimal_string(*n as u64).as_str());
                s.append(" pattern step(s)");
                s
            },
            ValidationError::NestedNotExists =>
                "NOT EXISTS { ... } cannot be nested inside another NOT EXISTS".to_owned(),
            ValidationError::NotExistsMustBeOutgoing =>
                "NOT EXISTS { ... } edge must be outgoing (`->`), not incoming (`<-`)".to_owned(),
        }
    }

    fn debug(&self) -> (r: String)
        ensures
            r@ == self@.debug(),
    {
        match self {
            ValidationError::UnknownLabel(l) => call_of("UnknownLabel(", l),
            ValidationError::UnknownEdgeType(t) => call_of("UnknownEdgeType(", t),
            ValidationError::UnknownProperty { label, property } => {
                let mut s: String = "UnknownProperty { label: ".to_owned();
                s.append(values::debug_text(label.as_str()).as_str());
                s.append(", property: ");
                s.append(values::debug_text(property.as_str()).as_str());
                s.append(" }");
                s
            },
            ValidationError::IncompatibleOperator { property } => {
                let mut s: String = "IncompatibleOperator { property: ".to_owned();
                s.append(values::debug_text(property.as_str()).as_str());
                s.append(" }");
                s
            },
            ValidationError::UnknownAlias(a) => call_of("UnknownAlias(", a),
            ValidationError::EdgeAliasOnVariableLengthHop { alias, min, max } => {
                let mut s: String = "EdgeAliasOnVariableLengthHop { alias: ".to_owned();
                s.append(values::debug_text(alias.as_str()).as_str());
                s.append(", min: ");
                s.append(text::decimal_string(*min as u64).as_str());
                s.append(", max: ");
                s.append(text::decimal_string(*max as u64).as_str());
                s.append(" }");
                s
            },
            ValidationError::NotExistsAnchorNotPreBound(a) => call_of(
                "NotExistsAnchorNotPreBound(",
                a,
            ),
            ValidationError::NotExistsWrongShape(n) => {
                let mut s: String = "NotExistsWrongShape(".to_owned();
                s.append(text::decimal_string(*n as u64).as_str());
                s.append(")");
                s
            },
            ValidationError::NestedNotExists => "NestedNotExists".to_owned(),
            ValidationError::NotExistsMustBeOutgoing => "NotExistsMustBeOutgoing".to_owned(),
        }
    }
}

fn call_of(head: &str, name: &String) -> (r: String)
    ensures
        r@ == head@ + values::debug_of(name@) + ")"@,
{
    let mut s: String = head.to_owned();
    s.append(values::debug_text(name.as_str()).as_str());
    s.append(")");
    s
}

/// Several faults, as a list.
pub fn debug_of_errors(errors: &Vec<ValidationError>) -> (r: String)
    ensures
        r@ == debug_list(text::views(errors@)),
{
    let ghost all = text::views(errors@);
    let mut items: String = String::new();
    let mut i: usize = 0;
    proof {
        assert(all.take(0) =~= Seq::<ValidationErrorView>::empty());
        assert(items@ =~= Seq::<char>::empty());
    }
    while i < errors.len()
        invariant
            i <= errors@.len(),
            all == text::views(errors@),
            items@ == debug_items(all.take(i as int)),
        decreases errors.len() - i,
    {
        proof {
            assert(all.take(i + 1).drop_last() =~= all.take(i as int));
            assert(all.take(i + 1).last() == errors@[i as int]@);
        }
        if i > 0 {
            items.append(", ");
        }
        items.append(errors[i].debug().as_str());
        assert(items@ =~= debug_items(all.take(i + 1)));
        i = i + 1;
    }
    assert(all.take(all.len() as int) =~= all);
    let mut s: String = "[".to_owned();
    s.append(items.as_str());
    s.append("]");
    s
}

/// Which operators fit a property type: equality fits all but lists and
/// vectors, order fits numbers and timestamps.
pub open spec fn op_fits(ty: ScalarType, op: ComparisonOp) -> bool {
    match op {
        ComparisonOp::Eq | ComparisonOp::Ne => !(ty is List) && !(ty is Vector),
        _ => ty is Int64 || ty is Float64 || ty is Timestamp,
    }
}

pub fn operator_compatible(ty: &ScalarType, op: ComparisonOp) -> (r: bool)
    ensures
        r == op_fits(*ty, op),
{
    match op {
        ComparisonOp::Eq | ComparisonOp::Ne => match ty {
            ScalarType::List(_) | ScalarType::Vector { .. } => false,
            _ => true,
        },
        _ => match ty {
            ScalarType::Int64 | ScalarType::Float64 | ScalarType::Timestamp => true,
            _ => false,
        },
    }
}

/// Whether a pattern binds a node alias.
pub open spec fn binds_node(steps: Seq<PatternStepView>, alias: Seq<char>) -> bool {
    exists|i: int|
        0 <= i < steps.len() && (#[trigger] steps[i] matches PatternStepView::Node(n) && n.alias
            == alias)
}

/// The label that a pattern gives a node alias, the last one where there are
/// several.
pub open spec fn label_of(steps: Seq<PatternStepView>, alias: Seq<char>) -> Option<Seq<char>>
    decreases steps.len(),
{
    if steps.len() == 0 {
        None
    } else {
        match steps.last() {
            PatternStepView::Node(n) => if n.alias == alias && n.label is Some {
                n.label
            } else {
                label_of(steps.drop_last(), alias)
            },
            PatternStepView::Edge(_) => label_of(steps.drop_last(), alias),
        }
    }
}

/// Whether a pattern binds an edge alias.
pub open spec fn binds_edge(steps: Seq<PatternStepView>, alias: Seq<char>) -> bool {
    exists|i: int|
        0 <= i < steps.len() && (#[trigger] steps[i] matches PatternStepView::Edge(e) && e.alias
            == Some(alias))
}

/// Whether an edge step gives an edge alias a type.
pub open spec fn edge_gives_type(e: EdgePatternView, alias: Seq<char>) -> bool {
    e.alias == Some(alias) && e.edge_type is Some
}

/// The type that a pattern gives an edge alias, the last one where there are
/// several.
pub open spec fn edge_type_of(steps: Seq<PatternStepView>, alias: Seq<char>) -> Option<Seq<char>>
    decreases steps.len(),
{
    if steps.len() == 0 {
        None
    } else {
        match steps.last() {
            PatternStepView::Edge(e) => if edge_gives_type(e, alias) {
                e.edge_type
            } else {
                edge_type_of(steps.drop_last(), alias)
            },
            PatternStepView::Node(_) => edge_type_of(steps.drop_last(), alias),
        }
    }
}

/// What is bound where a condition stands: the pattern of the query and,
/// inside a `NOT EXISTS`, its edge.
pub struct ScopeView {
    pub steps: Seq<PatternStepView>,
    pub inner: Option<EdgePatternView>,
}

impl ScopeView {
    pub open spec fn edge_type(self, alias: Seq<char>) -> Option<Seq<char>> {
        match self.inner {
            Some(e) => if edge_gives_type(e, alias) {
                e.edge_type
            } else {
                edge_type_of(self.steps, alias)
            },
            None => edge_type_of(self.steps, alias),
        }
    }
}

pub open spec fn node_property_errors(
    label: Seq<char>,
    property: Seq<char>,
    op: ComparisonOp,
    s: SchemaView,
) -> Seq<ValidationErrorView> {
    match schema::find_node(s.nodes, label) {
        None => seq![],
        Some(def) => match schema::find_property(def.properties, property) {
            Some(p) => if op_fits(p.ty, op) {
                seq![]
            } else {
                seq![ValidationErrorView::IncompatibleOperator { property }]
            },
            None => seq![ValidationErrorView::UnknownProperty { label, property }],
        },
    }
}

pub open spec fn edge_property_errors(
    edge_type: Seq<char>,
    property: Seq<char>,
    op: ComparisonOp,
    s: SchemaView,
) -> Seq<ValidationErrorView> {
    match schema::find_edge(s.edges, edge_type) {
        None => seq![],
        Some(def) => match schema::find_property(def.properties, property) {
            Some(p) => if op_fits(p.ty, op) {
                seq![]
            } else {
                seq![ValidationErrorView::IncompatibleOperator { property }]
            },
            None => seq![ValidationErrorView::UnknownProperty { label: edge_type, property }],
        },
    }
}

/// The faults of `alias.property` under an operator.
pub open spec fn property_ref_errors(
    scope: ScopeView,
    s: SchemaView,
    alias: Seq<char>,
    property: Seq<char>,
    op: ComparisonOp,
) -> Seq<ValidationErrorView> {
    match label_of(scope.steps, alias) {
        Some(label) => node_property_errors(label, property, op, s),
        None => match scope.edge_type(alias) {
            Some(edge_type) => edge_property_errors(edge_type, property, op, s),
            None => seq![ValidationErrorView::UnknownAlias(alias)],
        },
    }
}

pub open spec fn filter_errors(
    label: Seq<char>,
    filters: Seq<PropertyFilterView>,
    s: SchemaView,
) -> Seq<ValidationErrorView>
    decreases filters.len(),
{
    if filters.len() == 0 {
        seq![]
    } else {
        node_property_errors(label, filters[0].property, filters[0].op, s) + filter_errors(
            label,
            filters.drop_first(),
            s,
        )
    }
}

pub open spec fn node_errors(n: NodePatternView, s: SchemaView) -> Seq<ValidationErrorView> {
    match n.label {
        None => seq![],
        Some(label) => match schema::find_node(s.nodes, label) {
            Some(_) => filter_errors(label, n.property_filters, s),
            None => seq![ValidationErrorView::UnknownLabel(label)],
        },
    }
}

pub open spec fn edge_type_errors(e: EdgePatternView, s: SchemaView) -> Seq<ValidationErrorView> {
    match e.edge_type {
        Some(t) => if schema::find_edge(s.edges, t) is None {
            seq![ValidationErrorView::UnknownEdgeType(t)]
        } else {
            seq![]
        },
        None => seq![],
    }
}

pub open spec fn edge_alias_errors(e: EdgePatternView) -> Seq<ValidationErrorView> {
    match e.alias {
        Some(alias) => if e.hops.min != 1 || e.hops.max != 1 {
            seq![
                ValidationErrorView::EdgeAliasOnVariableLengthHop {
                    alias,
                    min: e.hops.min,
                    max: e.hops.max,
                },
            ]
        } else {
            seq![]
        },
        None => seq![],
    }
}

pub open spec fn edge_errors(e: EdgePatternView, s: SchemaView) -> Seq<ValidationErrorView> {
    edge_type_errors(e, s) + edge_alias_errors(e)
}

pub open spec fn step_errors(step: PatternStepView, s: SchemaView) -> Seq<ValidationErrorView> {
    match step {
        PatternStepView::Node(n) => node_errors(n, s),
        PatternStepView::Edge(e) => edge_errors(e, s),
    }
}

pub open spec fn steps_errors(steps: Seq<PatternStepView>, s: SchemaView) -> Seq<
    ValidationErrorView,
>
    decreases steps.len(),
{
    if steps.len() == 0 {
        seq![]
    } else {
        step_errors(steps[0], s) + steps_errors(steps.drop_first(), s)
    }
}

pub open spec fn alias_errors(scope: ScopeView, alias: Seq<char>) -> Seq<ValidationErrorView> {
    if binds_node(scope.steps, alias) {
        seq![]
    } else {
        seq![ValidationErrorView::UnknownAlias(alias)]
    }
}

/// The faults of a condition that stands inside a `NOT EXISTS`.
pub open spec fn inner_condition_errors(
    c: WhereConditionView,
    s: SchemaView,
    scope: ScopeView,
) -> Seq<ValidationErrorView> {
    match c {
        WhereConditionView::Property(alias, f) => property_ref_errors(
            scope,
            s,
            alias,
            f.property,
            f.op,
        ),
        WhereConditionView::AliasComparison { left, op, right } => alias_errors(scope, left)
            + alias_errors(scope, right),
        WhereConditionView::PropertyComparison { left, op, right } => property_ref_errors(
            scope,
            s,
            left.alias,
            left.property,
            op,
        ) + property_ref_errors(scope, s, right.alias, right.property, ComparisonOp::Eq),
        WhereConditionView::NotExists(_) => seq![ValidationErrorView::NestedNotExists],
    }
}

pub open spec fn inner_conditions_errors(
    conditions: Seq<WhereConditionView>,
    s: SchemaView,
    scope: ScopeView,
) -> Seq<ValidationErrorView>
    decreases conditions.len(),
{
    if conditions.len() == 0 {
        seq![]
    } else {
        inner_condition_errors(conditions[0], s, scope) + inner_conditions_errors(
            conditions.drop_first(),
            s,
            scope,
        )
    }
}

/// An end of a `NOT EXISTS` must be bound outside and be no new declaration.
pub open spec fn anchor_errors(scope: ScopeView, n: NodePatternView) -> Seq<ValidationErrorView> {
    if !binds_node(scope.steps, n.alias) || n.label is Some || n.property_filters.len() > 0 {
        seq![ValidationErrorView::NotExistsAnchorNotPreBound(n.alias)]
    } else {
        seq![]
    }
}

pub open spec fn anti_hop_errors(e: EdgePatternView) -> Seq<ValidationErrorView> {
    if e.hops.min != 1 || e.hops.max != 1 {
        seq![
            ValidationErrorView::EdgeAliasOnVariableLengthHop {
                alias: match e.alias {
                    Some(alias) => alias,
                    None => "<unaliased>"@,
                },
                min: e.hops.min,
                max: e.hops.max,
            },
        ]
    } else {
        seq![]
    }
}

pub open spec fn anti_direction_errors(e: EdgePatternView) -> Seq<ValidationErrorView> {
    if e.direction != Direction::Outgoing {
        seq![ValidationErrorView::NotExistsMustBeOutgoing]
    } else {
        seq![]
    }
}

/// That a pattern is one edge between two nodes.
pub open spec fn one_hop(steps: Seq<PatternStepView>) -> bool {
    steps.len() == 3 && steps[0] is Node && steps[1] is Edge && steps[2] is Node
}

pub open spec fn not_exists_errors(
    sub: ExistsSubqueryView,
    s: SchemaView,
    scope: ScopeView,
) -> Seq<ValidationErrorView> {
    let steps = sub.pattern.steps;
    if !one_hop(steps) {
        seq![ValidationErrorView::NotExistsWrongShape(steps.len())]
    } else {
        let from = steps[0]->Node_0;
        let edge = steps[1]->Edge_0;
        let to = steps[2]->Node_0;
        anchor_errors(scope, from) + anchor_errors(scope, to) + edge_errors(edge, s)
            + anti_hop_errors(edge) + anti_direction_errors(edge) + inner_conditions_errors(
            sub.where_conditions,
            s,
            ScopeView { steps: scope.steps, inner: Some(edge) },
        )
    }
}

/// The faults of a condition of the query itself.
pub open spec fn condition_errors(
    c: WhereConditionView,
    s: SchemaView,
    scope: ScopeView,
) -> Seq<ValidationErrorView> {
    match c {
        WhereConditionView::NotExists(sub) => not_exists_errors(sub, s, scope),
        _ => inner_condition_errors(c, s, scope),
    }
}

pub open spec fn conditions_errors(
    conditions: Seq<WhereConditionView>,
    s: SchemaView,
    scope: ScopeView,
) -> Seq<ValidationErrorView>
    decreases conditions.len(),
{
    if conditions.len() == 0 {
        seq![]
    } else {
        condition_errors(conditions[0], s, scope) + conditions_errors(
            conditions.drop_first(),
            s,
            scope,
        )
    }
}

/// The faults of an item of a projection. An alias alone may be that of a node
/// or of an edge; a property needs a label or a type to be declared under.
pub open spec fn return_item_errors(
    item: ReturnItemView,
    s: SchemaView,
    scope: ScopeView,
) -> Seq<ValidationErrorView> {
    match item.property {
        Some(property) => property_ref_errors(scope, s, item.alias, property, ComparisonOp::Eq),
        None => if binds_node(scope.steps, item.alias) || binds_edge(scope.steps, item.alias) {
            seq![]
        } else {
            seq![ValidationErrorView::UnknownAlias(item.alias)]
        },
    }
}

pub open spec fn return_items_errors(
    items: Seq<ReturnItemView>,
    s: SchemaView,
    scope: ScopeView,
) -> Seq<ValidationErrorView>
    decreases items.len(),
{
    if items.len() == 0 {
        seq![]
    } else {
        return_item_errors(items[0], s, scope) + return_items_errors(
            items.drop_first(),
            s,
            scope,
        )
    }
}

pub open spec fn order_by_errors(
    order_by: Option<OrderByView>,
    s: SchemaView,
    scope: ScopeView,
) -> Seq<ValidationErrorView> {
    match order_by {
        Some(o) => property_ref_errors(scope, s, o.alias, o.property, ComparisonOp::Eq),
        None => seq![],
    }
}

/// All faults of a query.
pub open spec fn query_errors(q: QueryView, s: SchemaView) -> Seq<ValidationErrorView> {
    let scope = ScopeView { steps: q.pattern.steps, inner: None };
    steps_errors(q.pattern.steps, s) + conditions_errors(q.where_conditions, s, scope)
        + return_items_errors(q.returns, s, scope) + order_by_errors(q.order_by, s, scope)
}

/// The scope of a condition, as executable data.
struct Scope<'a> {
    steps: &'a Vec<PatternStep>,
    inner: Option<&'a EdgePattern>,
}

impl<'a> View for Scope<'a> {
    type V = ScopeView;

    closed spec fn view(&self) -> ScopeView {
        ScopeView {
            steps: text::views(self.steps@),
            inner: match self.inner {
                Some(e) => Some(e@),
                None => None,
            },
        }
    }
}

fn scope_binds_node(scope: &Scope, alias: &str) -> (r: bool)
    ensures
        r == binds_node(scope@.steps, alias@),
{
    let ghost all = scope@.steps;
    let mut i: usize = 0;
    while i < scope.steps.len()
        invariant
            i <= scope.steps.len(),
            all == text::views(scope.steps@),
            forall|k: int|
                0 <= k < i ==> !(#[trigger] all[k] matches PatternStepView::Node(n) && n.alias
                    == alias@),
        decreases scope.steps.len() - i,
    {
        assert(all[i as int] == scope.steps[i as int]@);
        if let PatternStep::Node(n) = &scope.steps[i] {
            if text::str_eq(n.alias.as_str(), alias) {
                return true;
            }
        }
        i = i + 1;
    }
    false
}

fn scope_binds_edge(scope: &Scope, alias: &str) -> (r: bool)
    ensures
        r == binds_edge(scope@.steps, alias@),
{
    let ghost all = scope@.steps;
    let mut i: usize = 0;
    while i < scope.steps.len()
        invariant
            i <= scope.steps.len(),
            all == text::views(scope.steps@),
            forall|k: int|
                0 <= k < i ==> !(#[trigger] all[k] matches PatternStepView::Edge(e) && e.alias
                    == Some(alias@)),
        decreases scope.steps.len() - i,
    {
        assert(all[i as int] == scope.steps[i as int]@);
        if let PatternStep::Edge(e) = &scope.steps[i] {
            if let Some(a) = &e.alias {
                if text::str_eq(a.as_str(), alias) {
                    return true;
                }
            }
        }
        i = i + 1;
    }
    false
}

fn scope_label<'a>(scope: &Scope<'a>, alias: &str) -> (r: Option<&'a Label>)
    ensures
        match r {
            Some(l) => label_of(scope@.steps, alias@) == Some(l@),
            None => label_of(scope@.steps, alias@) is None,
        },
{
    let ghost all = scope@.steps;
    let mut i: usize = scope.steps.len();
    assert(all.take(i as int) =~= all);
    while i > 0
        invariant
            i <= scope.steps.len(),
            all == text::views(scope.steps@),
            label_of(all, alias@) == label_of(all.take(i as int), alias@),
        decreases i,
    {
        let ghost taken = all.take(i as int);
        assert(taken.last() == scope.steps[i - 1]@);
        assert(taken.drop_last() =~= all.take(i - 1));
        i = i - 1;
        if let PatternStep::Node(n) = &scope.steps[i] {
            if let Some(label) = &n.label {
                if text::str_eq(n.alias.as_str(), alias) {
                    return Some(label);
                }
            }
        }
    }
    None
}

fn names_edge(e: &EdgePattern, alias: &str) -> (r: bool)
    ensures
        r == edge_gives_type(e@, alias@),
{
    match &e.alias {
        Some(a) => e.edge_type.is_some() && text::str_eq(a.as_str(), alias),
        None => false,
    }
}

fn scope_edge_type<'a>(scope: &Scope<'a>, alias: &str) -> (r: Option<&'a EdgeType>)
    ensures
        match r {
            Some(t) => scope@.edge_type(alias@) == Some(t@),
            None => scope@.edge_type(alias@) is None,
        },
{
    if let Some(e) = scope.inner {
        if names_edge(e, alias) {
            return e.edge_type.as_ref();
        }
    }
    let ghost all = scope@.steps;
    let mut i: usize = scope.steps.len();
    assert(all.take(i as int) =~= all);
    while i > 0
        invariant
            i <= scope.steps.len(),
            all == text::views(scope.steps@),
            edge_type_of(all, alias@) == edge_type_of(all.take(i as int), alias@),
            scope@.edge_type(alias@) == edge_type_of(all, alias@),
        decreases i,
    {
        let ghost taken = all.take(i as int);
        assert(taken.last() == scope.steps[i - 1]@);
        assert(taken.drop_last() =~= all.take(i - 1));
        i = i - 1;
        if let PatternStep::Edge(e) = &scope.steps[i] {
            if names_edge(e, alias) {
                return e.edge_type.as_ref();
            }
        }
    }
    None
}

fn push_error(errors: &mut Vec<ValidationError>, e: ValidationError)
    ensures
        text::views(final(errors)@) == text::views(old(errors)@) + seq![e@],
{
    proof {
        text::lemma_views_push(errors@, e);
        assert(text::views(errors@).push(e@) =~= text::views(errors@) + seq![e@]);
    }
    errors.push(e);
}

fn validate_node_property_filter(
    label: &Label,
    property: &str,
    op: ComparisonOp,
    s: &Schema,
    errors: &mut Vec<ValidationError>,
)
    ensures
        text::views(final(errors)@) == text::views(old(errors)@) + node_property_errors(
            label@,
            property@,
            op,
            s@,
        ),
{
    let ghost before = text::views(errors@);
    assert(before + Seq::<ValidationErrorView>::empty() =~= before);
    match s.node_def(label) {
        None => {},
        Some(def) => match schema::property_def(&def.properties, property) {
            Some(p) => {
                if !operator_compatible(&p.ty, op) {
                    push_error(
                        errors,
                        ValidationError::IncompatibleOperator { property: property.to_owned() },
                    );
                }
            },
            None => push_error(
                errors,
                ValidationError::UnknownProperty {
                    label: label.0.clone(),
                    property: property.to_owned(),
                },
            ),
        },
    }
}

fn validate_edge_property(
    edge_type: &EdgeType,
    property: &str,
    op: ComparisonOp,
    s: &Schema,
    errors: &mut Vec<ValidationError>,
)
    ensures
        text::views(final(errors)@) == text::views(old(errors)@) + edge_property_errors(
            edge_type@,
            property@,
            op,
            s@,
        ),
{
    let ghost before = text::views(errors@);
    assert(before + Seq::<ValidationErrorView>::empty() =~= before);
    match s.edge_def(edge_type) {
        None => {},
        Some(def) => match schema::property_def(&def.properties, property) {
            Some(p) => {
                if !operator_compatible(&p.ty, op) {
                    push_error(
                        errors,
                        ValidationError::IncompatibleOperator { property: property.to_owned() },
                    );
                }
            },
            None => push_error(
                errors,
                ValidationError::UnknownProperty {
                    label: edge_type.0.clone(),
                    property: property.to_owned(),
                },
            ),
        },
    }
}

fn validate_property_ref(
    scope: &Scope,
    s: &Schema,
    alias: &str,
    property: &str,
    op: ComparisonOp,
    errors: &mut Vec<ValidationError>,
)
    ensures
        text::views(final(errors)@) == text::views(old(errors)@) + property_ref_errors(
            scope@,
            s@,
            alias@,
            property@,
            op,
        ),
{
    if let Some(label) = scope_label(scope, alias) {
        validate_node_property_filter(label, property, op, s, errors);
        return;
    }
    if let Some(edge_type) = scope_edge_type(scope, alias) {
        validate_edge_property(edge_type, property, op, s, errors);
        return;
    }
    push_error(errors, ValidationError::UnknownAlias(alias.to_owned()));
}

fn validate_node_pattern(n: &NodePattern, s: &Schema, errors: &mut Vec<ValidationError>)
    ensures
        text::views(final(errors)@) == text::views(old(errors)@) + node_errors(n@, s@),
{
    let ghost before = text::views(errors@);
    assert(before + Seq::<ValidationErrorView>::empty() =~= before);
    let label = match &n.label {
        Some(label) => label,
        None => return,
    };
    if s.node_def(label).is_none() {
        push_error(errors, ValidationError::UnknownLabel(label.0.clone()));
        return;
    }
    let ghost all = text::views(n.property_filters@);
    let mut i: usize = 0;
    assert(all.skip(0) =~= all);
    while i < n.property_filters.len()
        invariant
            i <= n.property_filters.len(),
            all == text::views(n.property_filters@),
            before + filter_errors(label@, all, s@) == text::views(errors@) + filter_errors(
                label@,
                all.skip(i as int),
                s@,
            ),
        decreases n.property_filters.len() - i,
    {
        let f = &n.property_filters[i];
        let ghost earlier = text::views(errors@);
        let ghost rest = filter_errors(label@, all.skip(i + 1), s@);
        assert(all.skip(i as int)[0] == f@);
        assert(all.skip(i as int).drop_first() =~= all.skip(i + 1));
        validate_node_property_filter(label, f.property.as_str(), f.op, s, errors);
        assert(earlier + (node_property_errors(label@, f@.property, f@.op, s@) + rest)
            =~= text::views(errors@) + rest);
        i = i + 1;
    }
    assert(text::views(errors@) + Seq::<ValidationErrorView>::empty() =~= text::views(errors@));
}

fn validate_edge_pattern(e: &EdgePattern, s: &Schema, errors: &mut Vec<ValidationError>)
    ensures
        text::views(final(errors)@) == text::views(old(errors)@) + edge_errors(e@, s@),
{
    let ghost before = text::views(errors@);
    if let Some(t) = &e.edge_type {
        if s.edge_def(t).is_none() {
            push_error(errors, ValidationError::UnknownEdgeType(t.0.clone()));
        }
    }
    assert(text::views(errors@) =~= before + edge_type_errors(e@, s@));
    if let Some(alias) = &e.alias {
        if e.hops.min != 1 || e.hops.max != 1 {
            push_error(
                errors,
                ValidationError::EdgeAliasOnVariableLengthHop {
                    alias: alias.clone(),
                    min: e.hops.min,
                    max: e.hops.max,
                },
            );
        }
    }
    assert(text::views(errors@) =~= before + edge_errors(e@, s@));
}

fn validate_alias(scope: &Scope, alias: &str, errors: &mut Vec<ValidationError>)
    ensures
        text::views(final(errors)@) == text::views(old(errors)@) + alias_errors(scope@, alias@),
{
    let ghost before = text::views(errors@);
    assert(before + Seq::<ValidationErrorView>::empty() =~= before);
    if !scope_binds_node(scope, alias) {
        push_error(errors, ValidationError::UnknownAlias(alias.to_owned()));
    }
}

fn validate_inner_condition(
    c: &WhereCondition,
    s: &Schema,
    scope: &Scope,
    errors: &mut Vec<ValidationError>,
)
    ensures
        text::views(final(errors)@) == text::views(old(errors)@) + inner_condition_errors(
            c@,
            s@,
            scope@,
        ),
{
    let ghost before = text::views(errors@);
    match c {
        WhereCondition::Property(alias, f) => {
            validate_property_ref(scope, s, alias.as_str(), f.property.as_str(), f.op, errors);
        },
        WhereCondition::AliasComparison { left, op: _, right } => {
            validate_alias(scope, left.as_str(), errors);
            validate_alias(scope, right.as_str(), errors);
            assert(text::views(errors@) =~= before + (alias_errors(scope@, left@) + alias_errors(
                scope@,
                right@,
            )));
        },
        WhereCondition::PropertyComparison { left, op, right } => {
            validate_property_ref(
                scope,
                s,
                left.alias.as_str(),
                left.property.as_str(),
                *op,
                errors,
            );
            validate_property_ref(
                scope,
                s,
                right.alias.as_str(),
                right.property.as_str(),
                ComparisonOp::Eq,
                errors,
            );
            assert(text::views(errors@) =~= before + inner_condition_errors(c@, s@, scope@));
        },
        WhereCondition::NotExists(sub) => {
            proof {
                crate::dsl::lemma_not_exists_view(*sub);
            }
            push_error(errors, ValidationError::NestedNotExists);
        },
    }
}

fn validate_anchor(scope: &Scope, n: &NodePattern, errors: &mut Vec<ValidationError>)
    ensures
        text::views(final(errors)@) == text::views(old(errors)@) + anchor_errors(scope@, n@),
{
    let ghost before = text::views(errors@);
    assert(before + Seq::<ValidationErrorView>::empty() =~= before);
    if !scope_binds_node(scope, n.alias.as_str()) || n.label.is_some() || n.property_filters.len()
        > 0 {
        push_error(errors, ValidationError::NotExistsAnchorNotPreBound(n.alias.clone()));
    }
}

fn validate_anti_edge(e: &EdgePattern, errors: &mut Vec<ValidationError>)
    ensures
        text::views(final(errors)@) == text::views(old(errors)@) + anti_hop_errors(e@)
            + anti_direction_errors(e@),
{
    let ghost before = text::views(errors@);
    if e.hops.min != 1 || e.hops.max != 1 {
        let alias = match &e.alias {
            Some(alias) => alias.clone(),
            None => "<unaliased>".to_owned(),
        };
        push_error(
            errors,
            ValidationError::EdgeAliasOnVariableLengthHop {
                alias,
                min: e.hops.min,
                max: e.hops.max,
            },
        );
    }
    assert(text::views(errors@) =~= before + anti_hop_errors(e@));
    if e.direction != Direction::Outgoing {
        push_error(errors, ValidationError::NotExistsMustBeOutgoing);
    }
    assert(text::views(errors@) =~= before + anti_hop_errors(e@) + anti_direction_errors(e@));
}

/// The node, the edge and the node of a pattern that is one hop.
pub(crate) fn one_hop_parts(p: &Pattern) -> (r: Option<(&NodePattern, &EdgePattern, &NodePattern)>)
    ensures
        match r {
            Some((a, e, b)) => one_hop(p@.steps) && p@.steps[0] == PatternStepView::Node(a@)
                && p@.steps[1] == PatternStepView::Edge(e@) && p@.steps[2]
                == PatternStepView::Node(b@),
            None => !one_hop(p@.steps),
        },
{
    if p.steps.len() != 3 {
        return None;
    }
    assert(p@.steps[0] == p.steps[0]@);
    assert(p@.steps[1] == p.steps[1]@);
    assert(p@.steps[2] == p.steps[2]@);
    match (&p.steps[0], &p.steps[1], &p.steps[2]) {
        (PatternStep::Node(a), PatternStep::Edge(e), PatternStep::Node(b)) => Some((a, e, b)),
        _ => None,
    }
}

fn validate_inner_conditions(
    conditions: &Vec<WhereCondition>,
    s: &Schema,
    scope: &Scope,
    errors: &mut Vec<ValidationError>,
)
    ensures
        text::views(final(errors)@) == text::views(old(errors)@) + inner_conditions_errors(
            text::views(conditions@),
            s@,
            scope@,
        ),
{
    let ghost before = text::views(errors@);
    let ghost all = text::views(conditions@);
    let mut i: usize = 0;
    assert(all.skip(0) =~= all);
    while i < conditions.len()
        invariant
            i <= conditions.len(),
            all == text::views(conditions@),
            before + inner_conditions_errors(all, s@, scope@) == text::views(errors@)
                + inner_conditions_errors(all.skip(i as int), s@, scope@),
        decreases conditions.len() - i,
    {
        let c = &conditions[i];
        let ghost earlier = text::views(errors@);
        let ghost rest = inner_conditions_errors(all.skip(i + 1), s@, scope@);
        assert(all.skip(i as int)[0] == c@);
        assert(all.skip(i as int).drop_first() =~= all.skip(i + 1));
        validate_inner_condition(c, s, scope, errors);
        assert(earlier + (inner_condition_errors(c@, s@, scope@) + rest) =~= text::views(errors@)
            + rest);
        i = i + 1;
    }
    assert(text::views(errors@) + Seq::<ValidationErrorView>::empty() =~= text::views(errors@));
}

proof fn lemma_concat<A>(s: Seq<A>, a: Seq<A>, b: Seq<A>, c: Seq<A>, d: Seq<A>, e: Seq<A>, f: Seq<A>)
    ensures
        s + a + b + c + d + e + f == s + (a + b + c + d + e + f),
{
    assert(s + a + b == s + (a + b));
    assert(s + (a + b) + c == s + (a + b + c));
    assert(s + (a + b + c) + d == s + (a + b + c + d));
    assert(s + (a + b + c + d) + e == s + (a + b + c + d + e));
    assert(s + (a + b + c + d + e) + f == s + (a + b + c + d + e + f));
}

fn validate_not_exists(
    sub: &ExistsSubquery,
    s: &Schema,
    outer: &Scope,
    errors: &mut Vec<ValidationError>,
)
    requires
        outer@.inner is None,
    ensures
        text::views(final(errors)@) == text::views(old(errors)@) + not_exists_errors(
            sub@,
            s@,
            outer@,
        ),
{
    let ghost before = text::views(errors@);
    let (from, edge, to) = match one_hop_parts(&sub.pattern) {
        Some(parts) => parts,
        None => {
            push_error(errors, ValidationError::NotExistsWrongShape(sub.pattern.steps.len()));
            return;
        },
    };
    validate_anchor(outer, from, errors);
    validate_anchor(outer, to, errors);
    validate_edge_pattern(edge, s, errors);
    validate_anti_edge(edge, errors);
    let inner = Scope { steps: outer.steps, inner: Some(edge) };
    validate_inner_conditions(&sub.where_conditions, s, &inner, errors);
    proof {
        lemma_concat(
            before,
            anchor_errors(outer@, from@),
            anchor_errors(outer@, to@),
            edge_errors(edge@, s@),
            anti_hop_errors(edge@),
            anti_direction_errors(edge@),
            inner_conditions_errors(sub@.where_conditions, s@, inner@),
        );
    }
}

fn validate_where_condition(
    c: &WhereCondition,
    s: &Schema,
    scope: &Scope,
    errors: &mut Vec<ValidationError>,
)
    requires
        scope@.inner is None,
    ensures
        text::views(final(errors)@) == text::views(old(errors)@) + condition_errors(
            c@,
            s@,
            scope@,
        ),
{
    match c {
        WhereCondition::NotExists(sub) => {
            proof {
                crate::dsl::lemma_not_exists_view(*sub);
            }
            validate_not_exists(sub, s, scope, errors);
        },
        _ => validate_inner_condition(c, s, scope, errors),
    }
}

fn validate_return_item(
    item: &ReturnItem,
    s: &Schema,
    scope: &Scope,
    errors: &mut Vec<ValidationError>,
)
    ensures
        text::views(final(errors)@) == text::views(old(errors)@) + return_item_errors(
            item@,
            s@,
            scope@,
        ),
{
    let ghost before = text::views(errors@);
    assert(before + Seq::<ValidationErrorView>::empty() =~= before);
    match &item.property {
        Some(property) => validate_property_ref(
            scope,
            s,
            item.alias.as_str(),
            property.as_str(),
            ComparisonOp::Eq,
            errors,
        ),
        None => {
            if !scope_binds_node(scope, item.alias.as_str()) && !scope_binds_edge(
                scope,
                item.alias.as_str(),
            ) {
                push_error(errors, ValidationError::UnknownAlias(item.alias.clone()));
            }
        },
    }
}

fn validate_order_by(
    order_by: &OrderBy,
    s: &Schema,
    scope: &Scope,
    errors: &mut Vec<ValidationError>,
)
    ensures
        text::views(final(errors)@) == text::views(old(errors)@) + order_by_errors(
            Some(order_by@),
            s@,
            scope@,
        ),
{
    validate_property_ref(
        scope,
        s,
        order_by.alias.as_str(),
        order_by.property.as_str(),
        ComparisonOp::Eq,
        errors,
    );
}

fn validate_steps(steps: &Vec<PatternStep>, s: &Schema, errors: &mut Vec<ValidationError>)
    ensures
        text::views(final(errors)@) == text::views(old(errors)@) + steps_errors(
            text::views(steps@),
            s@,
        ),
{
    let ghost before = text::views(errors@);
    let ghost all = text::views(steps@);
    let mut i: usize = 0;
    assert(all.skip(0) =~= all);
    while i < steps.len()
        invariant
            i <= steps.len(),
            all == text::views(steps@),
            before + steps_errors(all, s@) == text::views(errors@) + steps_errors(
                all.skip(i as int),
                s@,
            ),
        decreases steps.len() - i,
    {
        let ghost earlier = text::views(errors@);
        let ghost rest = steps_errors(all.skip(i + 1), s@);
        assert(all.skip(i as int)[0] == steps[i as int]@);
        assert(all.skip(i as int).drop_first() =~= all.skip(i + 1));
        match &steps[i] {
            PatternStep::Node(n) => validate_node_pattern(n, s, errors),
            PatternStep::Edge(e) => validate_edge_pattern(e, s, errors),
        }
        assert(earlier + (step_errors(steps[i as int]@, s@) + rest) =~= text::views(errors@)
            + rest);
        i = i + 1;
    }
    assert(text::views(errors@) + Seq::<ValidationErrorView>::empty() =~= text::views(errors@));
}

/// Checks queries.
pub trait Validator {
    fn validate(&self, query: &Query, schema: &Schema) -> Result<(), Vec<ValidationError>>;
}

/// Checks queries against a schema alone.
pub struct SchemaValidator;

impl Validator for SchemaValidator {
    /// `Ok` where the query has no fault; otherwise all its faults.
    fn validate(&self, query: &Query, schema: &Schema) -> (r: Result<(), Vec<ValidationError>>)
        ensures
            match r {
                Ok(_) => query_errors(query@, schema@).len() == 0,
                Err(errors) => text::views(errors@) == query_errors(query@, schema@)
                    && errors@.len() > 0,
            },
    {
        let mut errors: Vec<ValidationError> = Vec::new();
        let ghost s = schema@;
        validate_steps(&query.pattern.steps, schema, &mut errors);
        let ghost after_steps = steps_errors(query@.pattern.steps, s);
        assert(text::views(errors@) =~= after_steps);
        let scope = Scope { steps: &query.pattern.steps, inner: None };
        let ghost conditions = text::views(query.where_conditions@);
        let mut i: usize = 0;
        assert(conditions.skip(0) =~= conditions);
        while i < query.where_conditions.len()
            invariant
                i <= query.where_conditions.len(),
                s == schema@,
                scope@.inner is None,
                conditions == text::views(query.where_conditions@),
                after_steps + conditions_errors(conditions, s, scope@) == text::views(errors@)
                    + conditions_errors(conditions.skip(i as int), s, scope@),
            decreases query.where_conditions.len() - i,
        {
            let c = &query.where_conditions[i];
            let ghost earlier = text::views(errors@);
            let ghost rest = conditions_errors(conditions.skip(i + 1), s, scope@);
            assert(conditions.skip(i as int)[0] == c@);
            assert(conditions.skip(i as int).drop_first() =~= conditions.skip(i + 1));
            validate_where_condition(c, schema, &scope, &mut errors);
            assert(earlier + (condition_errors(c@, s, scope@) + rest) =~= text::views(errors@)
                + rest);
            i = i + 1;
        }
        assert(text::views(errors@) =~= after_steps + conditions_errors(conditions, s, scope@));
        let ghost after_conditions = text::views(errors@);
        let ghost items = text::views(query.returns@);
        let mut j: usize = 0;
        assert(items.skip(0) =~= items);
        while j < query.returns.len()
            invariant
                j <= query.returns.len(),
                s == schema@,
                items == text::views(query.returns@),
                after_conditions + return_items_errors(items, s, scope@) == text::views(errors@)
                    + return_items_errors(items.skip(j as int), s, scope@),
            decreases query.returns.len() - j,
        {
            let item = &query.returns[j];
            let ghost earlier = text::views(errors@);
            let ghost rest = return_items_errors(items.skip(j + 1), s, scope@);
            assert(items.skip(j as int)[0] == item@);
            assert(items.skip(j as int).drop_first() =~= items.skip(j + 1));
            validate_return_item(item, schema, &scope, &mut errors);
            assert(earlier + (return_item_errors(item@, s, scope@) + rest) =~= text::views(errors@)
                + rest);
            j = j + 1;
        }
        assert(text::views(errors@) =~= after_conditions + return_items_errors(items, s, scope@));
        if let Some(order_by) = &query.order_by {
            validate_order_by(order_by, schema, &scope, &mut errors);
        }
        assert(text::views(errors@) =~= query_errors(query@, s));
        if errors.len() == 0 {
            Ok(())
        } else {
            Err(errors)
        }
    }
}

} // verus!
