//! The query language: the syntax tree of a query, its grammar and its
//! validation against a schema.
//!
//! A query matches a pattern and projects what matched. It never aggregates.
use crate::schema::{EdgeType, Label};
use crate::text;
use crate::text::Duplicate;
use vstd::prelude::*;
use vstd::string::*;

pub mod faults;
pub mod floats;
pub mod grammar;
pub mod laws;
pub mod parser;
pub mod reach;
pub mod stopping;
pub mod validator;
pub mod writing;

verus! {

/// A chain of node and edge steps, such as
/// `(p:Person {name: "Alice"})-[:KNOWS*1..3]->(friend:Person)`.
#[derive(Clone, Debug, PartialEq)]
pub struct Pattern {
    pub steps: Vec<PatternStep>,
}

pub struct PatternView {
    pub steps: Seq<PatternStepView>,
}

impl View for Pattern {
    type V = PatternView;

    open spec fn view(&self) -> PatternView {
        PatternView { steps: text::views(self.steps@) }
    }
}

/// That steps go from node to node: nodes and edges take turns, and a node
/// stands at either end.
pub open spec fn alternates(steps: Seq<PatternStepView>) -> bool {
    &&& steps.len() % 2 == 1
    &&& forall|i: int|
        #![trigger steps[i]]
        0 <= i < steps.len() ==> (if i % 2 == 0 {
            steps[i] is Node
        } else {
            steps[i] is Edge
        })
}

/// One step of a pattern.
#[derive(Clone, Debug, PartialEq)]
pub enum PatternStep {
    Node(NodePattern),
    Edge(EdgePattern),
}

pub enum PatternStepView {
    Node(NodePatternView),
    Edge(EdgePatternView),
}

impl View for PatternStep {
    type V = PatternStepView;

    open spec fn view(&self) -> PatternStepView {
        match self {
            PatternStep::Node(n) => PatternStepView::Node(n@),
            PatternStep::Edge(e) => PatternStepView::Edge(e@),
        }
    }
}

/// A node of a pattern. Without a label and filters it refers to an alias
/// that is bound elsewhere.
#[derive(Clone, Debug, PartialEq)]
pub struct NodePattern {
    pub alias: String,
    pub label: Option<Label>,
    pub property_filters: Vec<PropertyFilter>,
}

pub struct NodePatternView {
    pub alias: Seq<char>,
    pub label: Option<Seq<char>>,
    pub property_filters: Seq<PropertyFilterView>,
}

impl View for NodePattern {
    type V = NodePatternView;

    open spec fn view(&self) -> NodePatternView {
        NodePatternView {
            alias: self.alias@,
            label: text::option_view(self.label),
            property_filters: text::views(self.property_filters@),
        }
    }
}

/// An edge of a pattern. The alias, where there is one, names the edge that
/// was walked; the validator allows it on a single hop only.
#[derive(Clone, Debug, PartialEq)]
pub struct EdgePattern {
    pub alias: Option<String>,
    pub edge_type: Option<EdgeType>,
    pub direction: Direction,
    pub hops: HopRange,
}

pub struct EdgePatternView {
    pub alias: Option<Seq<char>>,
    pub edge_type: Option<Seq<char>>,
    pub direction: Direction,
    pub hops: HopRange,
}

impl View for EdgePattern {
    type V = EdgePatternView;

    open spec fn view(&self) -> EdgePatternView {
        EdgePatternView {
            alias: text::option_view(self.alias),
            edge_type: text::option_view(self.edge_type),
            direction: self.direction,
            hops: self.hops,
        }
    }
}

/// Which way an edge is walked.
#[derive(Clone, Copy, Debug, PartialEq, Eq, Structural)]
pub enum Direction {
    Outgoing,
    Incoming,
}

/// How many hops an edge step may take, both ends included.
#[derive(Clone, Copy, Debug, PartialEq, Eq, Structural)]
pub struct HopRange {
    pub min: u32,
    pub max: u32,
}

/// A comparison of a property with a literal.
#[derive(Clone, Debug, PartialEq)]
pub struct PropertyFilter {
    pub property: String,
    pub op: ComparisonOp,
    pub value: Literal,
}

pub struct PropertyFilterView {
    pub property: Seq<char>,
    pub op: ComparisonOp,
    pub value: LiteralView,
}

impl View for PropertyFilter {
    type V = PropertyFilterView;

    open spec fn view(&self) -> PropertyFilterView {
        PropertyFilterView { property: self.property@, op: self.op, value: self.value@ }
    }
}

impl Duplicate for PropertyFilter {
    fn duplicate(&self) -> (r: Self) {
        PropertyFilter {
            property: self.property.clone(),
            op: self.op,
            value: self.value.duplicate(),
        }
    }
}

#[derive(Clone, Copy, Debug, PartialEq, Eq, Structural)]
pub enum ComparisonOp {
    Eq,
    Ne,
    Lt,
    Lte,
    Gt,
    Gte,
}

/// A literal of a query. A number with a fraction is read as the text it was
/// written as, `FloatText`; `Float64` holds the bit pattern of the IEEE 754
/// double that such a text stands for.
#[derive(Clone, Debug, PartialEq)]
pub enum Literal {
    Int64(i64),
    Float64(u64),
    FloatText(String),
    Bool(bool),
    String(String),
}

pub enum LiteralView {
    Int64(i64),
    Float64(u64),
    FloatText(Seq<char>),
    Bool(bool),
    String(Seq<char>),
}

impl View for Literal {
    type V = LiteralView;

    open spec fn view(&self) -> LiteralView {
        match self {
            Literal::Int64(v) => LiteralView::Int64(*v),
            Literal::Float64(v) => LiteralView::Float64(*v),
            Literal::FloatText(v) => LiteralView::FloatText(v@),
            Literal::Bool(v) => LiteralView::Bool(*v),
            Literal::String(v) => LiteralView::String(v@),
        }
    }
}

impl Duplicate for Literal {
    fn duplicate(&self) -> (r: Self) {
        match self {
            Literal::Int64(v) => Literal::Int64(*v),
            Literal::Float64(v) => Literal::Float64(*v),
            Literal::FloatText(v) => Literal::FloatText(v.clone()),
            Literal::Bool(v) => Literal::Bool(*v),
            Literal::String(v) => Literal::String(v.clone()),
        }
    }
}

/// `alias.property`. The alias may name a node or an edge.
#[derive(Clone, Debug, PartialEq)]
pub struct PropertyRef {
    pub alias: String,
    pub property: String,
}

pub struct PropertyRefView {
    pub alias: Seq<char>,
    pub property: Seq<char>,
}

impl View for PropertyRef {
    type V = PropertyRefView;

    open spec fn view(&self) -> PropertyRefView {
        PropertyRefView { alias: self.alias@, property: self.property@ }
    }
}

impl Duplicate for PropertyRef {
    fn duplicate(&self) -> (r: Self) {
        PropertyRef { alias: self.alias.clone(), property: self.property.clone() }
    }
}

/// One condition of a `WHERE` clause. The conditions of a clause hold
/// together: there is no `OR`.
#[derive(Debug, PartialEq)]
pub enum WhereCondition {
    Property(String, PropertyFilter),
    AliasComparison { left: String, op: ComparisonOp, right: String },
    PropertyComparison { left: PropertyRef, op: ComparisonOp, right: PropertyRef },
    NotExists(ExistsSubquery),
}

pub enum WhereConditionView {
    Property(Seq<char>, PropertyFilterView),
    AliasComparison { left: Seq<char>, op: ComparisonOp, right: Seq<char> },
    PropertyComparison { left: PropertyRefView, op: ComparisonOp, right: PropertyRefView },
    NotExists(ExistsSubqueryView),
}

/// `NOT EXISTS { MATCH <pattern> [WHERE <conditions>] }`: a check that is
/// correlated with the enclosing pattern, not a query of its own.
#[derive(Debug, PartialEq)]
pub struct ExistsSubquery {
    pub pattern: Pattern,
    pub where_conditions: Vec<WhereCondition>,
}

pub struct ExistsSubqueryView {
    pub pattern: PatternView,
    pub where_conditions: Seq<WhereConditionView>,
}

pub open spec fn condition_view(c: WhereCondition) -> WhereConditionView
    decreases c,
{
    match c {
        WhereCondition::Property(alias, filter) => WhereConditionView::Property(alias@, filter@),
        WhereCondition::AliasComparison { left, op, right } => WhereConditionView::AliasComparison {
            left: left@,
            op,
            right: right@,
        },
        WhereCondition::PropertyComparison { left, op, right } =>
            WhereConditionView::PropertyComparison { left: left@, op, right: right@ },
        WhereCondition::NotExists(sub) => WhereConditionView::NotExists(
            ExistsSubqueryView {
                pattern: sub.pattern@,
                where_conditions: Seq::new(
                    sub.where_conditions@.len(),
                    |i: int|
                        if 0 <= i < sub.where_conditions@.len() {
                            condition_view(sub.where_conditions@[i])
                        } else {
                            arbitrary()
                        },
                ),
            },
        ),
    }
}

impl View for WhereCondition {
    type V = WhereConditionView;

    open spec fn view(&self) -> WhereConditionView {
        condition_view(*self)
    }
}

impl View for ExistsSubquery {
    type V = ExistsSubqueryView;

    open spec fn view(&self) -> ExistsSubqueryView {
        ExistsSubqueryView {
            pattern: self.pattern@,
            where_conditions: text::views(self.where_conditions@),
        }
    }
}

pub proof fn lemma_not_exists_view(sub: ExistsSubquery)
    ensures
        WhereCondition::NotExists(sub)@ == WhereConditionView::NotExists(sub@),
{
    assert(WhereCondition::NotExists(sub)@->NotExists_0.where_conditions
        =~= sub@.where_conditions);
}

/// One projected item: a whole node or edge, or one of its properties.
#[derive(Clone, Debug, PartialEq)]
pub struct ReturnItem {
    pub alias: String,
    pub property: Option<String>,
}

pub struct ReturnItemView {
    pub alias: Seq<char>,
    pub property: Option<Seq<char>>,
}

impl View for ReturnItem {
    type V = ReturnItemView;

    open spec fn view(&self) -> ReturnItemView {
        ReturnItemView { alias: self.alias@, property: text::option_view(self.property) }
    }
}

impl Duplicate for ReturnItem {
    fn duplicate(&self) -> (r: Self) {
        ReturnItem {
            alias: self.alias.clone(),
            property: text::duplicate_option(&self.property),
        }
    }
}

#[derive(Clone, Copy, Debug, PartialEq, Eq, Structural)]
pub enum SortDirection {
    Asc,
    Desc,
}

/// The property that the rows of a result are sorted by.
#[derive(Clone, Debug, PartialEq)]
pub struct OrderBy {
    pub alias: String,
    pub property: String,
    pub direction: SortDirection,
}

pub struct OrderByView {
    pub alias: Seq<char>,
    pub property: Seq<char>,
    pub direction: SortDirection,
}

impl View for OrderBy {
    type V = OrderByView;

    open spec fn view(&self) -> OrderByView {
        OrderByView { alias: self.alias@, property: self.property@, direction: self.direction }
    }
}

impl Duplicate for OrderBy {
    fn duplicate(&self) -> (r: Self) {
        OrderBy {
            alias: self.alias.clone(),
            property: self.property.clone(),
            direction: self.direction,
        }
    }
}

/// `MATCH <pattern> [WHERE <conditions>] RETURN <items> [ORDER BY ..] [LIMIT ..]`.
#[derive(Debug, PartialEq)]
pub struct Query {
    pub pattern: Pattern,
    pub where_conditions: Vec<WhereCondition>,
    pub returns: Vec<ReturnItem>,
    pub order_by: Option<OrderBy>,
    pub limit: Option<u64>,
}

pub struct QueryView {
    pub pattern: PatternView,
    pub where_conditions: Seq<WhereConditionView>,
    pub returns: Seq<ReturnItemView>,
    pub order_by: Option<OrderByView>,
    pub limit: Option<u64>,
}

impl View for Query {
    type V = QueryView;

    open spec fn view(&self) -> QueryView {
        QueryView {
            pattern: self.pattern@,
            where_conditions: text::views(self.where_conditions@),
            returns: text::views(self.returns@),
            order_by: text::option_view(self.order_by),
            limit: self.limit,
        }
    }
}

/// Why a query text was refused.
#[derive(Clone, Debug, PartialEq)]
pub enum DslError {
    /// The text does not follow the grammar. `pos` is the byte where it
    /// stops following it.
    Syntax { pos: usize, message: String },
}

/// A syntax error in words.
pub open spec fn syntax_text(pos: int, message: Seq<char>) -> Seq<char> {
    "syntax error at position "@ + text::decimal_text(pos) + ": "@ + message
}

impl DslError {
    pub fn message(&self) -> (r: String)
        ensures
            match *self {
                DslError::Syntax { pos, message } => r@ == syntax_text(pos as int, message@),
            },
    {
        match self {
            DslError::Syntax { pos, message } => {
                let mut s: String = "syntax error at position ".to_owned();
                s.append(text::decimal_string(*pos as u64).as_str());
                s.append(": ");
                s.append(message.as_str());
                s
            },
        }
    }
}

} // verus!
