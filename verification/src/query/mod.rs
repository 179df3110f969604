//! Plans of queries and their execution: on one partition, and over a
//! cluster hop by hop.
use crate::dsl::{
    ComparisonOp, Direction, HopRange, PropertyFilter, PropertyFilterView, PropertyRef,
    PropertyRefView, ReturnItem, ReturnItemView,
};
use crate::index::{PropertyKey, PropertyKeyView, RemoteRef};
use crate::maps::NamedMap;
use crate::schema::{EdgeId, NodeId};
use crate::text;
use crate::text::Duplicate;
use vstd::prelude::*;
use vstd::string::*;

pub mod agreement;
pub mod answers;
pub mod comparing;
pub mod distributed;
pub mod filter_eval;
pub mod local_executor;
pub mod lookup;
pub mod hydration;
pub mod matches;
pub mod meaning;
pub mod planner;
pub mod pushdown;
pub mod routing;
pub mod sequence;
pub mod walk;
pub mod whole_plan;

verus! {

/// A query as a sequence of steps, the conditions that remain to be checked
/// of each row that the steps give, and what to project.
#[derive(Debug)]
pub struct QueryPlan {
    pub steps: Vec<PlanStep>,
    pub remaining: Vec<(String, PropertyFilter)>,
    pub project: Vec<ReturnItem>,
}

pub struct QueryPlanView {
    pub steps: Seq<PlanStepView>,
    pub remaining: Seq<(Seq<char>, PropertyFilterView)>,
    pub project: Seq<ReturnItemView>,
}

/// Conditions, each on a property of an alias.
pub open spec fn conditions_on(conditions: Seq<(String, PropertyFilter)>) -> Seq<
    (Seq<char>, PropertyFilterView),
> {
    Seq::new(conditions.len(), |i: int| (conditions[i].0@, conditions[i].1@))
}

impl View for QueryPlan {
    type V = QueryPlanView;

    open spec fn view(&self) -> QueryPlanView {
        QueryPlanView {
            steps: text::views(self.steps@),
            remaining: conditions_on(self.remaining@),
            project: text::views(self.project@),
        }
    }
}

/// One step of a plan.
#[derive(Debug)]
pub enum PlanStep {
    /// The nodes of a label whose property has a value.
    ResolveStart { alias: String, label_or_type: String, property: String, key: PropertyKey },
    /// All nodes of a label.
    ResolveAll { alias: String, label: String },
    /// A walk from the node bound to `from_alias`, as many hops as `hops`
    /// says. `filters` restrict the node that is reached.
    ExpandHop {
        from_alias: String,
        to_alias: String,
        to_label: Option<String>,
        edge_type: Option<String>,
        direction: Direction,
        hops: HopRange,
        filters: Vec<PropertyFilter>,
        edge_alias: Option<String>,
    },
    /// A check that there is no edge of a kind between two bound nodes.
    AntiJoin(AntiJoinStep),
}

pub enum PlanStepView {
    ResolveStart {
        alias: Seq<char>,
        label_or_type: Seq<char>,
        property: Seq<char>,
        key: PropertyKeyView,
    },
    ResolveAll { alias: Seq<char>, label: Seq<char> },
    ExpandHop(ExpandHopView),
    AntiJoin(AntiJoinStepView),
}

pub struct ExpandHopView {
    pub from_alias: Seq<char>,
    pub to_alias: Seq<char>,
    pub to_label: Option<Seq<char>>,
    pub edge_type: Option<Seq<char>>,
    pub direction: Direction,
    pub hops: HopRange,
    pub filters: Seq<PropertyFilterView>,
    pub edge_alias: Option<Seq<char>>,
}

impl View for PlanStep {
    type V = PlanStepView;

    open spec fn view(&self) -> PlanStepView {
        match self {
            PlanStep::ResolveStart { alias, label_or_type, property, key } =>
                PlanStepView::ResolveStart {
                    alias: alias@,
                    label_or_type: label_or_type@,
                    property: property@,
                    key: key@,
                },
            PlanStep::ResolveAll { alias, label } => PlanStepView::ResolveAll {
                alias: alias@,
                label: label@,
            },
            PlanStep::ExpandHop {
                from_alias,
                to_alias,
                to_label,
                edge_type,
                direction,
                hops,
                filters,
                edge_alias,
            } => PlanStepView::ExpandHop(
                ExpandHopView {
                    from_alias: from_alias@,
                    to_alias: to_alias@,
                    to_label: text::option_view(*to_label),
                    edge_type: text::option_view(*edge_type),
                    direction: *direction,
                    hops: *hops,
                    filters: text::views(filters@),
                    edge_alias: text::option_view(*edge_alias),
                },
            ),
            PlanStep::AntiJoin(step) => PlanStepView::AntiJoin(step@),
        }
    }
}

/// `NOT EXISTS { (from)-[edge]->(to) WHERE .. }`. A condition compares a
/// property of the edge with a literal, or with a property of something that
/// the enclosing pattern binds, whose value differs from row to row.
#[derive(Debug)]
pub struct AntiJoinStep {
    pub from_alias: String,
    pub to_alias: String,
    pub direction: Direction,
    pub edge_alias: Option<String>,
    pub edge_type: Option<String>,
    pub literal_conditions: Vec<PropertyFilter>,
    pub outer_conditions: Vec<(String, ComparisonOp, PropertyRef)>,
}

pub struct AntiJoinStepView {
    pub from_alias: Seq<char>,
    pub to_alias: Seq<char>,
    pub direction: Direction,
    pub edge_alias: Option<Seq<char>>,
    pub edge_type: Option<Seq<char>>,
    pub literal_conditions: Seq<PropertyFilterView>,
    pub outer_conditions: Seq<(Seq<char>, ComparisonOp, PropertyRefView)>,
}

pub open spec fn outer_views(conditions: Seq<(String, ComparisonOp, PropertyRef)>) -> Seq<
    (Seq<char>, ComparisonOp, PropertyRefView),
> {
    Seq::new(
        conditions.len(),
        |i: int| (conditions[i].0@, conditions[i].1, conditions[i].2@),
    )
}

impl View for AntiJoinStep {
    type V = AntiJoinStepView;

    open spec fn view(&self) -> AntiJoinStepView {
        AntiJoinStepView {
            from_alias: self.from_alias@,
            to_alias: self.to_alias@,
            direction: self.direction,
            edge_alias: text::option_view(self.edge_alias),
            edge_type: text::option_view(self.edge_type),
            literal_conditions: text::views(self.literal_conditions@),
            outer_conditions: outer_views(self.outer_conditions@),
        }
    }
}

/// One row in the making: the nodes and the edges that aliases are bound to.
#[derive(Debug)]
pub struct Binding {
    pub nodes: NamedMap<NodeId>,
    pub edges: NamedMap<EdgeId>,
}

#[verifier::ext_equal]
pub struct BindingView {
    pub nodes: Map<Seq<char>, NodeId>,
    pub edges: Map<Seq<char>, EdgeId>,
}

impl View for Binding {
    type V = BindingView;

    open spec fn view(&self) -> BindingView {
        BindingView { nodes: self.nodes@, edges: self.edges@ }
    }
}

impl Duplicate for Binding {
    fn duplicate(&self) -> (r: Self) {
        Binding { nodes: self.nodes.copied(), edges: self.edges.copied() }
    }
}

impl BindingView {
    /// The binding of one alias to a node.
    pub open spec fn of_node(alias: Seq<char>, node: NodeId) -> BindingView {
        BindingView { nodes: Map::empty().insert(alias, node), edges: Map::empty() }
    }

    /// The binding with one more alias bound to a node.
    pub open spec fn with_node(self, alias: Seq<char>, node: NodeId) -> BindingView {
        BindingView { nodes: self.nodes.insert(alias, node), edges: self.edges }
    }

    /// The binding with one more alias bound to an edge.
    pub open spec fn with_edge(self, alias: Seq<char>, edge: EdgeId) -> BindingView {
        BindingView { nodes: self.nodes, edges: self.edges.insert(alias, edge) }
    }
}

impl Binding {
    /// A binding with nothing bound.
    pub fn empty() -> (r: Self)
        ensures
            r@.nodes == Map::<Seq<char>, NodeId>::empty(),
            r@.edges == Map::<Seq<char>, EdgeId>::empty(),
    {
        Binding { nodes: NamedMap::new(), edges: NamedMap::new() }
    }

    /// A binding with exactly one node bound.
    pub fn from_node(alias: String, node: NodeId) -> (r: Self)
        ensures
            r@ == BindingView::of_node(alias@, node),
    {
        let mut r = Binding::empty();
        r.nodes.insert(alias, node);
        r
    }

    /// A copy with one more alias bound to a node.
    pub fn extended(&self, alias: &String, node: NodeId) -> (r: Self)
        ensures
            r@ == self@.with_node(alias@, node),
    {
        let mut r = self.duplicate();
        r.nodes.insert(alias.clone(), node);
        r
    }

    /// Whether two bindings bind the same aliases to the same things.
    pub fn same(&self, other: &Binding) -> (r: bool)
        ensures
            r == (self@ == other@),
    {
        self.nodes.same(&other.nodes) && self.edges.same(&other.edges)
    }
}

/// The rows of a step: those that end here, and those that go on at a node
/// of another partition.
#[derive(Debug)]
pub struct Frontier {
    pub local: Vec<Binding>,
    pub remote: Vec<(RemoteRef, Binding)>,
}

pub struct FrontierView {
    pub local: Seq<BindingView>,
    pub remote: Seq<(RemoteRef, BindingView)>,
}

pub open spec fn remote_views(rows: Seq<(RemoteRef, Binding)>) -> Seq<(RemoteRef, BindingView)> {
    Seq::new(rows.len(), |i: int| (rows[i].0, rows[i].1@))
}

impl View for Frontier {
    type V = FrontierView;

    open spec fn view(&self) -> FrontierView {
        FrontierView { local: text::views(self.local@), remote: remote_views(self.remote@) }
    }
}

/// Why a plan could not be executed.
#[derive(Clone, Debug, PartialEq, Eq)]
pub enum ExecutionError {
    NoIndex,
    UnknownAlias(String),
    Rpc(String),
}

pub enum ExecutionErrorView {
    NoIndex,
    UnknownAlias(Seq<char>),
    Rpc(Seq<char>),
}

impl View for ExecutionError {
    type V = ExecutionErrorView;

    open spec fn view(&self) -> ExecutionErrorView {
        match self {
            ExecutionError::NoIndex => ExecutionErrorView::NoIndex,
            ExecutionError::UnknownAlias(m) => ExecutionErrorView::UnknownAlias(m@),
            ExecutionError::Rpc(m) => ExecutionErrorView::Rpc(m@),
        }
    }
}

impl ExecutionErrorView {
    /// The error in words.
    pub open spec fn text(self) -> Seq<char> {
        match self {
            ExecutionErrorView::NoIndex => "index generation unavailable"@,
            ExecutionErrorView::UnknownAlias(m) => "plan step referenced unknown alias: "@ + m,
            ExecutionErrorView::Rpc(m) => "partition RPC failed: "@ + m,
        }
    }
}

impl ExecutionError {
    pub fn message(&self) -> (r: String)
        ensures
            r@ == self@.text(),
    {
        match self {
            ExecutionError::NoIndex => "index generation unavailable".to_owned(),
            ExecutionError::UnknownAlias(m) => {
                let mut s: String = "plan step referenced unknown alias: ".to_owned();
                s.append(m.as_str());
                s
            },
            ExecutionError::Rpc(m) => {
                let mut s: String = "partition RPC failed: ".to_owned();
                s.append(m.as_str());
                s
            },
        }
    }
}

/// What an execution gave.
pub open spec fn rows_view(r: Result<Vec<Binding>, ExecutionError>) -> Result<
    Seq<BindingView>,
    ExecutionErrorView,
> {
    match r {
        Ok(rows) => Ok(text::views(rows@)),
        Err(e) => Err(e@),
    }
}

} // verus!
