//! How the coordinator answers a query: it is read, checked against the
//! schema, planned, executed over the cluster, put in order, cut to its limit
//! and projected. A query that cannot be read or does not fit the schema is
//! refused before any partition is asked.
use crate::cluster::discovery::DiscoveryError;
use crate::cluster::{PartitionHasher, PartitionMap, ReplicaEndpoint, ReplicaEndpointView};
use crate::coordinator::ordering;
use crate::coordinator::projection;
use crate::coordinator::projection::{QueryResult, QueryResultView};
use crate::dsl;
use crate::dsl::parser;
use crate::dsl::parser::{Parser, PestParser};
use crate::dsl::validator;
use crate::dsl::validator::{SchemaValidator, Validator};
use crate::dsl::{OrderBy, OrderByView, Query, QueryView};
use crate::index::PartitionId;
use crate::query;
use crate::query::distributed;
use crate::query::distributed::{Fetched, PartitionRpc, PlanRun, ScatterGatherExecutor};
use crate::query::hydration::RecordsView;
use crate::query::planner;
use crate::query::planner::{NaivePlanner, Planner};
use crate::query::{
    Binding, BindingView, ExecutionError, ExecutionErrorView, PlanStep, PlanStepView, QueryPlan,
    QueryPlanView,
};
use crate::schema::{Schema, SchemaView};
use crate::text;
use crate::text::Duplicate;
use crate::wire::{Code, Status, StatusView};
use vstd::prelude::*;
use vstd::string::*;

verus! {

/// The stage at which a query failed.
#[derive(Clone, Copy, Debug, PartialEq, Eq, Structural)]
pub enum Stage {
    Parse,
    Validate,
    Discovery,
    Execute,
    /// The records of a result could not be fetched.
    Hydrate,
}

/// Why a query has no result.
#[derive(Clone, Debug, PartialEq, Eq)]
pub struct QueryFailure {
    pub stage: Stage,
    pub status: Status,
}

pub struct QueryFailureView {
    pub stage: Stage,
    pub status: StatusView,
}

impl View for QueryFailure {
    type V = QueryFailureView;

    open spec fn view(&self) -> QueryFailureView {
        QueryFailureView { stage: self.stage, status: self.status@ }
    }
}

/// A query that is ready to be executed.
#[derive(Debug)]
pub struct PreparedQuery {
    pub plan: QueryPlan,
    pub order_by: Option<OrderBy>,
    pub limit: Option<u64>,
}

pub struct PreparedQueryView {
    pub plan: QueryPlanView,
    pub order_by: Option<OrderByView>,
    pub limit: Option<u64>,
}

impl View for PreparedQuery {
    type V = PreparedQueryView;

    open spec fn view(&self) -> PreparedQueryView {
        PreparedQueryView {
            plan: self.plan@,
            order_by: text::option_view(self.order_by),
            limit: self.limit,
        }
    }
}

/// The schema, as a client asks for it.
#[derive(Debug)]
pub struct SchemaResponse {
    pub schema_idl: String,
    pub version: String,
}

/// A query as it is read.
pub open spec fn read_outcome(source: Seq<char>) -> Result<QueryView, QueryFailureView> {
    match parser::query_of(source) {
        Ok(q) => Ok(q),
        Err((pos, message)) => Err(
            QueryFailureView {
                stage: Stage::Parse,
                status: StatusView::invalid_argument(
                    "syntax error: "@ + dsl::syntax_text(pos, message),
                ),
            },
        ),
    }
}

/// Reads a query.
pub fn read_query(source: &str) -> (r: Result<Query, QueryFailure>)
    ensures
        match r {
            Ok(q) => read_outcome(source@) == Ok::<QueryView, QueryFailureView>(q@),
            Err(e) => read_outcome(source@) == Err::<QueryView, QueryFailureView>(e@),
        },
{
    match PestParser.parse(source) {
        Ok(q) => Ok(q),
        Err(e) => {
            let mut text: String = "syntax error: ".to_owned();
            text.append(e.message().as_str());
            Err(
                QueryFailure {
                    stage: Stage::Parse,
                    status: Status::invalid_argument(text.as_str()),
                },
            )
        },
    }
}

/// Whether a query can be planned if it fits the schema.
pub open spec fn answerable(q: QueryView, s: SchemaView) -> bool {
    validator::query_errors(q, s).len() == 0 ==> planner::plannable(q)
}

/// A query as it is prepared.
pub open spec fn prepare_outcome(q: QueryView, s: SchemaView) -> Result<
    PreparedQueryView,
    QueryFailureView,
> {
    let errors = validator::query_errors(q, s);
    if errors.len() > 0 {
        Err(
            QueryFailureView {
                stage: Stage::Validate,
                status: StatusView::invalid_argument(
                    "query failed validation: "@ + validator::debug_list(errors),
                ),
            },
        )
    } else {
        Ok(
            PreparedQueryView {
                plan: planner::plan_of(q),
                order_by: q.order_by,
                limit: q.limit,
            },
        )
    }
}

/// How many hops a plan has.
pub open spec fn hops_in(steps: Seq<PlanStepView>) -> nat
    decreases steps.len(),
{
    if steps.len() == 0 {
        0
    } else {
        hops_in(steps.drop_last()) + if steps.last() is ExpandHop {
            1nat
        } else {
            0nat
        }
    }
}

/// How many hops a plan has.
pub fn hop_count(plan: &QueryPlan) -> (r: u64)
    ensures
        r == hops_in(plan@.steps),
{
    let ghost all = plan@.steps;
    let mut count: u64 = 0;
    let mut i: usize = 0;
    assert(all.take(0) =~= Seq::<PlanStepView>::empty());
    while i < plan.steps.len()
        invariant
            i <= plan.steps@.len(),
            all == plan@.steps,
            count == hops_in(all.take(i as int)),
            count <= i,
        decreases plan.steps.len() - i,
    {
        proof {
            assert(all.take(i + 1).drop_last() =~= all.take(i as int));
            assert(all.take(i + 1).last() == plan.steps@[i as int]@);
        }
        if let PlanStep::ExpandHop { .. } = &plan.steps[i] {
            count = count + 1;
        }
        i = i + 1;
    }
    assert(all.take(all.len() as int) =~= all);
    count
}

/// What replicas answered while a query was answered.
pub struct AnswerRun {
    pub plan: PlanRun,
    pub sort: Fetched,
    pub last: Fetched,
}

/// Rows in the order of a query, given what was fetched for it.
pub open spec fn sort_outcome(
    rows: Seq<BindingView>,
    order_by: Option<OrderByView>,
    fetched: Fetched,
) -> Result<Seq<BindingView>, ExecutionErrorView> {
    match order_by {
        None => Ok(rows),
        Some(o) => match distributed::gathered_records(fetched) {
            Err(e) => Err(e),
            Ok(records) => Ok(ordering::ordered_rows(rows, o, records)),
        },
    }
}

pub open spec fn internal_failure(stage: Stage, e: ExecutionErrorView) -> QueryFailureView {
    QueryFailureView { stage, status: StatusView::internal(e.text()) }
}

/// The result of a prepared query, given what the replicas answered.
pub open spec fn answer_outcome(
    map: PartitionMap,
    n: u32,
    q: PreparedQueryView,
    run: AnswerRun,
) -> Result<Seq<QueryResultView>, QueryFailureView> {
    match distributed::plan_outcome(map, n, q.plan, run.plan) {
        Err(e) => Err(internal_failure(Stage::Execute, e)),
        Ok(rows) => match sort_outcome(rows, q.order_by, run.sort) {
            Err(e) => Err(internal_failure(Stage::Hydrate, e)),
            Ok(sorted) => match distributed::gathered_records(run.last) {
                Err(e) => Err(internal_failure(Stage::Hydrate, e)),
                Ok(records) => Ok(
                    projection::projected_all(
                        ordering::limited(sorted, q.limit),
                        q.plan.project,
                        records,
                    ),
                ),
            },
        },
    }
}

/// That what a query needs was asked of the replicas that have it, and
/// answered so: the rows of its plan, what they are sorted by, and what is
/// projected of the rows that are left.
pub open spec fn asked_answer<R: PartitionRpc>(
    rpc: R,
    map: PartitionMap,
    n: u32,
    q: PreparedQueryView,
    run: AnswerRun,
) -> bool {
    &&& distributed::asked_plan(rpc, map, n, q.plan, run.plan)
    &&& distributed::plan_outcome(map, n, q.plan, run.plan) matches Ok(rows) ==> {
        &&& q.order_by matches Some(o) ==> distributed::asked_records(
            rpc,
            map,
            n,
            rows,
            seq![o.alias],
            q.plan.steps,
            run.sort,
        )
        &&& sort_outcome(rows, q.order_by, run.sort) matches Ok(sorted)
            ==> distributed::asked_records(
            rpc,
            map,
            n,
            ordering::limited(sorted, q.limit),
            projection::item_aliases(q.plan.project),
            q.plan.steps,
            run.last,
        )
    }
}

/// What a result stands for.
pub open spec fn results_view(r: Result<Vec<QueryResult>, QueryFailure>) -> Result<
    Seq<QueryResultView>,
    QueryFailureView,
> {
    match r {
        Ok(rows) => Ok(text::views(rows@)),
        Err(e) => Err(e@),
    }
}

fn failed(stage: Stage, e: &ExecutionError) -> (r: QueryFailure)
    ensures
        r@ == internal_failure(stage, e@),
{
    QueryFailure { stage, status: Status::internal(e.message().as_str()) }
}

/// The failure of a query whose cluster is not known.
pub open spec fn undiscovered(e: DiscoveryError) -> QueryFailureView {
    QueryFailureView {
        stage: Stage::Discovery,
        status: StatusView::unavailable("cluster discovery failed: "@ + e.text()),
    }
}

fn discovery_status(e: &DiscoveryError) -> (r: Status)
    ensures
        r@ == undiscovered(*e).status,
{
    let mut text: String = "cluster discovery failed: ".to_owned();
    text.append(e.message().as_str());
    Status::unavailable(text.as_str())
}

/// Answers queries against one schema.
pub struct GraphServiceImpl<R> {
    schema: Schema,
    schema_idl: String,
    executor: ScatterGatherExecutor<R>,
}

impl<R: PartitionRpc> GraphServiceImpl<R> {
    pub closed spec fn schema_view(&self) -> SchemaView {
        self.schema@
    }

    /// The text that the schema was read from.
    pub closed spec fn idl(&self) -> Seq<char> {
        self.schema_idl@
    }

    /// How replicas are asked.
    pub closed spec fn rpc(&self) -> R {
        self.executor.rpc
    }

    pub closed spec fn n_partitions(&self) -> u32 {
        self.executor.hasher.n_partitions
    }

    pub fn new(schema: Schema, schema_idl: String, rpc: R, n_partitions: u32) -> (r: Self)
        ensures
            r.schema_view() == schema@,
            r.idl() == schema_idl@,
            r.rpc() == rpc,
            r.n_partitions() == n_partitions,
    {
        GraphServiceImpl {
            schema,
            schema_idl,
            executor: ScatterGatherExecutor::new(rpc, PartitionHasher { n_partitions }),
        }
    }

    /// Whether a query can be prepared: one that fits the schema has to name
    /// the label of its start, and not start at a property that is a double.
    pub fn can_prepare(&self, query: &Query) -> (r: bool)
        ensures
            r == answerable(query@, self.schema_view()),
    {
        match SchemaValidator.validate(query, &self.schema) {
            Ok(_) => planner::is_plannable(query),
            Err(_) => true,
        }
    }

    /// Checks a query against the schema, and plans it.
    pub fn prepare(&self, query: &Query) -> (r: Result<PreparedQuery, QueryFailure>)
        requires
            answerable(query@, self.schema_view()),
        ensures
            match r {
                Ok(q) => prepare_outcome(query@, self.schema_view()) == Ok::<
                    PreparedQueryView,
                    QueryFailureView,
                >(q@),
                Err(e) => prepare_outcome(query@, self.schema_view()) == Err::<
                    PreparedQueryView,
                    QueryFailureView,
                >(e@),
            },
    {
        match SchemaValidator.validate(query, &self.schema) {
            Err(errors) => {
                let mut text: String = "query failed validation: ".to_owned();
                text.append(validator::debug_of_errors(&errors).as_str());
                Err(
                    QueryFailure {
                        stage: Stage::Validate,
                        status: Status::invalid_argument(text.as_str()),
                    },
                )
            },
            Ok(_) => Ok(
                PreparedQuery {
                    plan: NaivePlanner.plan(query),
                    order_by: text::duplicate_option(&query.order_by),
                    limit: query.limit,
                },
            ),
        }
    }

    /// Puts rows in the order of a query.
    fn sort_rows(
        &self,
        rows: Vec<Binding>,
        order_by: &Option<OrderBy>,
        steps: &Vec<PlanStep>,
        partitions: &PartitionMap,
    ) -> (r: Result<Vec<Binding>, ExecutionError>)
        requires
            partitions.wf(),
            self.n_partitions() > 0,
        ensures
            exists|fetched: Fetched|
                (text::option_view(*order_by) matches Some(o) ==> distributed::asked_records(
                    self.rpc(),
                    *partitions,
                    self.n_partitions(),
                    text::views(rows@),
                    seq![o.alias],
                    text::views(steps@),
                    fetched,
                )) && query::rows_view(r) == #[trigger] sort_outcome(
                    text::views(rows@),
                    text::option_view(*order_by),
                    fetched,
                ),
    {
        let ghost all = text::views(rows@);
        let ghost wanted = text::option_view(*order_by);
        match order_by {
            None => {
                let ghost fetched = Fetched { nodes: seq![], edges: seq![] };
                let r: Result<Vec<Binding>, ExecutionError> = Ok(rows);
                assert(query::rows_view(r) == sort_outcome(all, wanted, fetched));
                r
            },
            Some(o) => {
                let mut aliases: Vec<String> = Vec::new();
                aliases.push(o.alias.clone());
                assert(text::views(aliases@) =~= seq![o.alias@]);
                let result = self.executor.hydrate(&rows, &aliases, steps, partitions);
                let ghost fetched = choose|fetched: Fetched|
                    distributed::asked_records(
                        self.rpc(),
                        *partitions,
                        self.n_partitions(),
                        all,
                        seq![o.alias@],
                        text::views(steps@),
                        fetched,
                    ) && match result {
                        Ok(records) => records.wf() && #[trigger] distributed::gathered_records(
                            fetched,
                        ) == Ok::<RecordsView, ExecutionErrorView>(records@),
                        Err(e) => distributed::gathered_records(fetched) == Err::<
                            RecordsView,
                            ExecutionErrorView,
                        >(e@),
                    };
                let r: Result<Vec<Binding>, ExecutionError> = match result {
                    Ok(records) => Ok(ordering::sort_bindings_by_property(rows, o, &records)),
                    Err(e) => Err(e),
                };
                assert(query::rows_view(r) == sort_outcome(all, wanted, fetched));
                r
            },
        }
    }

    /// Executes a prepared query on one view of the members of the cluster.
    fn answer_on(&self, q: &PreparedQuery, partitions: &PartitionMap) -> (r: Result<
        Vec<QueryResult>,
        QueryFailure,
    >)
        requires
            partitions.wf(),
            self.n_partitions() > 0,
        ensures
            exists|run: AnswerRun|
                asked_answer(self.rpc(), *partitions, self.n_partitions(), q@, run)
                    && results_view(r) == #[trigger] answer_outcome(
                    *partitions,
                    self.n_partitions(),
                    q@,
                    run,
                ),
    {
        let ghost n = self.n_partitions();
        let ghost nothing = Fetched { nodes: seq![], edges: seq![] };
        let executed = self.executor.execute(&q.plan, partitions);
        let ghost plan_run = choose|run: PlanRun|
            distributed::asked_plan(self.rpc(), *partitions, n, q@.plan, run)
                && query::rows_view(executed) == #[trigger] distributed::plan_outcome(
                *partitions,
                n,
                q@.plan,
                run,
            );
        let rows = match executed {
            Ok(rows) => rows,
            Err(e) => {
                let r: Result<Vec<QueryResult>, QueryFailure> = Err(failed(Stage::Execute, &e));
                let ghost run = AnswerRun { plan: plan_run, sort: nothing, last: nothing };
                assert(results_view(r) == answer_outcome(*partitions, n, q@, run));
                return r;
            },
        };
        let ghost gathered = text::views(rows@);
        let sorted_rows = self.sort_rows(rows, &q.order_by, &q.plan.steps, partitions);
        let ghost sort = choose|fetched: Fetched|
            (q@.order_by matches Some(o) ==> distributed::asked_records(
                self.rpc(),
                *partitions,
                n,
                gathered,
                seq![o.alias],
                q@.plan.steps,
                fetched,
            )) && query::rows_view(sorted_rows) == #[trigger] sort_outcome(
                gathered,
                q@.order_by,
                fetched,
            );
        let sorted = match sorted_rows {
            Ok(sorted) => sorted,
            Err(e) => {
                let r: Result<Vec<QueryResult>, QueryFailure> = Err(failed(Stage::Hydrate, &e));
                let ghost run = AnswerRun { plan: plan_run, sort, last: nothing };
                assert(results_view(r) == answer_outcome(*partitions, n, q@, run));
                return r;
            },
        };
        let kept = ordering::limit_rows(sorted, q.limit);
        let aliases = projection::aliases_of_items(&q.plan.project);
        let hydrated = self.executor.hydrate(&kept, &aliases, &q.plan.steps, partitions);
        let ghost last = choose|fetched: Fetched|
            distributed::asked_records(
                self.rpc(),
                *partitions,
                n,
                text::views(kept@),
                text::views(aliases@),
                q@.plan.steps,
                fetched,
            ) && match hydrated {
                Ok(records) => records.wf() && #[trigger] distributed::gathered_records(fetched)
                    == Ok::<RecordsView, ExecutionErrorView>(records@),
                Err(e) => distributed::gathered_records(fetched) == Err::<
                    RecordsView,
                    ExecutionErrorView,
                >(e@),
            };
        let ghost run = AnswerRun { plan: plan_run, sort, last };
        let r: Result<Vec<QueryResult>, QueryFailure> = match hydrated {
            Ok(records) => Ok(projection::project_rows(&kept, &q.plan.project, &records)),
            Err(e) => Err(failed(Stage::Hydrate, &e)),
        };
        assert(results_view(r) == answer_outcome(*partitions, n, q@, run));
        r
    }

    /// Answers a prepared query, once it was found out which replicas there
    /// are.
    pub fn answer(&self, q: &PreparedQuery, discovered: &Result<PartitionMap, DiscoveryError>) -> (r:
        Result<Vec<QueryResult>, QueryFailure>)
        requires
            self.n_partitions() > 0,
            discovered matches Ok(map) ==> map.wf(),
        ensures
            match *discovered {
                Err(e) => results_view(r) == Err::<Seq<QueryResultView>, QueryFailureView>(
                    undiscovered(e),
                ),
                Ok(map) => exists|run: AnswerRun|
                    asked_answer(self.rpc(), map, self.n_partitions(), q@, run) && results_view(r)
                        == #[trigger] answer_outcome(map, self.n_partitions(), q@, run),
            },
    {
        match discovered {
            Err(e) => Err(
                QueryFailure { stage: Stage::Discovery, status: discovery_status(e) },
            ),
            Ok(map) => self.answer_on(q, map),
        }
    }

    pub fn get_schema(&self) -> (r: SchemaResponse)
        ensures
            r.schema_idl@ == self.idl(),
            r.version@ == self.schema_view().version,
    {
        SchemaResponse {
            schema_idl: self.schema_idl.clone(),
            version: self.schema.version.clone(),
        }
    }
}

/// The smallest of some numbers.
pub open spec fn smallest(ids: Seq<u64>) -> u64
    decreases ids.len(),
{
    if ids.len() <= 1 {
        ids[0]
    } else if ids.last() < smallest(ids.drop_last()) {
        ids.last()
    } else {
        smallest(ids.drop_last())
    }
}

/// The replica whose index status stands for the cluster: one of the known
/// partition with the smallest number.
pub open spec fn status_choice(map: PartitionMap) -> Result<ReplicaEndpointView, StatusView> {
    if map.known().len() == 0 {
        Err(StatusView::unavailable("no partitions currently discovered"@))
    } else {
        let p = smallest(map.known());
        match map.choice(p as u32) {
            Some(replica) => Ok(replica),
            None => Err(
                StatusView::unavailable(
                    "no healthy replica for partition "@ + text::decimal_text(p as int),
                ),
            ),
        }
    }
}

/// The smallest of a set of numbers is one of them, and at most any other.
pub proof fn law_the_smallest_is_at_most_any(ids: Seq<u64>, i: int)
    requires
        0 <= i < ids.len(),
    ensures
        ids.contains(smallest(ids)),
        smallest(ids) <= ids[i],
    decreases ids.len(),
{
    if ids.len() == 1 {
        assert(ids[0] == smallest(ids));
    } else {
        let shorter = ids.drop_last();
        if i < shorter.len() {
            law_the_smallest_is_at_most_any(shorter, i);
        } else {
            law_the_smallest_is_at_most_any(shorter, 0);
        }
        if smallest(ids) == smallest(shorter) {
            let k = choose|k: int| 0 <= k < shorter.len() && shorter[k] == smallest(shorter);
            assert(ids[k] == smallest(ids));
        } else {
            assert(ids[ids.len() - 1] == smallest(ids));
        }
    }
}

/// Whom to ask for the status of the index.
pub fn status_target(discovered: &Result<PartitionMap, DiscoveryError>) -> (r: Result<
    ReplicaEndpoint,
    Status,
>)
    requires
        discovered matches Ok(map) ==> map.wf(),
    ensures
        match *discovered {
            Err(e) => r is Err && (r->Err_0)@ == undiscovered(e).status,
            Ok(map) => match r {
                Ok(replica) => status_choice(map) == Ok::<ReplicaEndpointView, StatusView>(
                    replica@,
                ),
                Err(e) => status_choice(map) == Err::<ReplicaEndpointView, StatusView>(e@),
            },
        },
{
    let map = match discovered {
        Err(e) => {
            return Err(discovery_status(e));
        },
        Ok(map) => map,
    };
    let ghost known = map.known();
    if map.replicas_by_partition.len() == 0 {
        return Err(Status::unavailable("no partitions currently discovered"));
    }
    let mut least: u64 = map.replicas_by_partition.key(0);
    let mut i: usize = 1;
    assert(known.take(1)[0] == known[0]);
    while i < map.replicas_by_partition.len()
        invariant
            1 <= i <= known.len(),
            known == map.known(),
            map.wf(),
            least == smallest(known.take(i as int)),
        decreases known.len() - i,
    {
        proof {
            assert(known.take(i + 1).drop_last() =~= known.take(i as int));
            assert(known.take(i + 1).last() == known[i as int]);
        }
        let k: u64 = map.replicas_by_partition.key(i);
        if k < least {
            least = k;
        }
        i = i + 1;
    }
    assert(known.take(known.len() as int) =~= known);
    match map.pick_replica(PartitionId(least as u32)) {
        Some(replica) => Ok(replica.duplicate()),
        None => {
            let mut text: String = "no healthy replica for partition ".to_owned();
            text.append(text::decimal_string(least).as_str());
            Err(Status::unavailable(text.as_str()))
        },
    }
}

/// A query that cannot be read, or does not fit the schema, is refused with
/// `InvalidArgument`, whatever the cluster is like: neither depends on it.
pub proof fn law_wrong_queries_are_refused_as_such(source: Seq<char>, s: SchemaView)
    ensures
        read_outcome(source) matches Err(e) ==> e.status.code == Code::InvalidArgument,
        read_outcome(source) matches Ok(q) ==> (prepare_outcome(q, s) is Err
            <==> validator::query_errors(q, s).len() > 0),
        read_outcome(source) matches Ok(q) ==> (prepare_outcome(q, s) matches Err(e)
            ==> e.status.code == Code::InvalidArgument),
{
}

/// A result has no more rows than its limit, and rows that a limit cuts off
/// are those at the end.
pub proof fn law_a_limit_keeps_the_first_rows<A>(rows: Seq<A>, limit: u64)
    ensures
        ordering::limited(rows, Some(limit)).len() <= limit,
        ordering::limited(rows, Some(limit)).is_prefix_of(rows),
        rows.len() <= limit ==> ordering::limited(rows, Some(limit)) == rows,
        ordering::limited(rows, None) == rows,
{
}

/// The status of the cluster is asked of the replica that is asked for the
/// smallest partition that is known, where there is one.
pub proof fn law_the_smallest_partition_is_asked_for_its_status(
    map: PartitionMap,
    p: u64,
    x: ReplicaEndpointView,
)
    requires
        map.known().contains(p),
        forall|i: int| 0 <= i < map.known().len() ==> p <= #[trigger] map.known()[i],
    ensures
        status_choice(map) == Ok::<ReplicaEndpointView, StatusView>(x) <==> map.choice(p as u32)
            == Some(x),
        status_choice(map) matches Err(e) ==> e.code == Code::Unavailable,
{
    let known = map.known();
    let k = choose|k: int| 0 <= k < known.len() && known[k] == p;
    law_the_smallest_is_at_most_any(known, k);
    let j = choose|j: int| 0 <= j < known.len() && known[j] == smallest(known);
    assert(p <= known[j]);
}

/// A failure before the cluster is known is the cluster's fault, one on the way
/// is the engine's.
pub proof fn law_failures_say_whose_fault_they_are(
    e: DiscoveryError,
    x: ExecutionErrorView,
    stage: Stage,
)
    ensures
        undiscovered(e).status.code == Code::Unavailable,
        undiscovered(e).stage == Stage::Discovery,
        internal_failure(stage, x).status.code == Code::Internal,
        internal_failure(stage, x).stage == stage,
{
}

/// The hops of a plan are counted one by one: those of its parts add up, a
/// step over an edge is one, and any other step is none.
pub proof fn law_hops_add_up(a: Seq<PlanStepView>, b: Seq<PlanStepView>, step: PlanStepView)
    ensures
        hops_in(a + b) == hops_in(a) + hops_in(b),
        hops_in(seq![step]) == if step is ExpandHop {
            1nat
        } else {
            0nat
        },
        hops_in(a) <= a.len(),
    decreases a.len() + b.len(),
{
    reveal_with_fuel(hops_in, 2);
    assert(seq![step].drop_last() =~= Seq::<PlanStepView>::empty());
    if b.len() > 0 {
        law_hops_add_up(a, b.drop_last(), step);
        assert((a + b).drop_last() =~= a + b.drop_last());
    } else {
        assert(a + b =~= a);
        if a.len() > 0 {
            law_hops_add_up(a.drop_last(), b, step);
        }
    }
}

} // verus!
