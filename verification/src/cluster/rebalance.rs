//! Which machines should hold which partition, and which partitions move when
//! the machines change.
//!
//! Placement is by rendezvous hashing: each partition ranks all machines by a
//! hash of the pair, and the first ones hold it. So a machine that comes or
//! goes only moves the partitions that it gets or had.
use crate::cluster::PartitionMap;
use crate::index::laws;
use crate::index::PartitionId;
use crate::query::routing;
use crate::schema::partitioning;
use crate::sorting;
use crate::sorting::Ordered;
use crate::text;
use vstd::prelude::*;
use vstd::relations::*;
use vstd::string::*;

verus! {

/// One replica of a partition is to be placed on a machine, in the place of
/// one on another machine or as a new one.
#[derive(Clone, Debug, PartialEq, Eq)]
pub struct PartitionMove {
    pub partition: PartitionId,
    pub from_machine: Option<String>,
    pub to_machine: String,
}

pub struct PartitionMoveView {
    pub partition: u32,
    pub from_machine: Option<Seq<char>>,
    pub to_machine: Seq<char>,
}

impl View for PartitionMove {
    type V = PartitionMoveView;

    open spec fn view(&self) -> PartitionMoveView {
        PartitionMoveView {
            partition: self.partition.0,
            from_machine: text::option_view(self.from_machine),
            to_machine: self.to_machine@,
        }
    }
}

/// The moves that bring every partition to the machines that should hold it.
#[derive(Clone, Debug)]
pub struct RebalancePlan {
    pub moves: Vec<PartitionMove>,
}

/// How high a partition ranks a machine.
pub open spec fn score(partition: u32, machine: Seq<char>) -> u64 {
    partitioning::xxh3_64_of(
        vstd::bytes::spec_u32_to_le_bytes(partition) + vstd::utf8::encode_utf8(machine),
    )
}

/// A machine and how high it ranks.
pub struct Scored {
    pub score: u64,
    pub name: String,
}

pub struct ScoredView {
    pub score: u64,
    pub name: Seq<char>,
}

impl View for Scored {
    type V = ScoredView;

    open spec fn view(&self) -> ScoredView {
        ScoredView { score: self.score, name: self.name@ }
    }
}

/// Machines with a higher score come first, of equal ones by their names.
impl Ordered for Scored {
    open spec fn le(a: ScoredView, b: ScoredView) -> bool {
        a.score > b.score || (a.score == b.score && (a.name == b.name || text::lex_lt(
            a.name,
            b.name,
        )))
    }

    fn at_most(&self, other: &Self) -> (r: bool) {
        self.score > other.score || (self.score == other.score && (self.name == other.name
            || text::str_less(self.name.as_str(), other.name.as_str())))
    }
}

impl Ordered for String {
    open spec fn le(a: Seq<char>, b: Seq<char>) -> bool {
        a == b || text::lex_lt(a, b)
    }

    fn at_most(&self, other: &Self) -> (r: bool) {
        *self == *other || text::str_less(self.as_str(), other.as_str())
    }
}

pub open spec fn scored(partition: u32, machines: Seq<Seq<char>>) -> Seq<ScoredView> {
    Seq::new(
        machines.len(),
        |i: int| ScoredView { score: score(partition, machines[i]), name: machines[i] },
    )
}

pub open spec fn names(machines: Seq<ScoredView>) -> Seq<Seq<char>> {
    Seq::new(machines.len(), |i: int| machines[i].name)
}

/// The machines in the order in which a partition ranks them.
pub open spec fn ranked(partition: u32, machines: Seq<Seq<char>>) -> Seq<Seq<char>> {
    names(sorting::sorted_stably(scored(partition, machines), sorting::order_of::<Scored>()))
}

/// How many machines hold a partition.
pub open spec fn copies(replication_factor: nat, machines: nat) -> nat {
    if replication_factor <= machines {
        replication_factor
    } else {
        machines
    }
}

/// The machines that should hold a partition.
pub open spec fn target(partition: u32, machines: Seq<Seq<char>>, replication_factor: nat) -> Seq<
    Seq<char>,
> {
    ranked(partition, machines).take(copies(replication_factor, machines.len()) as int)
}

/// The names that are not among others.
pub open spec fn without(names: Seq<Seq<char>>, others: Seq<Seq<char>>) -> Seq<Seq<char>>
    decreases names.len(),
{
    if names.len() == 0 {
        seq![]
    } else {
        let rest = without(names.drop_last(), others);
        if others.contains(names.last()) {
            rest
        } else {
            rest.push(names.last())
        }
    }
}

pub open spec fn in_order(names: Seq<Seq<char>>) -> Seq<Seq<char>> {
    sorting::sorted_stably(names, sorting::order_of::<String>())
}

/// The machines that hold a partition.
pub open spec fn holders(map: PartitionMap, partition: u32) -> Seq<Seq<char>> {
    Seq::new(
        map.replicas(partition).len(),
        |i: int| map.replicas(partition)[i].replica,
    )
}

/// The moves of a partition: the machines that come, in the order of their
/// names, each in the place of one that goes as long as there are any.
pub open spec fn moves_of(partition: u32, wanted: Seq<Seq<char>>, current: Seq<Seq<char>>) -> Seq<
    PartitionMoveView,
> {
    let add = in_order(without(wanted, current));
    let remove = in_order(without(routing::distinct(current), wanted));
    Seq::new(
        add.len(),
        |i: int|
            PartitionMoveView {
                partition,
                from_machine: if i < remove.len() {
                    Some(remove[i])
                } else {
                    None
                },
                to_machine: add[i],
            },
    )
}

/// The moves of the first `n` partitions.
pub open spec fn all_moves(
    map: PartitionMap,
    machines: Seq<Seq<char>>,
    replication_factor: nat,
    n: nat,
) -> Seq<PartitionMoveView>
    decreases n,
{
    if n == 0 {
        seq![]
    } else {
        let p = (n - 1) as u32;
        all_moves(map, machines, replication_factor, (n - 1) as nat) + moves_of(
            p,
            target(p, machines, replication_factor),
            holders(map, p),
        )
    }
}

/// The moves of a plan. Without machines nothing moves.
pub open spec fn planned_moves(
    map: PartitionMap,
    machines: Seq<Seq<char>>,
    replication_factor: nat,
    n: nat,
) -> Seq<PartitionMoveView> {
    if machines.len() == 0 {
        seq![]
    } else {
        all_moves(map, machines, replication_factor, n)
    }
}

/// How high a partition ranks a machine: XXH3 over the little-endian bytes of
/// the partition and the UTF-8 bytes of the name.
fn rendezvous_score(partition: PartitionId, machine: &str) -> (r: u64)
    ensures
        r == score(partition.0, machine@),
{
    let mut bytes = vstd::bytes::u32_to_le_bytes(partition.0);
    let name = machine.as_bytes();
    let ghost head = bytes@;
    let mut i: usize = 0;
    assert(head + name@.take(0) =~= head);
    while i < name.len()
        invariant
            i <= name@.len(),
            bytes@ == head + name@.take(i as int),
        decreases name.len() - i,
    {
        bytes.push(name[i]);
        assert((head + name@.take(i as int)).push(name@[i as int]) =~= head + name@.take(i + 1));
        i = i + 1;
    }
    assert(name@.take(name@.len() as int) =~= name@);
    partitioning::xxh3_64(bytes.as_slice())
}

/// The machines that should hold a partition.
pub fn target_machines(partition: PartitionId, machines: &Vec<String>, replication_factor: usize) -> (r:
    Vec<String>)
    ensures
        text::views(r@) == target(
            partition.0,
            text::views(machines@),
            replication_factor as nat,
        ),
{
    let ghost all = text::views(machines@);
    let mut list: Vec<Scored> = Vec::new();
    let mut i: usize = 0;
    while i < machines.len()
        invariant
            i <= machines@.len(),
            all == text::views(machines@),
            list@.len() == i,
            forall|k: int|
                0 <= k < i ==> (#[trigger] list@[k])@ == scored(partition.0, all)[k],
        decreases machines.len() - i,
    {
        list.push(
            Scored {
                score: rendezvous_score(partition, machines[i].as_str()),
                name: machines[i].clone(),
            },
        );
        i = i + 1;
    }
    assert(text::views(list@) =~= scored(partition.0, all));
    let sorted = sorting::sort(list);
    proof {
        lemma_scored_order();
        sorting::law_sorting_sorts(scored(partition.0, all), sorting::order_of::<Scored>());
    }
    let ghost order = ranked(partition.0, all);
    assert(order =~= names(text::views(sorted@)));
    let count: usize = if replication_factor <= machines.len() {
        replication_factor
    } else {
        machines.len()
    };
    let mut out: Vec<String> = Vec::new();
    let mut j: usize = 0;
    while j < count
        invariant
            j <= count <= sorted@.len(),
            order == names(text::views(sorted@)),
            out@.len() == j,
            forall|k: int| 0 <= k < j ==> (#[trigger] out@[k])@ == order[k],
        decreases count - j,
    {
        out.push(sorted[j].name.clone());
        j = j + 1;
    }
    assert(text::views(out@) =~= order.take(count as int));
    out
}

fn contains_name(names: &Vec<String>, name: &String) -> (r: bool)
    ensures
        r == text::views(names@).contains(name@),
{
    let ghost all = text::views(names@);
    let mut i: usize = 0;
    while i < names.len()
        invariant
            i <= names@.len(),
            all == text::views(names@),
            forall|k: int| 0 <= k < i ==> all[k] != name@,
        decreases names.len() - i,
    {
        assert(all[i as int] == names@[i as int]@);
        if names[i] == *name {
            assert(all.contains(name@));
            return true;
        }
        i = i + 1;
    }
    false
}

fn names_without(list: &Vec<String>, others: &Vec<String>) -> (r: Vec<String>)
    ensures
        text::views(r@) == without(text::views(list@), text::views(others@)),
{
    let ghost all = text::views(list@);
    let mut out: Vec<String> = Vec::new();
    let mut i: usize = 0;
    assert(all.take(0) =~= Seq::<Seq<char>>::empty());
    assert(text::views(out@) =~= Seq::<Seq<char>>::empty());
    while i < list.len()
        invariant
            i <= list@.len(),
            all == text::views(list@),
            text::views(out@) == without(all.take(i as int), text::views(others@)),
        decreases list.len() - i,
    {
        assert(all.take(i + 1).drop_last() =~= all.take(i as int));
        assert(all.take(i + 1).last() == list@[i as int]@);
        if !contains_name(others, &list[i]) {
            let x = list[i].clone();
            proof {
                text::lemma_views_push(out@, x);
            }
            out.push(x);
        }
        i = i + 1;
    }
    assert(all.take(all.len() as int) =~= all);
    out
}

fn distinct_names(list: &Vec<String>) -> (r: Vec<String>)
    ensures
        text::views(r@) == routing::distinct(text::views(list@)),
{
    let ghost all = text::views(list@);
    let mut out: Vec<String> = Vec::new();
    let mut i: usize = 0;
    assert(all.take(0) =~= Seq::<Seq<char>>::empty());
    assert(text::views(out@) =~= routing::distinct(all.take(0)));
    while i < list.len()
        invariant
            i <= list@.len(),
            all == text::views(list@),
            text::views(out@) == routing::distinct(all.take(i as int)),
        decreases list.len() - i,
    {
        assert(all.take(i + 1).drop_last() =~= all.take(i as int));
        assert(all.take(i + 1).last() == list@[i as int]@);
        if !contains_name(&out, &list[i]) {
            let x = list[i].clone();
            proof {
                text::lemma_views_push(out@, x);
            }
            out.push(x);
        }
        i = i + 1;
    }
    assert(all.take(all.len() as int) =~= all);
    out
}

/// The machines that hold a partition.
fn current_holders(map: &PartitionMap, partition: PartitionId) -> (r: Vec<String>)
    requires
        map.wf(),
    ensures
        text::views(r@) == holders(*map, partition.0),
{
    let mut out: Vec<String> = Vec::new();
    match map.replicas_by_partition.get(partition.0 as u64) {
        None => {
            assert(text::views(out@) =~= holders(*map, partition.0));
            out
        },
        Some(replicas) => {
            let mut i: usize = 0;
            while i < replicas.len()
                invariant
                    i <= replicas@.len(),
                    out@.len() == i,
                    forall|k: int| 0 <= k < i ==> (#[trigger] out@[k])@ == replicas@[k]@.replica,
                decreases replicas.len() - i,
            {
                out.push(replicas[i].replica.0.clone());
                i = i + 1;
            }
            assert(text::views(out@) =~= holders(*map, partition.0));
            out
        },
    }
}

/// The moves of a partition.
pub fn partition_moves(partition: PartitionId, wanted: &Vec<String>, current: &Vec<String>) -> (r: Vec<
    PartitionMove,
>)
    ensures
        text::views(r@) == moves_of(partition.0, text::views(wanted@), text::views(current@)),
{
    let add = sorting::sort(names_without(wanted, current));
    let there = distinct_names(current);
    let remove = sorting::sort(names_without(&there, wanted));
    let ghost all = moves_of(partition.0, text::views(wanted@), text::views(current@));
    let ghost adds = text::views(add@);
    let ghost removes = text::views(remove@);
    let mut moves: Vec<PartitionMove> = Vec::new();
    let mut i: usize = 0;
    while i < add.len()
        invariant
            i <= add@.len(),
            adds == text::views(add@),
            removes == text::views(remove@),
            adds == in_order(without(text::views(wanted@), text::views(current@))),
            removes == in_order(
                without(routing::distinct(text::views(current@)), text::views(wanted@)),
            ),
            all == moves_of(partition.0, text::views(wanted@), text::views(current@)),
            moves@.len() == i,
            forall|k: int| 0 <= k < i ==> (#[trigger] moves@[k])@ == all[k],
        decreases add.len() - i,
    {
        let from_machine: Option<String> = if i < remove.len() {
            Some(remove[i].clone())
        } else {
            None
        };
        assert(i < removes.len() ==> removes[i as int] == remove@[i as int]@);
        assert(adds[i as int] == add@[i as int]@);
        moves.push(PartitionMove { partition, from_machine, to_machine: add[i].clone() });
        i = i + 1;
    }
    assert(text::views(moves@) =~= all);
    moves
}

/// Works out what moves when the machines of a cluster change.
pub trait RebalancePlanner {
    fn plan(&self, current: &PartitionMap, available_machines: &Vec<String>) -> (r: RebalancePlan)
        requires
            current.wf(),
    ;
}

/// Plans by rendezvous hashing, each partition on `replication_factor`
/// machines as long as there are enough.
#[derive(Clone, Copy, Debug)]
pub struct RendezvousRebalancePlanner {
    pub n_partitions: u32,
    pub replication_factor: usize,
}

impl RebalancePlanner for RendezvousRebalancePlanner {
    fn plan(&self, current: &PartitionMap, available_machines: &Vec<String>) -> (r: RebalancePlan)
        ensures
            text::views(r.moves@) == planned_moves(
                *current,
                text::views(available_machines@),
                self.replication_factor as nat,
                self.n_partitions as nat,
            ),
    {
        let ghost machines = text::views(available_machines@);
        let ghost factor = self.replication_factor as nat;
        let mut moves: Vec<PartitionMove> = Vec::new();
        assert(text::views(moves@) =~= Seq::<PartitionMoveView>::empty());
        if available_machines.len() == 0 {
            return RebalancePlan { moves };
        }
        let mut p: u32 = 0;
        while p < self.n_partitions
            invariant
                p <= self.n_partitions,
                current.wf(),
                machines == text::views(available_machines@),
                factor == self.replication_factor as nat,
                text::views(moves@) == all_moves(*current, machines, factor, p as nat),
            decreases self.n_partitions - p,
        {
            let partition = PartitionId(p);
            let wanted = target_machines(partition, available_machines, self.replication_factor);
            let there = current_holders(current, partition);
            let ghost before = text::views(moves@);
            let mut more = partition_moves(partition, &wanted, &there);
            let ghost added = text::views(more@);
            moves.append(&mut more);
            assert(text::views(moves@) =~= before + added);
            p = p + 1;
        }
        RebalancePlan { moves }
    }
}

/// The order of machines is total.
proof fn lemma_scored_order()
    ensures
        total_ordering(sorting::order_of::<Scored>()),
        sorting::total_preorder(sorting::order_of::<Scored>()),
{
    let le = sorting::order_of::<Scored>();
    assert forall|a: ScoredView, b: ScoredView| #[trigger] le(a, b) || le(b, a) by {
        text::lemma_lex_total(a.name, b.name);
    }
    assert forall|a: ScoredView, b: ScoredView| #[trigger] le(a, b) && #[trigger] le(
        b,
        a,
    ) implies a == b by {
        if a.name != b.name {
            text::lemma_lex_transitive(a.name, b.name, a.name);
            text::lemma_lex_irreflexive(a.name);
        }
    }
    assert forall|a: ScoredView, b: ScoredView, c: ScoredView| #[trigger] le(a, b) && #[trigger] le(
        b,
        c,
    ) implies le(a, c) by {
        if a.score == b.score && b.score == c.score && a.name != b.name && b.name != c.name {
            text::lemma_lex_transitive(a.name, b.name, c.name);
        }
    }
}

/// The order of names is total.
proof fn lemma_name_order()
    ensures
        total_ordering(sorting::order_of::<String>()),
        sorting::total_preorder(sorting::order_of::<String>()),
{
    let le = sorting::order_of::<String>();
    assert forall|a: Seq<char>, b: Seq<char>| #[trigger] le(a, b) || le(b, a) by {
        text::lemma_lex_total(a, b);
    }
    assert forall|a: Seq<char>, b: Seq<char>| #[trigger] le(a, b) && #[trigger] le(
        b,
        a,
    ) implies a == b by {
        if a != b {
            text::lemma_lex_transitive(a, b, a);
            text::lemma_lex_irreflexive(a);
        }
    }
    assert forall|a: Seq<char>, b: Seq<char>, c: Seq<char>| #[trigger] le(a, b) && #[trigger] le(
        b,
        c,
    ) implies le(a, c) by {
        if a != b && b != c {
            text::lemma_lex_transitive(a, b, c);
        }
    }
}

proof fn lemma_without(list: Seq<Seq<char>>, others: Seq<Seq<char>>)
    ensures
        (forall|i: int| 0 <= i < list.len() ==> others.contains(#[trigger] list[i])) ==> without(
            list,
            others,
        ).len() == 0,
        (forall|i: int| 0 <= i < list.len() ==> !others.contains(#[trigger] list[i])) ==> without(
            list,
            others,
        ) == list,
    decreases list.len(),
{
    if list.len() > 0 {
        let shorter = list.drop_last();
        lemma_without(shorter, others);
        assert(list[list.len() - 1] == list.last());
        assert(list =~= shorter.push(list.last()));
        if forall|i: int| 0 <= i < list.len() ==> others.contains(#[trigger] list[i]) {
            assert forall|i: int| 0 <= i < shorter.len() implies others.contains(
                #[trigger] shorter[i],
            ) by {
                assert(shorter[i] == list[i]);
            }
            assert(others.contains(list[list.len() - 1]));
        }
        if forall|i: int| 0 <= i < list.len() ==> !others.contains(#[trigger] list[i]) {
            assert forall|i: int| 0 <= i < shorter.len() implies !others.contains(
                #[trigger] shorter[i],
            ) by {
                assert(shorter[i] == list[i]);
            }
            assert(!others.contains(list[list.len() - 1]));
        }
    }
}

/// That a partition is held by all machines that should hold it.
pub open spec fn placed(
    map: PartitionMap,
    machines: Seq<Seq<char>>,
    replication_factor: nat,
    p: u32,
) -> bool {
    forall|i: int|
        0 <= i < target(p, machines, replication_factor).len() ==> holders(map, p).contains(
            #[trigger] target(p, machines, replication_factor)[i],
        )
}

/// Planning anew with nothing changed moves nothing: where every partition is
/// held by the machines that should hold it there are no moves.
pub proof fn law_replanning_moves_nothing(
    map: PartitionMap,
    machines: Seq<Seq<char>>,
    replication_factor: nat,
    n: nat,
)
    requires
        n <= u32::MAX,
        forall|p: u32| p < n ==> #[trigger] placed(map, machines, replication_factor, p),
    ensures
        planned_moves(map, machines, replication_factor, n).len() == 0,
    decreases n,
{
    if n > 0 {
        let p = (n - 1) as u32;
        law_replanning_moves_nothing(map, machines, replication_factor, (n - 1) as nat);
        assert(placed(map, machines, replication_factor, p));
        lemma_without(target(p, machines, replication_factor), holders(map, p));
        lemma_name_order();
        sorting::law_sorting_sorts(
            without(target(p, machines, replication_factor), holders(map, p)),
            sorting::order_of::<String>(),
        );
    }
}

/// The first placement puts every partition on as many machines as it should
/// have, none of them in the place of another one, and on the machines that
/// should hold it.
pub proof fn law_the_first_placement_is_complete(
    map: PartitionMap,
    machines: Seq<Seq<char>>,
    replication_factor: nat,
    p: u32,
)
    requires
        map.replicas(p).len() == 0,
    ensures
        ({
            let moves = moves_of(p, target(p, machines, replication_factor), holders(map, p));
            &&& moves.len() == copies(replication_factor, machines.len())
            &&& forall|i: int|
                0 <= i < moves.len() ==> (#[trigger] moves[i]).from_machine is None
                    && moves[i].partition == p
            &&& forall|name: Seq<char>|
                target(p, machines, replication_factor).contains(name) <==> exists|i: int|
                    0 <= i < moves.len() && (#[trigger] moves[i]).to_machine == name
        }),
{
    let wanted = target(p, machines, replication_factor);
    let there = holders(map, p);
    let moves = moves_of(p, wanted, there);
    lemma_scored_order();
    sorting::law_sorting_sorts(scored(p, machines), sorting::order_of::<Scored>());
    assert(wanted.len() == copies(replication_factor, machines.len()));
    assert(there =~= Seq::<Seq<char>>::empty());
    lemma_without(wanted, there);
    assert(without(wanted, there) == wanted);
    assert(routing::distinct(there) =~= Seq::<Seq<char>>::empty());
    assert(without(routing::distinct(there), wanted) =~= Seq::<Seq<char>>::empty());
    lemma_name_order();
    let le = sorting::order_of::<String>();
    sorting::law_sorting_sorts(wanted, le);
    sorting::law_sorting_sorts(Seq::<Seq<char>>::empty(), le);
    let add = in_order(wanted);
    assert forall|name: Seq<char>| wanted.contains(name) <==> exists|i: int|
        0 <= i < moves.len() && (#[trigger] moves[i]).to_machine == name by {
        vstd::seq_lib::to_multiset_contains(wanted, name);
        vstd::seq_lib::to_multiset_contains(add, name);
        if add.contains(name) {
            let i = choose|i: int| 0 <= i < add.len() && add[i] == name;
            assert(moves[i].to_machine == name);
        }
        if exists|i: int| 0 <= i < moves.len() && (#[trigger] moves[i]).to_machine == name {
            let i = choose|i: int|
                0 <= i < moves.len() && (#[trigger] moves[i]).to_machine == name;
            assert(add[i] == name);
        }
    }
}

proof fn lemma_insert_place<A>(sorted: Seq<A>, x: A, le: spec_fn(A, A) -> bool) -> (i: int)
    ensures
        0 <= i <= sorted.len(),
        sorting::insert_by(sorted, x, le) == sorted.insert(i, x),
    decreases sorted.len(),
{
    if sorted.len() == 0 {
        assert(sorting::insert_by(sorted, x, le) =~= sorted.insert(0, x));
        0
    } else if le(sorted.last(), x) {
        assert(sorting::insert_by(sorted, x, le) =~= sorted.insert(sorted.len() as int, x));
        sorted.len() as int
    } else {
        let i = lemma_insert_place(sorted.drop_last(), x, le);
        assert(sorted.drop_last().insert(i, x).push(sorted.last()) =~= sorted.insert(i, x));
        i
    }
}

/// Where a new machine enters the ranking of a partition, which is otherwise
/// as before.
proof fn lemma_ranked_push(p: u32, machines: Seq<Seq<char>>, m: Seq<char>) -> (i: int)
    ensures
        0 <= i <= machines.len(),
        ranked(p, machines).len() == machines.len(),
        ranked(p, machines.push(m)) == ranked(p, machines).insert(i, m),
{
    let le = sorting::order_of::<Scored>();
    let before = sorting::sorted_stably(scored(p, machines), le);
    let x = ScoredView { score: score(p, m), name: m };
    assert(scored(p, machines.push(m)).drop_last() =~= scored(p, machines));
    assert(scored(p, machines.push(m)).last() == x);
    lemma_scored_order();
    sorting::law_sorting_sorts(scored(p, machines), le);
    let i = lemma_insert_place(before, x, le);
    assert(names(before.insert(i, x)) =~= names(before).insert(i, m));
    i
}

/// A machine that is added only takes partitions to itself: whatever should
/// hold a partition now held it before or is the new machine.
pub proof fn law_an_added_machine_only_attracts(
    p: u32,
    machines: Seq<Seq<char>>,
    m: Seq<char>,
    replication_factor: nat,
    name: Seq<char>,
)
    requires
        target(p, machines.push(m), replication_factor).contains(name),
    ensures
        name == m || target(p, machines, replication_factor).contains(name),
{
    let i = lemma_ranked_push(p, machines, m);
    let before = ranked(p, machines);
    let wanted = target(p, machines, replication_factor);
    let now = target(p, machines.push(m), replication_factor);
    let j = choose|j: int| 0 <= j < now.len() && now[j] == name;
    if j < i {
        assert(wanted[j] == name);
    } else if j > i {
        assert(before.insert(i, m)[j] == before[j - 1]);
        assert(wanted[j - 1] == name);
    }
}

/// A machine that goes only moves the partitions that it held: where it held
/// none nothing changes.
pub proof fn law_a_removed_machine_only_moves_what_it_held(
    p: u32,
    machines: Seq<Seq<char>>,
    m: Seq<char>,
    replication_factor: nat,
)
    requires
        !target(p, machines.push(m), replication_factor).contains(m),
    ensures
        target(p, machines, replication_factor) == target(p, machines.push(m), replication_factor),
{
    let i = lemma_ranked_push(p, machines, m);
    let before = ranked(p, machines);
    let now = target(p, machines.push(m), replication_factor);
    if i < now.len() {
        assert(now[i] == m);
    }
    assert(target(p, machines, replication_factor) =~= now);
}

/// The order in which machines are listed does not matter.
pub proof fn law_placement_forgets_the_order_of_machines(
    p: u32,
    a: Seq<Seq<char>>,
    b: Seq<Seq<char>>,
    replication_factor: nat,
)
    requires
        a.to_multiset() == b.to_multiset(),
    ensures
        target(p, a, replication_factor) == target(p, b, replication_factor),
{
    lemma_scored_multiset(p, a, b);
    lemma_scored_order();
    sorting::law_sorting_forgets_the_order(
        scored(p, a),
        scored(p, b),
        sorting::order_of::<Scored>(),
    );
    vstd::seq_lib::to_multiset_len(a);
    vstd::seq_lib::to_multiset_len(b);
}

proof fn lemma_scored_multiset(p: u32, a: Seq<Seq<char>>, b: Seq<Seq<char>>)
    requires
        a.to_multiset() == b.to_multiset(),
    ensures
        scored(p, a).to_multiset() == scored(p, b).to_multiset(),
    decreases a.len(),
{
    broadcast use vstd::seq_lib::group_to_multiset_ensures;

    vstd::seq_lib::to_multiset_len(a);
    vstd::seq_lib::to_multiset_len(b);
    if a.len() == 0 {
        assert(scored(p, a) =~= scored(p, b));
    } else {
        let x = a.last();
        let shorter = a.drop_last();
        assert(a =~= shorter.push(x));
        assert(a[a.len() - 1] == x);
        vstd::seq_lib::to_multiset_contains(a, x);
        vstd::seq_lib::to_multiset_contains(b, x);
        let i = choose|i: int| 0 <= i < b.len() && b[i] == x;
        let rest = b.remove(i);
        assert(rest.to_multiset() =~= shorter.to_multiset());
        lemma_scored_multiset(p, shorter, rest);
        let y = ScoredView { score: score(p, x), name: x };
        assert(scored(p, a) =~= scored(p, shorter).push(y));
        assert(scored(p, rest) =~= scored(p, b).remove(i));
        assert(scored(p, b)[i] == y);
        assert(scored(p, b).to_multiset() =~= scored(p, b).remove(i).to_multiset().insert(y));
    }
}

proof fn lemma_left_over(list: Seq<Seq<char>>, others: Seq<Seq<char>>, name: Seq<char>)
    ensures
        without(list, others).contains(name) <==> list.contains(name) && !others.contains(name),
        list.no_duplicates() ==> without(list, others).no_duplicates(),
    decreases list.len(),
{
    if list.len() > 0 {
        let shorter = list.drop_last();
        let rest = without(shorter, others);
        lemma_left_over(shorter, others, name);
        lemma_left_over(shorter, others, list.last());
        assert(list =~= shorter.push(list.last()));
        laws::lemma_contains_push(shorter, list.last(), name);
        laws::lemma_contains_push(rest, list.last(), name);
        if list.no_duplicates() {
            assert(!shorter.contains(list.last())) by {
                if shorter.contains(list.last()) {
                    let i = choose|i: int| 0 <= i < shorter.len() && shorter[i] == list.last();
                    assert(list[i] == list[list.len() - 1]);
                }
            }
        }
    }
}

proof fn lemma_in_order(list: Seq<Seq<char>>)
    ensures
        in_order(list).len() == list.len(),
        forall|name: Seq<char>| #[trigger] in_order(list).contains(name) <==> list.contains(name),
        list.no_duplicates() ==> in_order(list).no_duplicates(),
        forall|i: int, j: int|
            0 <= i < j < in_order(list).len() ==> !text::lex_lt(
                #[trigger] in_order(list)[j],
                #[trigger] in_order(list)[i],
            ),
{
    lemma_name_order();
    let le = sorting::order_of::<String>();
    sorting::law_sorting_sorts(list, le);
    let sorted = in_order(list);
    assert forall|name: Seq<char>| #[trigger] sorted.contains(name) <==> list.contains(name) by {
        vstd::seq_lib::to_multiset_contains(list, name);
        vstd::seq_lib::to_multiset_contains(sorted, name);
    }
    if list.no_duplicates() {
        list.lemma_multiset_has_no_duplicates();
        sorted.lemma_multiset_has_no_duplicates_conv();
    }
    assert forall|i: int, j: int| 0 <= i < j < sorted.len() implies !text::lex_lt(
        #[trigger] sorted[j],
        #[trigger] sorted[i],
    ) by {
        assert(le(sorted[i], sorted[j]));
        text::lemma_lex_irreflexive(sorted[i]);
        if text::lex_lt(sorted[i], sorted[j]) && text::lex_lt(sorted[j], sorted[i]) {
            text::lemma_lex_transitive(sorted[i], sorted[j], sorted[i]);
        }
    }
}

/// The moves of a partition bring it to exactly the wanted machines that do
/// not hold it yet, to each once, whatever the machines that hold it now.
pub proof fn law_moves_bring_what_is_missing(
    partition: u32,
    wanted: Seq<Seq<char>>,
    current: Seq<Seq<char>>,
)
    requires
        wanted.no_duplicates(),
    ensures
        forall|name: Seq<char>|
            (exists|i: int|
                0 <= i < moves_of(partition, wanted, current).len() && (#[trigger] moves_of(
                    partition,
                    wanted,
                    current,
                )[i]).to_machine == name) <==> #[trigger] wanted.contains(name)
                && !current.contains(name),
        forall|i: int, j: int|
            0 <= i < j < moves_of(partition, wanted, current).len() ==> (#[trigger] moves_of(
                partition,
                wanted,
                current,
            )[i]).to_machine != (#[trigger] moves_of(partition, wanted, current)[j]).to_machine,
        forall|i: int|
            0 <= i < moves_of(partition, wanted, current).len() ==> (#[trigger] moves_of(
                partition,
                wanted,
                current,
            )[i]).partition == partition,
{
    let missing = without(wanted, current);
    let add = in_order(missing);
    let moves = moves_of(partition, wanted, current);
    lemma_in_order(missing);
    assert forall|name: Seq<char>|
        (exists|i: int| 0 <= i < moves.len() && (#[trigger] moves[i]).to_machine == name) <==>
        #[trigger] wanted.contains(name) && !current.contains(name) by {
        lemma_left_over(wanted, current, name);
        if add.contains(name) {
            let i = choose|i: int| 0 <= i < add.len() && add[i] == name;
            assert(moves[i].to_machine == name);
        }
        if exists|i: int| 0 <= i < moves.len() && (#[trigger] moves[i]).to_machine == name {
            let i = choose|i: int|
                0 <= i < moves.len() && (#[trigger] moves[i]).to_machine == name;
            assert(add[i] == name);
        }
    }
    lemma_left_over(wanted, current, seq![]);
    assert forall|i: int, j: int| 0 <= i < j < moves.len() implies (#[trigger] moves[i]).to_machine
        != (#[trigger] moves[j]).to_machine by {
        assert(add[i] != add[j]);
    }
}

/// A move takes the place of a machine that holds the partition and is not
/// wanted any more, of each of them at most once; and as long as such a
/// machine is left every move takes the place of one.
pub proof fn law_moves_take_the_place_of_what_goes(
    partition: u32,
    wanted: Seq<Seq<char>>,
    current: Seq<Seq<char>>,
)
    ensures
        forall|i: int|
            0 <= i < moves_of(partition, wanted, current).len() ==> ((#[trigger] moves_of(
                partition,
                wanted,
                current,
            )[i]).from_machine matches Some(name) ==> current.contains(name) && !wanted.contains(
                name,
            )),
        forall|i: int, j: int|
            0 <= i < j < moves_of(partition, wanted, current).len() && (#[trigger] moves_of(
                partition,
                wanted,
                current,
            )[i]).from_machine is Some ==> moves_of(partition, wanted, current)[i].from_machine != (
            #[trigger] moves_of(partition, wanted, current)[j]).from_machine,
        forall|i: int, name: Seq<char>|
            0 <= i < moves_of(partition, wanted, current).len() && (#[trigger] moves_of(
                partition,
                wanted,
                current,
            )[i]).from_machine is None && #[trigger] current.contains(name) && !wanted.contains(
                name,
            ) ==> exists|j: int|
                0 <= j < i && (#[trigger] moves_of(partition, wanted, current)[j]).from_machine
                    == Some(name),
{
    let leaving = without(routing::distinct(current), wanted);
    let remove = in_order(leaving);
    let moves = moves_of(partition, wanted, current);
    lemma_in_order(leaving);
    routing::lemma_distinct(current, seq![]);
    lemma_left_over(routing::distinct(current), wanted, seq![]);
    assert forall|i: int| 0 <= i < moves.len() implies ((
    #[trigger] moves[i]).from_machine matches Some(name) ==> current.contains(name)
        && !wanted.contains(name)) by {
        if let Some(name) = moves[i].from_machine {
            assert(remove[i] == name);
            assert(remove.contains(name));
            lemma_left_over(routing::distinct(current), wanted, name);
            routing::lemma_distinct(current, name);
        }
    }
    assert forall|i: int, j: int|
        0 <= i < j < moves.len() && (#[trigger] moves[i]).from_machine is Some implies
        moves[i].from_machine != (#[trigger] moves[j]).from_machine by {
        if j < remove.len() {
            assert(remove[i] != remove[j]);
        }
    }
    assert forall|i: int, name: Seq<char>|
        0 <= i < moves.len() && (#[trigger] moves[i]).from_machine is None
            && #[trigger] current.contains(name) && !wanted.contains(name) implies exists|j: int|
        0 <= j < i && (#[trigger] moves[j]).from_machine == Some(name) by {
        lemma_left_over(routing::distinct(current), wanted, name);
        routing::lemma_distinct(current, name);
        assert(remove.contains(name));
        let j = choose|j: int| 0 <= j < remove.len() && remove[j] == name;
        assert(moves[j].from_machine == Some(name));
    }
}

/// The machines that come are named in order, and so are those that go.
pub proof fn law_moves_are_paired_in_order(
    partition: u32,
    wanted: Seq<Seq<char>>,
    current: Seq<Seq<char>>,
    i: int,
    j: int,
)
    requires
        0 <= i < j < moves_of(partition, wanted, current).len(),
    ensures
        !text::lex_lt(
            moves_of(partition, wanted, current)[j].to_machine,
            moves_of(partition, wanted, current)[i].to_machine,
        ),
        moves_of(partition, wanted, current)[j].from_machine matches Some(later)
            ==> moves_of(partition, wanted, current)[i].from_machine matches Some(earlier)
            && !text::lex_lt(later, earlier),
{
    lemma_in_order(without(wanted, current));
    lemma_in_order(without(routing::distinct(current), wanted));
}

/// The machines that should hold a partition are as many as wanted, or all of
/// them where they are fewer; they are among the machines, none twice.
pub proof fn law_a_partition_has_its_copies(
    partition: u32,
    machines: Seq<Seq<char>>,
    replication_factor: nat,
)
    ensures
        replication_factor <= machines.len() ==> target(
            partition,
            machines,
            replication_factor,
        ).len() == replication_factor,
        replication_factor > machines.len() ==> target(
            partition,
            machines,
            replication_factor,
        ).len() == machines.len(),
        forall|name: Seq<char>| #[trigger]
            target(partition, machines, replication_factor).contains(name) ==> machines.contains(
                name,
            ),
        machines.no_duplicates() ==> target(
            partition,
            machines,
            replication_factor,
        ).no_duplicates(),
{
    let list = scored(partition, machines);
    let le = sorting::order_of::<Scored>();
    let sorted = sorting::sorted_stably(list, le);
    lemma_scored_order();
    sorting::law_sorting_sorts(list, le);
    let chosen = target(partition, machines, replication_factor);
    assert forall|k: int| 0 <= k < sorted.len() implies machines.contains(
        (#[trigger] sorted[k]).name,
    ) && sorted[k].score == score(partition, sorted[k].name) by {
        assert(sorted.contains(sorted[k]));
        vstd::seq_lib::to_multiset_contains(sorted, sorted[k]);
        vstd::seq_lib::to_multiset_contains(list, sorted[k]);
        let m = choose|m: int| 0 <= m < list.len() && list[m] == sorted[k];
        assert(machines[m] == sorted[k].name);
    }
    assert forall|name: Seq<char>| #[trigger] chosen.contains(name) implies machines.contains(
        name,
    ) by {
        let k = choose|k: int| 0 <= k < chosen.len() && chosen[k] == name;
        assert(sorted[k].name == name);
    }
    if machines.no_duplicates() {
        assert(list.no_duplicates()) by {
            assert forall|i: int, j: int|
                0 <= i < list.len() && 0 <= j < list.len() && i != j implies list[i] != list[j] by {
                assert(machines[i] != machines[j]);
            }
        }
        list.lemma_multiset_has_no_duplicates();
        sorted.lemma_multiset_has_no_duplicates_conv();
        assert forall|i: int, j: int|
            0 <= i < chosen.len() && 0 <= j < chosen.len() && i != j implies chosen[i]
            != chosen[j] by {
            assert(sorted[i] != sorted[j]);
            assert(sorted[i].score == score(partition, sorted[i].name));
            assert(sorted[j].score == score(partition, sorted[j].name));
        }
    }
}

/// A machine that should hold a partition ranks above every machine that
/// should not: its score is higher, or the same with the name that comes first.
pub proof fn law_the_highest_scores_are_chosen(
    partition: u32,
    machines: Seq<Seq<char>>,
    replication_factor: nat,
    chosen: Seq<char>,
    other: Seq<char>,
)
    requires
        target(partition, machines, replication_factor).contains(chosen),
        machines.contains(other),
        !target(partition, machines, replication_factor).contains(other),
    ensures
        score(partition, chosen) > score(partition, other) || (score(partition, chosen) == score(
            partition,
            other,
        ) && text::lex_lt(chosen, other)),
{
    let list = scored(partition, machines);
    let le = sorting::order_of::<Scored>();
    let sorted = sorting::sorted_stably(list, le);
    lemma_scored_order();
    sorting::law_sorting_sorts(list, le);
    law_a_partition_has_its_copies(partition, machines, replication_factor);
    let t = target(partition, machines, replication_factor);
    let i = choose|i: int| 0 <= i < t.len() && t[i] == chosen;
    let m = choose|m: int| 0 <= m < machines.len() && machines[m] == other;
    let x = list[m];
    assert(list.contains(x));
    vstd::seq_lib::to_multiset_contains(list, x);
    vstd::seq_lib::to_multiset_contains(sorted, x);
    let j = choose|j: int| 0 <= j < sorted.len() && sorted[j] == x;
    if j < t.len() {
        assert(t[j] == other);
    }
    assert(sorted.contains(sorted[i]));
    vstd::seq_lib::to_multiset_contains(sorted, sorted[i]);
    vstd::seq_lib::to_multiset_contains(list, sorted[i]);
    let k = choose|k: int| 0 <= k < list.len() && list[k] == sorted[i];
    assert(le(sorted[i], sorted[j]));
}

/// The score of a machine is the XXH3 hash of four bytes that are the
/// partition, the lowest first, and the bytes of the name behind them.
pub proof fn law_scores_hash_partition_and_name(partition: u32, machine: Seq<char>, bytes: Seq<u8>)
    requires
        bytes.len() == 4,
        vstd::bytes::spec_u32_from_le_bytes(bytes) == partition,
    ensures
        score(partition, machine) == partitioning::xxh3_64_of(
            bytes + vstd::utf8::encode_utf8(machine),
        ),
{
    vstd::bytes::lemma_auto_spec_u32_to_from_le_bytes();
    assert(vstd::bytes::spec_u32_to_le_bytes(vstd::bytes::spec_u32_from_le_bytes(bytes)) == bytes);
}

proof fn lemma_moves_of_partition(
    map: PartitionMap,
    machines: Seq<Seq<char>>,
    replication_factor: nat,
    n: nat,
    p: u32,
    move_: PartitionMoveView,
)
    requires
        n <= u32::MAX,
    ensures
        all_moves(map, machines, replication_factor, n).contains(move_) && move_.partition == p
            <==> p < n && moves_of(
            p,
            target(p, machines, replication_factor),
            holders(map, p),
        ).contains(move_),
    decreases n,
{
    if n > 0 {
        let last = (n - 1) as u32;
        lemma_moves_of_partition(map, machines, replication_factor, (n - 1) as nat, p, move_);
        let rest = all_moves(map, machines, replication_factor, (n - 1) as nat);
        let more = moves_of(last, target(last, machines, replication_factor), holders(map, last));
        let all = all_moves(map, machines, replication_factor, n);
        assert(all == rest + more);
        if all.contains(move_) {
            let i = choose|i: int| 0 <= i < all.len() && all[i] == move_;
            if i < rest.len() {
                assert(rest[i] == move_);
            } else {
                assert(more[i - rest.len()] == move_);
            }
        }
        if rest.contains(move_) {
            let i = choose|i: int| 0 <= i < rest.len() && rest[i] == move_;
            assert(all[i] == move_);
        }
        if more.contains(move_) {
            let i = choose|i: int| 0 <= i < more.len() && more[i] == move_;
            assert(all[rest.len() + i] == move_);
        }
        let mine = moves_of(p, target(p, machines, replication_factor), holders(map, p));
        if mine.contains(move_) {
            let i = choose|i: int| 0 <= i < mine.len() && mine[i] == move_;
            assert(mine[i].partition == p);
        }
        if more.contains(move_) {
            let i = choose|i: int| 0 <= i < more.len() && more[i] == move_;
            assert(more[i].partition == last);
        }
    }
}

/// A plan moves a partition to a machine exactly where the machine should hold
/// it and does not: after the moves every machine that should hold a partition
/// does, and nothing else was moved.
pub proof fn law_a_plan_completes_every_partition(
    map: PartitionMap,
    machines: Seq<Seq<char>>,
    replication_factor: nat,
    n: nat,
    p: u32,
    name: Seq<char>,
)
    requires
        n <= u32::MAX,
        machines.no_duplicates(),
    ensures
        (exists|i: int|
            0 <= i < planned_moves(map, machines, replication_factor, n).len() && (
            #[trigger] planned_moves(map, machines, replication_factor, n)[i]).partition == p
                && planned_moves(map, machines, replication_factor, n)[i].to_machine == name) <==> p
            < n && target(p, machines, replication_factor).contains(name) && !holders(
            map,
            p,
        ).contains(name),
{
    let wanted = target(p, machines, replication_factor);
    let there = holders(map, p);
    let mine = moves_of(p, wanted, there);
    let all = planned_moves(map, machines, replication_factor, n);
    law_a_partition_has_its_copies(p, machines, replication_factor);
    law_moves_bring_what_is_missing(p, wanted, there);
    if machines.len() == 0 {
        assert(wanted.len() == 0);
        assert(!wanted.contains(name));
    } else {
        if exists|i: int|
            0 <= i < all.len() && (#[trigger] all[i]).partition == p && all[i].to_machine
                == name {
            let i = choose|i: int|
                0 <= i < all.len() && (#[trigger] all[i]).partition == p && all[i].to_machine
                    == name;
            assert(all.contains(all[i]));
            lemma_moves_of_partition(map, machines, replication_factor, n, p, all[i]);
            let j = choose|j: int| 0 <= j < mine.len() && mine[j] == all[i];
            assert(mine.contains(all[i]));
            assert(0 <= j < mine.len() && mine[j] == all[i]);
            assert(mine[j].to_machine == name);
            assert(wanted.contains(name) && !there.contains(name)) by {
                let w = wanted.contains(name);
                assert(moves_of(p, wanted, there)[j].to_machine == name);
            }
            assert(p < n);
        }
        if p < n && wanted.contains(name) && !there.contains(name) {
            let j = choose|j: int| 0 <= j < mine.len() && (#[trigger] mine[j]).to_machine == name;
            assert(mine.contains(mine[j]));
            lemma_moves_of_partition(map, machines, replication_factor, n, p, mine[j]);
            let i = choose|i: int| 0 <= i < all.len() && all[i] == mine[j];
            assert(all[i].partition == p && all[i].to_machine == name);
        }
    }
}

} // verus!
