//! Which replica is asked about what: items are grouped by the partition
//! that owns them, and each group goes to a healthy replica of it.
use crate::cluster::{PartitionHasher, PartitionMap, ReplicaEndpoint, ReplicaEndpointView};
use crate::index::PartitionId;
use crate::maps::Same;
use crate::query::local_executor;
use crate::query::walk;
use crate::query::{Binding, BindingView, ExecutionError, ExecutionErrorView};
use crate::schema::partitioning;
use crate::schema::{EdgeId, NodeId};
use crate::text;
use crate::text::Duplicate;
use vstd::prelude::*;

verus! {

/// The keys that occur, each once, in the order of their first occurrence.
pub open spec fn distinct<K>(keys: Seq<K>) -> Seq<K> {
    walk::union_new(seq![], keys)
}

/// The items whose key is `k`, in their order.
pub open spec fn members<T, K>(items: Seq<T>, keys: Seq<K>, k: K) -> Seq<T>
    decreases items.len(),
{
    if items.len() == 0 {
        seq![]
    } else {
        let rest = members(items.drop_last(), keys.drop_last(), k);
        if keys.last() == k {
            rest.push(items.last())
        } else {
            rest
        }
    }
}

/// The groups of some partitions that have a healthy replica, each with that
/// replica.
pub open spec fn routes_to<T>(
    map: PartitionMap,
    partitions: Seq<u32>,
    items: Seq<T>,
    owners: Seq<u32>,
) -> Seq<(ReplicaEndpointView, Seq<T>)>
    decreases partitions.len(),
{
    if partitions.len() == 0 {
        seq![]
    } else {
        let rest = routes_to(map, partitions.drop_last(), items, owners);
        match map.choice(partitions.last()) {
            Some(replica) => rest.push((replica, members(items, owners, partitions.last()))),
            None => rest,
        }
    }
}

/// Where items go, given the owner of each. What a partition without a
/// healthy replica owns goes nowhere.
pub open spec fn routes_of<T>(map: PartitionMap, items: Seq<T>, owners: Seq<u32>) -> Seq<
    (ReplicaEndpointView, Seq<T>),
> {
    routes_to(map, distinct(owners), items, owners)
}

/// Items on their way to a replica.
#[derive(Debug)]
pub struct Route<T> {
    pub replica: ReplicaEndpoint,
    pub items: Vec<T>,
}

pub open spec fn route_views<T: View>(routes: Seq<Route<T>>) -> Seq<
    (ReplicaEndpointView, Seq<T::V>),
> {
    Seq::new(routes.len(), |i: int| (routes[i].replica@, text::views(routes[i].items@)))
}

impl View for NodeId {
    type V = NodeId;

    open spec fn view(&self) -> NodeId {
        *self
    }
}

impl Duplicate for NodeId {
    fn duplicate(&self) -> (r: Self) {
        *self
    }
}

/// An edge and the node that it comes from, whose partition holds its record.
#[derive(Clone, Copy, Debug, PartialEq, Eq, Structural)]
pub struct EdgeAt {
    pub edge: EdgeId,
    pub source: NodeId,
}

impl View for EdgeAt {
    type V = EdgeAt;

    open spec fn view(&self) -> EdgeAt {
        *self
    }
}

impl Duplicate for EdgeAt {
    fn duplicate(&self) -> (r: Self) {
        *self
    }
}

/// The owner of each node.
pub open spec fn node_owners(ids: Seq<NodeId>, n: u32) -> Seq<u32> {
    Seq::new(ids.len(), |i: int| partitioning::owner(ids[i], n))
}

/// The owner of each edge.
pub open spec fn edge_owners(edges: Seq<EdgeAt>, n: u32) -> Seq<u32> {
    Seq::new(edges.len(), |i: int| partitioning::owner(edges[i].source, n))
}

/// The owner of the node that each row binds an alias to.
pub open spec fn row_owners(rows: Seq<BindingView>, alias: Seq<char>, n: u32) -> Seq<u32> {
    Seq::new(rows.len(), |i: int| partitioning::owner(rows[i].nodes[alias], n))
}

/// The keys that occur, each once.
fn distinct_exec(keys: &Vec<u32>) -> (r: Vec<u32>)
    ensures
        r@ == distinct(keys@),
{
    let mut found: Vec<u32> = Vec::new();
    let mut i: usize = 0;
    assert(keys@.take(0) =~= Seq::<u32>::empty());
    assert(found@ =~= distinct(keys@.take(0)));
    while i < keys.len()
        invariant
            i <= keys@.len(),
            found@ == distinct(keys@.take(i as int)),
        decreases keys.len() - i,
    {
        assert(keys@.take(i + 1).drop_last() =~= keys@.take(i as int));
        let k: u32 = keys[i];
        let mut known = false;
        let mut j: usize = 0;
        while j < found.len() && !known
            invariant
                j <= found@.len(),
                known == exists|x: int| 0 <= x < j && #[trigger] found@[x] == k,
            decreases found.len() - j,
        {
            if found[j] == k {
                assert(found@[j as int] == k);
                known = true;
            }
            j = j + 1;
        }
        assert(known == found@.contains(k));
        if !known {
            found.push(k);
        }
        i = i + 1;
    }
    assert(keys@.take(keys@.len() as int) =~= keys@);
    found
}

/// The items whose key is `k`.
pub(crate) fn members_exec<T: Duplicate, K: Same>(items: &Vec<T>, keys: &Vec<K>, k: K) -> (r: Vec<
    T,
>)
    requires
        items@.len() == keys@.len(),
    ensures
        text::views(r@) == members(text::views(items@), keys@, k),
{
    let ghost all = text::views(items@);
    let mut found: Vec<T> = Vec::new();
    let mut i: usize = 0;
    assert(all.take(0) =~= Seq::<T::V>::empty());
    assert(text::views(found@) =~= Seq::<T::V>::empty());
    while i < items.len()
        invariant
            i <= items@.len(),
            items@.len() == keys@.len(),
            all == text::views(items@),
            text::views(found@) == members(all.take(i as int), keys@.take(i as int), k),
        decreases items.len() - i,
    {
        assert(all.take(i + 1).drop_last() =~= all.take(i as int));
        assert(keys@.take(i + 1).drop_last() =~= keys@.take(i as int));
        assert(all.take(i + 1).last() == items@[i as int]@);
        if keys[i].is_same(&k) {
            let x = items[i].duplicate();
            proof {
                text::lemma_views_push(found@, x);
            }
            found.push(x);
        }
        i = i + 1;
    }
    assert(all.take(all.len() as int) =~= all);
    assert(keys@.take(keys@.len() as int) =~= keys@);
    found
}

/// Groups items by their owners, and picks a replica for each group.
pub fn route<T: Duplicate>(map: &PartitionMap, items: &Vec<T>, owners: &Vec<u32>) -> (r: Vec<
    Route<T>,
>)
    requires
        map.wf(),
        items@.len() == owners@.len(),
    ensures
        route_views(r@) == routes_of(*map, text::views(items@), owners@),
{
    let partitions = distinct_exec(owners);
    let ghost all = text::views(items@);
    let mut routes: Vec<Route<T>> = Vec::new();
    let mut i: usize = 0;
    assert(partitions@.take(0) =~= Seq::<u32>::empty());
    assert(route_views(routes@) =~= Seq::<(ReplicaEndpointView, Seq<T::V>)>::empty());
    while i < partitions.len()
        invariant
            i <= partitions@.len(),
            map.wf(),
            items@.len() == owners@.len(),
            all == text::views(items@),
            route_views(routes@) == routes_to(*map, partitions@.take(i as int), all, owners@),
        decreases partitions.len() - i,
    {
        assert(partitions@.take(i + 1).drop_last() =~= partitions@.take(i as int));
        let p: u32 = partitions[i];
        if let Some(replica) = map.pick_replica(PartitionId(p)) {
            let x = Route {
                replica: replica.duplicate(),
                items: members_exec(items, owners, p),
            };
            assert(route_views(routes@.push(x)) =~= route_views(routes@).push(
                (x.replica@, text::views(x.items@)),
            ));
            routes.push(x);
        }
        i = i + 1;
    }
    assert(partitions@.take(partitions@.len() as int) =~= partitions@);
    routes
}

/// Where node ids go.
pub fn route_nodes(map: &PartitionMap, hasher: &PartitionHasher, ids: &Vec<NodeId>) -> (r: Vec<
    Route<NodeId>,
>)
    requires
        map.wf(),
        hasher.n_partitions > 0,
    ensures
        route_views(r@) == routes_of(*map, ids@, node_owners(ids@, hasher.n_partitions)),
{
    let mut owners: Vec<u32> = Vec::new();
    let mut i: usize = 0;
    while i < ids.len()
        invariant
            i <= ids@.len(),
            hasher.n_partitions > 0,
            owners@ == node_owners(ids@, hasher.n_partitions).take(i as int),
        decreases ids.len() - i,
    {
        owners.push(hasher.partition_of(ids[i]).0);
        assert(owners@ =~= node_owners(ids@, hasher.n_partitions).take(i + 1));
        i = i + 1;
    }
    assert(owners@ =~= node_owners(ids@, hasher.n_partitions));
    assert(text::views(ids@) =~= ids@);
    route(map, ids, &owners)
}

/// Where edges go.
pub fn route_edges(map: &PartitionMap, hasher: &PartitionHasher, edges: &Vec<EdgeAt>) -> (r: Vec<
    Route<EdgeAt>,
>)
    requires
        map.wf(),
        hasher.n_partitions > 0,
    ensures
        route_views(r@) == routes_of(*map, edges@, edge_owners(edges@, hasher.n_partitions)),
{
    let mut owners: Vec<u32> = Vec::new();
    let mut i: usize = 0;
    while i < edges.len()
        invariant
            i <= edges@.len(),
            hasher.n_partitions > 0,
            owners@ == edge_owners(edges@, hasher.n_partitions).take(i as int),
        decreases edges.len() - i,
    {
        owners.push(hasher.partition_of(edges[i].source).0);
        assert(owners@ =~= edge_owners(edges@, hasher.n_partitions).take(i + 1));
        i = i + 1;
    }
    assert(owners@ =~= edge_owners(edges@, hasher.n_partitions));
    assert(text::views(edges@) =~= edges@);
    route(map, edges, &owners)
}

/// The owner of the node that each row binds an alias to, unless one does not.
pub fn owners_of_rows(hasher: &PartitionHasher, rows: &Vec<Binding>, alias: &String) -> (r: Result<
    Vec<u32>,
    ExecutionError,
>)
    requires
        hasher.n_partitions > 0,
    ensures
        match r {
            Ok(owners) => local_executor::all_bind(text::views(rows@), alias@) && owners@
                == row_owners(text::views(rows@), alias@, hasher.n_partitions),
            Err(e) => !local_executor::all_bind(text::views(rows@), alias@) && e@
                == ExecutionErrorView::UnknownAlias(alias@),
        },
{
    let ghost all = text::views(rows@);
    let mut owners: Vec<u32> = Vec::new();
    let mut i: usize = 0;
    while i < rows.len()
        invariant
            i <= rows@.len(),
            hasher.n_partitions > 0,
            all == text::views(rows@),
            owners@ == row_owners(all, alias@, hasher.n_partitions).take(i as int),
            forall|k: int| 0 <= k < i ==> (#[trigger] all[k]).nodes.dom().contains(alias@),
        decreases rows.len() - i,
    {
        assert(all[i as int] == rows@[i as int]@);
        match rows[i].nodes.get(alias.as_str()) {
            Some(node) => {
                owners.push(hasher.partition_of(*node).0);
                assert(owners@ =~= row_owners(all, alias@, hasher.n_partitions).take(i + 1));
            },
            None => {
                assert(!all[i as int].nodes.dom().contains(alias@));
                return Err(ExecutionError::UnknownAlias(alias.clone()));
            },
        }
        i = i + 1;
    }
    assert(owners@ =~= row_owners(all, alias@, hasher.n_partitions));
    Ok(owners)
}

/// Where rows go, unless one of them does not bind the alias to go by.
pub open spec fn row_routes(
    map: PartitionMap,
    rows: Seq<BindingView>,
    alias: Seq<char>,
    n: u32,
) -> Result<Seq<(ReplicaEndpointView, Seq<BindingView>)>, ExecutionErrorView> {
    if local_executor::all_bind(rows, alias) {
        Ok(routes_of(map, rows, row_owners(rows, alias, n)))
    } else {
        Err(ExecutionErrorView::UnknownAlias(alias))
    }
}

/// Where rows go.
pub fn route_rows(map: &PartitionMap, hasher: &PartitionHasher, rows: &Vec<Binding>, alias: &String) -> (r:
    Result<Vec<Route<Binding>>, ExecutionError>)
    requires
        map.wf(),
        hasher.n_partitions > 0,
    ensures
        match r {
            Ok(routes) => row_routes(*map, text::views(rows@), alias@, hasher.n_partitions) == Ok::<
                Seq<(ReplicaEndpointView, Seq<BindingView>)>,
                ExecutionErrorView,
            >(route_views(routes@)),
            Err(e) => row_routes(*map, text::views(rows@), alias@, hasher.n_partitions) == Err::<
                Seq<(ReplicaEndpointView, Seq<BindingView>)>,
                ExecutionErrorView,
            >(e@),
        },
{
    match owners_of_rows(hasher, rows, alias) {
        Ok(owners) => Ok(route(map, rows, &owners)),
        Err(e) => Err(e),
    }
}

pub proof fn lemma_distinct<K>(keys: Seq<K>, k: K)
    ensures
        distinct(keys).contains(k) <==> keys.contains(k),
        distinct(keys).no_duplicates(),
{
    walk::lemma_union_new(seq![], keys, k);
}

pub proof fn lemma_members<T, K>(items: Seq<T>, keys: Seq<K>, k: K, x: T)
    requires
        items.len() == keys.len(),
    ensures
        members(items, keys, k).contains(x) <==> exists|i: int|
            0 <= i < items.len() && #[trigger] items[i] == x && keys[i] == k,
    decreases items.len(),
{
    if items.len() > 0 {
        let si = items.drop_last();
        let sk = keys.drop_last();
        lemma_members(si, sk, k, x);
        let rest = members(si, sk, k);
        let all = members(items, keys, k);
        walk::lemma_push_new(rest, items.last(), x);
        if rest.contains(x) {
            let i = choose|i: int| 0 <= i < si.len() && #[trigger] si[i] == x && sk[i] == k;
            assert(items[i] == x && keys[i] == k);
            let j = choose|j: int| 0 <= j < rest.len() && rest[j] == x;
            assert(all[j] == x);
        }
        if all.contains(x) {
            let j = choose|j: int| 0 <= j < all.len() && all[j] == x;
            if j < rest.len() {
                assert(rest[j] == x);
            } else {
                assert(items[items.len() - 1] == x);
            }
        }
        if exists|i: int| 0 <= i < items.len() && #[trigger] items[i] == x && keys[i] == k {
            let i = choose|i: int| 0 <= i < items.len() && #[trigger] items[i] == x && keys[i] == k;
            if i < si.len() {
                assert(si[i] == x && sk[i] == k);
            } else {
                assert(all[rest.len() as int] == x);
            }
        }
    }
}

/// A route is to a replica of one of the partitions, with its members.
proof fn lemma_routes_to<T>(
    map: PartitionMap,
    partitions: Seq<u32>,
    items: Seq<T>,
    owners: Seq<u32>,
    j: int,
) -> (p: u32)
    requires
        0 <= j < routes_to(map, partitions, items, owners).len(),
    ensures
        partitions.contains(p),
        map.choice(p) == Some(routes_to(map, partitions, items, owners)[j].0),
        routes_to(map, partitions, items, owners)[j].1 == members(items, owners, p),
    decreases partitions.len(),
{
    let shorter = partitions.drop_last();
    let rest = routes_to(map, shorter, items, owners);
    if j < rest.len() {
        let p = lemma_routes_to(map, shorter, items, owners, j);
        let i = choose|i: int| 0 <= i < shorter.len() && shorter[i] == p;
        assert(partitions[i] == p);
        p
    } else {
        assert(partitions[partitions.len() - 1] == partitions.last());
        partitions.last()
    }
}

/// Each of the partitions that has a replica has a route.
proof fn lemma_routed<T>(
    map: PartitionMap,
    partitions: Seq<u32>,
    items: Seq<T>,
    owners: Seq<u32>,
    p: u32,
) -> (j: int)
    requires
        partitions.contains(p),
        map.choice(p) is Some,
    ensures
        0 <= j < routes_to(map, partitions, items, owners).len(),
        routes_to(map, partitions, items, owners)[j] == (
            map.choice(p)->Some_0,
            members(items, owners, p),
        ),
    decreases partitions.len(),
{
    let shorter = partitions.drop_last();
    let rest = routes_to(map, shorter, items, owners);
    if partitions.last() == p {
        rest.len() as int
    } else {
        let i = choose|i: int| 0 <= i < partitions.len() && partitions[i] == p;
        assert(shorter[i] == p);
        lemma_routed(map, shorter, items, owners, p)
    }
}

/// Every item of a route has an owner for which the replica of that route was
/// chosen; and every item whose owner has a healthy replica is on a route.
pub proof fn law_items_go_to_a_replica_of_their_owner<T>(
    map: PartitionMap,
    items: Seq<T>,
    owners: Seq<u32>,
)
    requires
        items.len() == owners.len(),
    ensures
        forall|j: int, x: T|
            0 <= j < routes_of(map, items, owners).len() && (#[trigger] routes_of(
                map,
                items,
                owners,
            )[j].1.contains(x)) ==> exists|i: int|
                0 <= i < items.len() && #[trigger] items[i] == x && map.choice(owners[i]) == Some(
                    routes_of(map, items, owners)[j].0,
                ),
        forall|i: int|
            0 <= i < items.len() && map.choice(#[trigger] owners[i]) is Some ==> exists|j: int|
                0 <= j < routes_of(map, items, owners).len() && (#[trigger] routes_of(
                    map,
                    items,
                    owners,
                )[j]).0 == map.choice(owners[i])->Some_0 && routes_of(
                    map,
                    items,
                    owners,
                )[j].1.contains(items[i]),
{
    let routes = routes_of(map, items, owners);
    assert forall|j: int, x: T|
        0 <= j < routes.len() && (#[trigger] routes[j].1.contains(x)) implies exists|i: int|
        0 <= i < items.len() && #[trigger] items[i] == x && map.choice(owners[i]) == Some(
            routes[j].0,
        ) by {
        let p = lemma_routes_to(map, distinct(owners), items, owners, j);
        lemma_members(items, owners, p, x);
    }
    assert forall|i: int|
        0 <= i < items.len() && map.choice(#[trigger] owners[i]) is Some implies exists|j: int|
        0 <= j < routes.len() && (#[trigger] routes[j]).0 == map.choice(owners[i])->Some_0
            && routes[j].1.contains(items[i]) by {
        let p = owners[i];
        lemma_distinct(owners, p);
        assert(owners.contains(p));
        lemma_members(items, owners, p, items[i]);
        assert(members(items, owners, p).contains(items[i]));
        let j = lemma_routed(map, distinct(owners), items, owners, p);
        assert(routes[j].1.contains(items[i]));
    }
}

/// A replica is sent only rows that stand at a node of the partition that it
/// was chosen for.
pub proof fn law_rows_go_where_they_stand(
    map: PartitionMap,
    rows: Seq<BindingView>,
    alias: Seq<char>,
    n: u32,
    j: int,
    row: BindingView,
)
    requires
        local_executor::all_bind(rows, alias),
        0 <= j < (row_routes(map, rows, alias, n)->Ok_0).len(),
        (row_routes(map, rows, alias, n)->Ok_0)[j].1.contains(row),
    ensures
        rows.contains(row),
        map.choice(partitioning::owner(row.nodes[alias], n)) == Some(
            (row_routes(map, rows, alias, n)->Ok_0)[j].0,
        ),
{
    let owners = row_owners(rows, alias, n);
    law_items_go_to_a_replica_of_their_owner(map, rows, owners);
    let routes = routes_of(map, rows, owners);
    assert(routes[j].1.contains(row));
    let i = choose|i: int|
        0 <= i < rows.len() && #[trigger] rows[i] == row && map.choice(owners[i]) == Some(
            routes[j].0,
        );
    assert(owners[i] == partitioning::owner(row.nodes[alias], n));
}

} // verus!
