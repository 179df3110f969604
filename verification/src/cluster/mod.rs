//! The members of a cluster: which replica holds which partition, how that
//! is found out, and how partitions move when machines come and go.
//!
//! The number of partitions is fixed for the lifetime of a graph. Only the
//! placement of partitions on machines ever changes.
use crate::index::laws;
use crate::index::PartitionId;
use crate::maps::IdMap;
use crate::schema::partitioning;
use crate::schema::NodeId;
use crate::text;
use crate::text::Duplicate;
use vstd::prelude::*;

pub mod discovery;
pub mod rebalance;

verus! {

/// The name of a replica, such as that of its pod.
#[derive(Clone, Debug, PartialEq, Eq, Hash)]
pub struct ReplicaId(pub String);

impl View for ReplicaId {
    type V = Seq<char>;

    open spec fn view(&self) -> Seq<char> {
        self.0@
    }
}

/// One replica of a partition, and the `host:port` that it listens on.
#[derive(Clone, Debug, PartialEq, Eq)]
pub struct ReplicaEndpoint {
    pub replica: ReplicaId,
    pub address: String,
    pub healthy: bool,
}

pub struct ReplicaEndpointView {
    pub replica: Seq<char>,
    pub address: Seq<char>,
    pub healthy: bool,
}

impl View for ReplicaEndpoint {
    type V = ReplicaEndpointView;

    open spec fn view(&self) -> ReplicaEndpointView {
        ReplicaEndpointView {
            replica: self.replica@,
            address: self.address@,
            healthy: self.healthy,
        }
    }
}

impl Duplicate for ReplicaEndpoint {
    fn duplicate(&self) -> (r: Self) {
        ReplicaEndpoint {
            replica: ReplicaId(self.replica.0.clone()),
            address: self.address.clone(),
            healthy: self.healthy,
        }
    }
}

/// Knows which partition owns a node.
#[derive(Clone, Copy, Debug)]
pub struct PartitionHasher {
    pub n_partitions: u32,
}

impl PartitionHasher {
    pub fn partition_of(&self, node_id: NodeId) -> (r: PartitionId)
        requires
            self.n_partitions > 0,
        ensures
            r.0 == partitioning::owner(node_id, self.n_partitions),
            r.0 < self.n_partitions,
    {
        PartitionId(partitioning::partition_of(node_id, self.n_partitions))
    }
}

/// Which replicas hold which partition, by the number of the partition.
#[derive(Debug)]
pub struct PartitionMap {
    pub replicas_by_partition: IdMap<Vec<ReplicaEndpoint>>,
}

/// The replicas that are healthy, in their order.
pub open spec fn healthy_of(replicas: Seq<ReplicaEndpointView>) -> Seq<ReplicaEndpointView>
    decreases replicas.len(),
{
    if replicas.len() == 0 {
        seq![]
    } else {
        let rest = healthy_of(replicas.drop_last());
        if replicas.last().healthy {
            rest.push(replicas.last())
        } else {
            rest
        }
    }
}

impl PartitionMap {
    pub open spec fn wf(&self) -> bool {
        self.replicas_by_partition.wf()
    }

    /// The partitions that are known, in the order they became known.
    pub open spec fn known(&self) -> Seq<u64> {
        self.replicas_by_partition.order()
    }

    /// The replicas of a partition.
    pub open spec fn replicas(&self, partition: u32) -> Seq<ReplicaEndpointView> {
        let m = self.replicas_by_partition.map();
        if m.dom().contains(partition as u64) {
            text::views(m[partition as u64]@)
        } else {
            seq![]
        }
    }

    /// The replica that is asked for a partition: the first healthy one.
    pub open spec fn choice(&self, partition: u32) -> Option<ReplicaEndpointView> {
        let healthy = healthy_of(self.replicas(partition));
        if healthy.len() == 0 {
            None
        } else {
            Some(healthy[0])
        }
    }

    /// A map that knows no partition.
    pub fn new() -> (r: Self)
        ensures
            r.wf(),
            r.known() == Seq::<u64>::empty(),
            forall|p: u32| (#[trigger] r.replicas(p)).len() == 0,
    {
        PartitionMap { replicas_by_partition: IdMap::new() }
    }

    /// Sets the replicas of a partition.
    pub fn insert(&mut self, partition: PartitionId, replicas: Vec<ReplicaEndpoint>)
        requires
            old(self).wf(),
        ensures
            final(self).wf(),
            final(self).known() == (if old(self).known().contains(partition.0 as u64) {
                old(self).known()
            } else {
                old(self).known().push(partition.0 as u64)
            }),
            forall|p: u32| #[trigger]
                final(self).replicas(p) == if p == partition.0 {
                    text::views(replicas@)
                } else {
                    old(self).replicas(p)
                },
    {
        proof {
            self.replicas_by_partition.lemma_order();
        }
        self.replicas_by_partition.insert(partition.0 as u64, replicas);
    }

    /// Adds a replica of a partition, behind those that are there.
    pub fn add_replica(&mut self, partition: PartitionId, replica: ReplicaEndpoint)
        requires
            old(self).wf(),
        ensures
            final(self).wf(),
            final(self).known() == (if old(self).known().contains(partition.0 as u64) {
                old(self).known()
            } else {
                old(self).known().push(partition.0 as u64)
            }),
            forall|p: u32| #[trigger]
                final(self).replicas(p) == if p == partition.0 {
                    old(self).replicas(p).push(replica@)
                } else {
                    old(self).replicas(p)
                },
    {
        let mut replicas: Vec<ReplicaEndpoint> = match self.replicas_by_partition.get(
            partition.0 as u64,
        ) {
            Some(there) => text::duplicate_all(there),
            None => Vec::new(),
        };
        proof {
            assert(text::views(replicas@) =~= self.replicas(partition.0));
            text::lemma_views_push(replicas@, replica);
        }
        replicas.push(replica);
        self.insert(partition, replicas);
    }

    /// The healthy replicas of a partition. All of them answer alike.
    pub fn healthy_replicas(&self, partition: PartitionId) -> (r: Vec<&ReplicaEndpoint>)
        requires
            self.wf(),
        ensures
            r@.len() == healthy_of(self.replicas(partition.0)).len(),
            forall|i: int|
                0 <= i < r@.len() ==> (#[trigger] r@[i])@ == healthy_of(
                    self.replicas(partition.0),
                )[i],
    {
        let mut found: Vec<&ReplicaEndpoint> = Vec::new();
        match self.replicas_by_partition.get(partition.0 as u64) {
            None => found,
            Some(replicas) => {
                let ghost all = text::views(replicas@);
                let mut i: usize = 0;
                assert(all.take(0) =~= Seq::<ReplicaEndpointView>::empty());
                while i < replicas.len()
                    invariant
                        i <= replicas@.len(),
                        all == text::views(replicas@),
                        found@.len() == healthy_of(all.take(i as int)).len(),
                        forall|k: int|
                            0 <= k < found@.len() ==> (#[trigger] found@[k])@ == healthy_of(
                                all.take(i as int),
                            )[k],
                    decreases replicas.len() - i,
                {
                    assert(all.take(i + 1).drop_last() =~= all.take(i as int));
                    assert(all.take(i + 1).last() == replicas@[i as int]@);
                    if replicas[i].healthy {
                        found.push(&replicas[i]);
                    }
                    i = i + 1;
                }
                assert(all.take(all.len() as int) =~= all);
                found
            },
        }
    }

    /// The replica that is asked for a partition.
    pub fn pick_replica(&self, partition: PartitionId) -> (r: Option<&ReplicaEndpoint>)
        requires
            self.wf(),
        ensures
            match r {
                Some(replica) => self.choice(partition.0) == Some(replica@),
                None => self.choice(partition.0) is None,
            },
    {
        let healthy = self.healthy_replicas(partition);
        if healthy.len() == 0 {
            None
        } else {
            Some(healthy[0])
        }
    }

    /// A copy of the map.
    pub fn copied(&self) -> (r: Self)
        requires
            self.wf(),
        ensures
            r.wf(),
            r.known() == self.known(),
            forall|p: u32| #[trigger] r.replicas(p) == self.replicas(p),
    {
        let mut out: IdMap<Vec<ReplicaEndpoint>> = IdMap::new();
        let ghost order = self.known();
        let ghost m = self.replicas_by_partition.map();
        proof {
            self.replicas_by_partition.lemma_order();
        }
        let mut i: usize = 0;
        while i < self.replicas_by_partition.len()
            invariant
                i <= order.len(),
                self.wf(),
                out.wf(),
                order == self.replicas_by_partition.order(),
                m == self.replicas_by_partition.map(),
                order.no_duplicates(),
                forall|k: u64| m.dom().contains(k) <==> order.contains(k),
                out.order() == order.take(i as int),
                forall|k: u64| out.map().dom().contains(k) <==> order.take(i as int).contains(k),
                forall|k: u64| #[trigger]
                    out.map().dom().contains(k) ==> m.dom().contains(k) && text::views(
                        out.map()[k]@,
                    ) == text::views(m[k]@),
            decreases order.len() - i,
        {
            let k: u64 = self.replicas_by_partition.key(i);
            let ghost before = out.map();
            if let Some(replicas) = self.replicas_by_partition.get(k) {
                let copy = text::duplicate_all(replicas);
                proof {
                    if order.take(i as int).contains(k) {
                        let j = choose|j: int|
                            0 <= j < order.take(i as int).len() && order.take(i as int)[j] == k;
                        assert(order[j] == order[i as int]);
                    }
                }
                out.insert(k, copy);
                proof {
                    assert(order.take(i + 1) =~= order.take(i as int).push(k));
                    assert forall|x: u64| out.map().dom().contains(x) <==> order.take(
                        i + 1,
                    ).contains(x) by {
                        let now = order.take(i + 1);
                        let earlier = order.take(i as int);
                        assert(now[i as int] == k);
                        if earlier.contains(x) {
                            let j = choose|j: int| 0 <= j < earlier.len() && earlier[j] == x;
                            assert(now[j] == x);
                        }
                        if now.contains(x) && x != k {
                            let j = choose|j: int| 0 <= j < now.len() && now[j] == x;
                            assert(earlier[j] == x);
                        }
                    }
                }
            } else {
                assert(order.contains(order[i as int]));
            }
            i = i + 1;
        }
        assert(order.take(order.len() as int) =~= order);
        let r = PartitionMap { replicas_by_partition: out };
        assert forall|p: u32| #[trigger] r.replicas(p) == self.replicas(p) by {
            assert(r.replicas_by_partition.map().dom().contains(p as u64) <==> m.dom().contains(
                p as u64,
            ));
        }
        r
    }
}

impl Default for PartitionMap {
    fn default() -> (r: Self)
        ensures
            r.wf(),
            r.known() == Seq::<u64>::empty(),
            forall|p: u32| (#[trigger] r.replicas(p)).len() == 0,
    {
        PartitionMap::new()
    }
}

/// The healthy replicas are those of the replicas that are healthy, and they
/// keep their order.
pub proof fn law_healthy_replicas_are_healthy(
    replicas: Seq<ReplicaEndpointView>,
    x: ReplicaEndpointView,
)
    ensures
        healthy_of(replicas).contains(x) <==> replicas.contains(x) && x.healthy,
        healthy_of(replicas) == replicas.filter(|r: ReplicaEndpointView| r.healthy),
    decreases replicas.len(),
{
    reveal(Seq::filter);
    if replicas.len() > 0 {
        let shorter = replicas.drop_last();
        let rest = healthy_of(shorter);
        law_healthy_replicas_are_healthy(shorter, x);
        laws::lemma_contains_push(shorter, replicas.last(), x);
        laws::lemma_contains_push(rest, replicas.last(), x);
        assert(replicas =~= shorter.push(replicas.last()));
    }
}

/// The replica that is asked for a partition is the first healthy one; there is
/// none exactly where no replica is healthy.
pub proof fn law_the_first_healthy_replica_is_asked(map: PartitionMap, p: u32, x: ReplicaEndpointView)
    ensures
        map.choice(p) == Some(x) <==> exists|i: int|
            0 <= i < map.replicas(p).len() && #[trigger] map.replicas(p)[i] == x && x.healthy
                && forall|j: int| 0 <= j < i ==> !(#[trigger] map.replicas(p)[j]).healthy,
        map.choice(p) is None <==> forall|i: int|
            0 <= i < map.replicas(p).len() ==> !(#[trigger] map.replicas(p)[i]).healthy,
{
    lemma_first_healthy(map.replicas(p), x);
}

proof fn lemma_first_healthy(replicas: Seq<ReplicaEndpointView>, x: ReplicaEndpointView)
    ensures
        healthy_of(replicas).len() > 0 && healthy_of(replicas)[0] == x <==> exists|i: int|
            0 <= i < replicas.len() && #[trigger] replicas[i] == x && x.healthy && forall|j: int|
                0 <= j < i ==> !(#[trigger] replicas[j]).healthy,
        healthy_of(replicas).len() == 0 <==> forall|i: int|
            0 <= i < replicas.len() ==> !(#[trigger] replicas[i]).healthy,
    decreases replicas.len(),
{
    if replicas.len() > 0 {
        let shorter = replicas.drop_last();
        let last = replicas.len() - 1;
        lemma_first_healthy(shorter, x);
        assert(forall|i: int| 0 <= i < last ==> #[trigger] shorter[i] == replicas[i]);
        assert(replicas[last] == replicas.last());
        if exists|i: int|
            0 <= i < shorter.len() && #[trigger] shorter[i] == x && x.healthy && forall|j: int|
                0 <= j < i ==> !(#[trigger] shorter[j]).healthy {
            let i = choose|i: int|
                0 <= i < shorter.len() && #[trigger] shorter[i] == x && x.healthy && forall|j: int|
                    0 <= j < i ==> !(#[trigger] shorter[j]).healthy;
            assert(replicas[i] == x);
            assert forall|j: int| 0 <= j < i implies !(#[trigger] replicas[j]).healthy by {
                assert(!shorter[j].healthy);
            }
        }
        if exists|i: int|
            0 <= i < replicas.len() && #[trigger] replicas[i] == x && x.healthy && forall|j: int|
                0 <= j < i ==> !(#[trigger] replicas[j]).healthy {
            let i = choose|i: int|
                0 <= i < replicas.len() && #[trigger] replicas[i] == x && x.healthy && forall|
                    j: int,
                |
                    0 <= j < i ==> !(#[trigger] replicas[j]).healthy;
            if i < last {
                assert(shorter[i] == x);
                assert forall|j: int| 0 <= j < i implies !(#[trigger] shorter[j]).healthy by {
                    assert(!replicas[j].healthy);
                }
            } else {
                assert forall|j: int| 0 <= j < shorter.len() implies !(
                #[trigger] shorter[j]).healthy by {
                    assert(!replicas[j].healthy);
                }
            }
        }
        if forall|i: int| 0 <= i < replicas.len() ==> !(#[trigger] replicas[i]).healthy {
            assert forall|j: int| 0 <= j < shorter.len() implies !(#[trigger] shorter[j]).healthy by {
                assert(!replicas[j].healthy);
            }
        }
        if healthy_of(replicas).len() == 0 {
            assert forall|i: int| 0 <= i < replicas.len() implies !(
            #[trigger] replicas[i]).healthy by {
                if i < last {
                    assert(!shorter[i].healthy);
                }
            }
        } else if healthy_of(shorter).len() == 0 {
            assert forall|j: int| 0 <= j < last implies !(#[trigger] replicas[j]).healthy by {
                assert(!shorter[j].healthy);
            }
        }
    }
}

} // verus!
