//! Finds out which replicas there are: from what an orchestrator says of its
//! pods, or from a fixed list.
use crate::cluster::{
    PartitionMap, ReplicaEndpoint, ReplicaEndpointView, ReplicaId,
};
use crate::index::laws;
use crate::index::PartitionId;
use crate::text;
use crate::text::Duplicate;
use crate::values;
use vstd::prelude::*;
use vstd::string::*;

verus! {

/// The annotation of a pod that lists the partitions it holds, such as
/// `"3,17,42"`.
pub const PARTITIONS_ANNOTATION: &'static str = "graph.io/partitions";

/// Why the members of a cluster could not be found out.
#[derive(Clone, Debug, PartialEq, Eq)]
pub enum DiscoveryError {
    KubernetesApi(String),
}

impl DiscoveryError {
    /// The error in words.
    pub open spec fn text(&self) -> Seq<char> {
        match self {
            DiscoveryError::KubernetesApi(m) => "Kubernetes API error: "@ + m@,
        }
    }

    pub fn message(&self) -> (r: String)
        ensures
            r@ == self.text(),
    {
        match self {
            DiscoveryError::KubernetesApi(m) => {
                let mut s: String = "Kubernetes API error: ".to_owned();
                s.append(m.as_str());
                s
            },
        }
    }
}

/// A condition of a pod.
#[derive(Clone, Debug, PartialEq, Eq)]
pub struct PodCondition {
    pub kind: String,
    pub status: String,
}

pub struct PodConditionView {
    pub kind: Seq<char>,
    pub status: Seq<char>,
}

impl View for PodCondition {
    type V = PodConditionView;

    open spec fn view(&self) -> PodConditionView {
        PodConditionView { kind: self.kind@, status: self.status@ }
    }
}

/// What is known of a pod. `address` is the `host:port` of its service where
/// the pod has an address that can be dialled.
#[derive(Clone, Debug, PartialEq, Eq)]
pub struct PodInfo {
    pub name: Option<String>,
    pub address: Option<String>,
    pub conditions: Vec<PodCondition>,
    pub partitions: Option<String>,
}

pub struct PodInfoView {
    pub name: Option<Seq<char>>,
    pub address: Option<Seq<char>>,
    pub conditions: Seq<PodConditionView>,
    pub partitions: Option<Seq<char>>,
}

impl View for PodInfo {
    type V = PodInfoView;

    open spec fn view(&self) -> PodInfoView {
        PodInfoView {
            name: text::option_view(self.name),
            address: text::option_view(self.address),
            conditions: text::views(self.conditions@),
            partitions: text::option_view(self.partitions),
        }
    }
}

/// Whether a pod reports that it is ready.
pub open spec fn is_ready(pod: PodInfoView) -> bool {
    exists|i: int|
        0 <= i < pod.conditions.len() && (#[trigger] pod.conditions[i]).kind == "Ready"@
            && pod.conditions[i].status == "True"@
}

/// The replica that a pod is, where it has a name and an address.
pub open spec fn endpoint_of(pod: PodInfoView) -> Option<ReplicaEndpointView> {
    match (pod.name, pod.address) {
        (Some(replica), Some(address)) => Some(
            ReplicaEndpointView { replica, address, healthy: is_ready(pod) },
        ),
        _ => None,
    }
}

/// The numbers in a list of partitions; what is none is passed over.
pub open spec fn listed(parts: Seq<Seq<char>>) -> Seq<u32>
    decreases parts.len(),
{
    if parts.len() == 0 {
        seq![]
    } else {
        let rest = listed(parts.drop_last());
        match values::unsigned_of(values::trimmed(parts.last()), u32::MAX as int) {
            Some(n) => rest.push(n as u32),
            None => rest,
        }
    }
}

/// The partitions that a pod holds.
pub open spec fn partitions_of(pod: PodInfoView) -> Seq<u32> {
    match pod.partitions {
        Some(list) => listed(values::parts(list, ',')),
        None => seq![],
    }
}

pub fn pod_is_ready(pod: &PodInfo) -> (r: bool)
    ensures
        r == is_ready(pod@),
{
    let ghost all = pod@.conditions;
    let mut i: usize = 0;
    while i < pod.conditions.len()
        invariant
            i <= pod.conditions@.len(),
            all == text::views(pod.conditions@),
            forall|k: int|
                0 <= k < i ==> !((#[trigger] all[k]).kind == "Ready"@ && all[k].status
                    == "True"@),
        decreases pod.conditions.len() - i,
    {
        let c = &pod.conditions[i];
        assert(pod@.conditions[i as int] == c@);
        if text::str_eq(c.kind.as_str(), "Ready") && text::str_eq(c.status.as_str(), "True") {
            return true;
        }
        i = i + 1;
    }
    false
}

pub fn pod_to_replica_endpoint(pod: &PodInfo) -> (r: Option<ReplicaEndpoint>)
    ensures
        text::option_view(r) == endpoint_of(pod@),
{
    match (&pod.name, &pod.address) {
        (Some(name), Some(address)) => Some(
            ReplicaEndpoint {
                replica: ReplicaId(name.clone()),
                address: address.clone(),
                healthy: pod_is_ready(pod),
            },
        ),
        _ => None,
    }
}

pub open spec fn numbers(ids: Seq<PartitionId>) -> Seq<u32> {
    Seq::new(ids.len(), |i: int| ids[i].0)
}

pub fn pod_partitions(pod: &PodInfo) -> (r: Vec<PartitionId>)
    ensures
        numbers(r@) == partitions_of(pod@),
{
    let mut found: Vec<PartitionId> = Vec::new();
    assert(numbers(found@) =~= Seq::<u32>::empty());
    match &pod.partitions {
        None => found,
        Some(list) => {
            let parts = values::split(list.as_str(), ',');
            let ghost all = text::views(parts@);
            let mut i: usize = 0;
            assert(all.take(0) =~= Seq::<Seq<char>>::empty());
            while i < parts.len()
                invariant
                    i <= parts@.len(),
                    all == text::views(parts@),
                    numbers(found@) == listed(all.take(i as int)),
                decreases parts.len() - i,
            {
                assert(all.take(i + 1).drop_last() =~= all.take(i as int));
                assert(all.take(i + 1).last() == parts@[i as int]@);
                let word = values::trim(parts[i].as_str());
                if let Some(n) = values::parse_unsigned(word.as_str(), u32::MAX as u64) {
                    let id = PartitionId(n as u32);
                    assert(numbers(found@.push(id)) =~= numbers(found@).push(n as u32));
                    found.push(id);
                }
                i = i + 1;
            }
            assert(all.take(all.len() as int) =~= all);
            found
        },
    }
}

/// How often a number occurs.
pub open spec fn times(ids: Seq<u32>, p: u32) -> nat
    decreases ids.len(),
{
    if ids.len() == 0 {
        0
    } else {
        times(ids.drop_last(), p) + if ids.last() == p {
            1nat
        } else {
            0nat
        }
    }
}

/// A replica as often as it was listed.
pub open spec fn repeated(x: ReplicaEndpointView, n: nat) -> Seq<ReplicaEndpointView> {
    Seq::new(n, |i: int| x)
}

/// The replicas of a partition: the pods that list it, in their order.
pub open spec fn replicas_of(pods: Seq<PodInfoView>, p: u32) -> Seq<ReplicaEndpointView>
    decreases pods.len(),
{
    if pods.len() == 0 {
        seq![]
    } else {
        let rest = replicas_of(pods.drop_last(), p);
        match endpoint_of(pods.last()) {
            Some(x) => rest + repeated(x, times(partitions_of(pods.last()), p)),
            None => rest,
        }
    }
}

/// A list of partitions with one more, unless it is there.
pub open spec fn known_with(known: Seq<u64>, p: u32) -> Seq<u64> {
    if known.contains(p as u64) {
        known
    } else {
        known.push(p as u64)
    }
}

/// A list of partitions with some more, in their order, each once.
pub open spec fn known_after(known: Seq<u64>, ids: Seq<u32>) -> Seq<u64>
    decreases ids.len(),
{
    if ids.len() == 0 {
        known
    } else {
        known_with(known_after(known, ids.drop_last()), ids.last())
    }
}

/// The partitions that pods with an address list, in the order in which they
/// are first listed.
pub open spec fn known_from(pods: Seq<PodInfoView>) -> Seq<u64>
    decreases pods.len(),
{
    if pods.len() == 0 {
        seq![]
    } else {
        let rest = known_from(pods.drop_last());
        match endpoint_of(pods.last()) {
            Some(_) => known_after(rest, partitions_of(pods.last())),
            None => rest,
        }
    }
}

proof fn lemma_known_after(known: Seq<u64>, ids: Seq<u32>, p: u32)
    ensures
        known_after(known, ids).contains(p as u64) <==> known.contains(p as u64) || ids.contains(p),
    decreases ids.len(),
{
    if ids.len() > 0 {
        let shorter = ids.drop_last();
        lemma_known_after(known, shorter, p);
        let rest = known_after(known, shorter);
        laws::lemma_contains_push(rest, ids.last() as u64, p as u64);
        assert(ids =~= shorter.push(ids.last()));
        laws::lemma_contains_push(shorter, ids.last(), p);
    }
}

/// The known partitions are exactly those that some pod with an address lists.
pub proof fn law_known_partitions_are_listed(pods: Seq<PodInfoView>, p: u32)
    ensures
        known_from(pods).contains(p as u64) <==> exists|i: int|
            0 <= i < pods.len() && endpoint_of(#[trigger] pods[i]) is Some && partitions_of(
                pods[i],
            ).contains(p),
    decreases pods.len(),
{
    if pods.len() > 0 {
        let shorter = pods.drop_last();
        law_known_partitions_are_listed(shorter, p);
        lemma_known_after(known_from(shorter), partitions_of(pods.last()), p);
        assert(pods[pods.len() - 1] == pods.last());
        if exists|i: int|
            0 <= i < shorter.len() && endpoint_of(#[trigger] shorter[i]) is Some && partitions_of(
                shorter[i],
            ).contains(p) {
            let i = choose|i: int|
                0 <= i < shorter.len() && endpoint_of(#[trigger] shorter[i]) is Some
                    && partitions_of(shorter[i]).contains(p);
            assert(pods[i] == shorter[i]);
        }
        if exists|i: int|
            0 <= i < pods.len() && endpoint_of(#[trigger] pods[i]) is Some && partitions_of(
                pods[i],
            ).contains(p) {
            let i = choose|i: int|
                0 <= i < pods.len() && endpoint_of(#[trigger] pods[i]) is Some && partitions_of(
                    pods[i],
                ).contains(p);
            if i < shorter.len() {
                assert(shorter[i] == pods[i]);
            }
        }
    }
}

/// The members of a cluster, as its pods show them.
pub fn map_from_pods(pods: &Vec<PodInfo>) -> (r: PartitionMap)
    ensures
        r.wf(),
        r.known() == known_from(text::views(pods@)),
        forall|p: u32| #[trigger] r.replicas(p) == replicas_of(text::views(pods@), p),
{
    let ghost all = text::views(pods@);
    let mut map = PartitionMap::new();
    let mut i: usize = 0;
    assert(all.take(0) =~= Seq::<PodInfoView>::empty());
    assert forall|p: u32| #[trigger] map.replicas(p) == replicas_of(all.take(0), p) by {
        assert(map.replicas(p) =~= Seq::<ReplicaEndpointView>::empty());
    }
    while i < pods.len()
        invariant
            i <= pods@.len(),
            all == text::views(pods@),
            map.wf(),
            map.known() == known_from(all.take(i as int)),
            forall|p: u32| #[trigger] map.replicas(p) == replicas_of(all.take(i as int), p),
        decreases pods.len() - i,
    {
        assert(all.take(i + 1).drop_last() =~= all.take(i as int));
        assert(all.take(i + 1).last() == pods@[i as int]@);
        if let Some(endpoint) = pod_to_replica_endpoint(&pods[i]) {
            let ids = pod_partitions(&pods[i]);
            let ghost listed = numbers(ids@);
            let ghost before = map;
            let mut j: usize = 0;
            assert(listed.take(0) =~= Seq::<u32>::empty());
            assert forall|p: u32| #[trigger] map.replicas(p) == before.replicas(p) + repeated(
                endpoint@,
                times(listed.take(0), p),
            ) by {
                assert(map.replicas(p) =~= before.replicas(p) + repeated(
                    endpoint@,
                    times(listed.take(0), p),
                ));
            }
            while j < ids.len()
                invariant
                    j <= ids@.len(),
                    listed == numbers(ids@),
                    map.wf(),
                    map.known() == known_after(before.known(), listed.take(j as int)),
                    forall|p: u32| #[trigger]
                        map.replicas(p) == before.replicas(p) + repeated(
                            endpoint@,
                            times(listed.take(j as int), p),
                        ),
                decreases ids.len() - j,
            {
                assert(listed.take(j + 1).drop_last() =~= listed.take(j as int));
                assert(listed.take(j + 1).last() == ids@[j as int].0);
                let ghost earlier = map;
                map.add_replica(ids[j], endpoint.duplicate());
                assert forall|p: u32| #[trigger] map.replicas(p) == before.replicas(p) + repeated(
                    endpoint@,
                    times(listed.take(j + 1), p),
                ) by {
                    let n = times(listed.take(j as int), p);
                    assert(earlier.replicas(p) == before.replicas(p) + repeated(endpoint@, n));
                    assert((before.replicas(p) + repeated(endpoint@, n)).push(endpoint@)
                        =~= before.replicas(p) + repeated(endpoint@, n + 1));
                }
                j = j + 1;
            }
            assert(listed.take(listed.len() as int) =~= listed);
            assert forall|p: u32| #[trigger] map.replicas(p) == replicas_of(
                all.take(i + 1),
                p,
            ) by {
                assert(before.replicas(p) == replicas_of(all.take(i as int), p));
            }
        }
        i = i + 1;
    }
    assert(all.take(all.len() as int) =~= all);
    map
}

/// A source of the members of a cluster.
pub trait Discovery {
    fn current_map(&self) -> (r: Result<PartitionMap, DiscoveryError>)
        ensures
            r matches Ok(map) ==> map.wf(),
    ;
}

/// Members that never change.
#[derive(Debug)]
pub struct StaticDiscovery {
    map: PartitionMap,
}

/// The replica of a partition that has just one.
pub open spec fn sole_replica(partition: u32, address: Seq<char>) -> ReplicaEndpointView {
    ReplicaEndpointView {
        replica: "partition-"@ + text::decimal_text(partition as int),
        address,
        healthy: true,
    }
}

/// The replicas of a partition in a list of addresses: the one that the last
/// entry for it gives.
pub open spec fn sole_replicas(addrs: Seq<(u32, String)>, p: u32) -> Seq<ReplicaEndpointView>
    decreases addrs.len(),
{
    if addrs.len() == 0 {
        seq![]
    } else if addrs.last().0 == p {
        seq![sole_replica(p, addrs.last().1@)]
    } else {
        sole_replicas(addrs.drop_last(), p)
    }
}

/// The partitions of a list of addresses.
pub open spec fn partitions_in(addrs: Seq<(u32, String)>) -> Seq<u32> {
    Seq::new(addrs.len(), |i: int| addrs[i].0)
}

impl StaticDiscovery {
    pub closed spec fn members(&self) -> PartitionMap {
        self.map
    }

    #[verifier::type_invariant]
    closed spec fn inv(self) -> bool {
        self.map.wf()
    }

    pub fn new(map: PartitionMap) -> (r: Self)
        requires
            map.wf(),
        ensures
            r.members() == map,
    {
        StaticDiscovery { map }
    }

    /// One healthy replica for each partition.
    pub fn single_replica_per_partition(addrs: Vec<(u32, String)>) -> (r: Self)
        ensures
            r.members().wf(),
            r.members().known() == known_after(seq![], partitions_in(addrs@)),
            forall|p: u32| #[trigger]
                r.members().known().contains(p as u64) <==> partitions_in(addrs@).contains(p),
            forall|p: u32| #[trigger] r.members().replicas(p) == sole_replicas(addrs@, p),
    {
        let mut map = PartitionMap::new();
        let mut i: usize = 0;
        assert forall|p: u32| #[trigger] map.replicas(p) == sole_replicas(addrs@.take(0), p) by {
            assert(map.replicas(p) =~= Seq::<ReplicaEndpointView>::empty());
        }
        while i < addrs.len()
            invariant
                i <= addrs@.len(),
                map.wf(),
                map.known() == known_after(seq![], partitions_in(addrs@.take(i as int))),
                forall|p: u32| #[trigger]
                    map.replicas(p) == sole_replicas(addrs@.take(i as int), p),
            decreases addrs.len() - i,
        {
            assert(addrs@.take(i + 1).drop_last() =~= addrs@.take(i as int));
            assert(partitions_in(addrs@.take(i + 1)).drop_last() =~= partitions_in(
                addrs@.take(i as int),
            ));
            let partition: u32 = addrs[i].0;
            let mut name: String = "partition-".to_owned();
            name.append(text::decimal_string(partition as u64).as_str());
            let mut replicas: Vec<ReplicaEndpoint> = Vec::new();
            replicas.push(
                ReplicaEndpoint {
                    replica: ReplicaId(name),
                    address: addrs[i].1.clone(),
                    healthy: true,
                },
            );
            assert(text::views(replicas@) =~= seq![
                sole_replica(partition, addrs@[i as int].1@),
            ]);
            let ghost before = map;
            map.insert(PartitionId(partition), replicas);
            assert forall|p: u32| #[trigger] map.replicas(p) == sole_replicas(
                addrs@.take(i + 1),
                p,
            ) by {
                assert(before.replicas(p) == sole_replicas(addrs@.take(i as int), p));
            }
            i = i + 1;
        }
        assert(addrs@.take(addrs@.len() as int) =~= addrs@);
        assert forall|p: u32| #[trigger] map.known().contains(p as u64) <==> partitions_in(
            addrs@,
        ).contains(p) by {
            lemma_known_after(seq![], partitions_in(addrs@), p);
        }
        StaticDiscovery::new(map)
    }
}

impl Discovery for StaticDiscovery {
    fn current_map(&self) -> (r: Result<PartitionMap, DiscoveryError>)
        ensures
            r matches Ok(map) && map.known() == self.members().known() && forall|p: u32| #[trigger]
                map.replicas(p) == self.members().replicas(p),
    {
        proof {
            use_type_invariant(self);
        }
        Ok(self.map.copied())
    }
}

/// A replica of a partition is a pod with a name and an address that lists the
/// partition, and it is healthy where the pod says that it is ready.
pub proof fn law_replicas_are_the_pods_that_list_a_partition(
    pods: Seq<PodInfoView>,
    p: u32,
    x: ReplicaEndpointView,
)
    ensures
        replicas_of(pods, p).contains(x) <==> exists|i: int|
            0 <= i < pods.len() && partitions_of(#[trigger] pods[i]).contains(p) && pods[i].name
                == Some(x.replica) && pods[i].address == Some(x.address) && (x.healthy <==> is_ready(
                pods[i],
            )),
    decreases pods.len(),
{
    if pods.len() > 0 {
        let shorter = pods.drop_last();
        let last = pods.len() - 1;
        let pod = pods.last();
        let rest = replicas_of(shorter, p);
        law_replicas_are_the_pods_that_list_a_partition(shorter, p, x);
        assert(pods[last] == pod);
        lemma_times(partitions_of(pod), p);
        if let Some(y) = endpoint_of(pod) {
            let more = repeated(y, times(partitions_of(pod), p));
            laws::lemma_contains_add(rest, more, x);
            if partitions_of(pod).contains(p) {
                assert(more[0] == y);
            }
            assert(more.contains(x) <==> partitions_of(pod).contains(p) && x == y);
        }
        if exists|i: int|
            0 <= i < shorter.len() && partitions_of(#[trigger] shorter[i]).contains(p)
                && shorter[i].name == Some(x.replica) && shorter[i].address == Some(x.address) && (
            x.healthy <==> is_ready(shorter[i])) {
            let i = choose|i: int|
                0 <= i < shorter.len() && partitions_of(#[trigger] shorter[i]).contains(p)
                    && shorter[i].name == Some(x.replica) && shorter[i].address == Some(x.address)
                    && (x.healthy <==> is_ready(shorter[i]));
            assert(pods[i] == shorter[i]);
        }
        if exists|i: int|
            0 <= i < pods.len() && partitions_of(#[trigger] pods[i]).contains(p) && pods[i].name
                == Some(x.replica) && pods[i].address == Some(x.address) && (x.healthy <==> is_ready(
                pods[i],
            )) {
            let i = choose|i: int|
                0 <= i < pods.len() && partitions_of(#[trigger] pods[i]).contains(p)
                    && pods[i].name == Some(x.replica) && pods[i].address == Some(x.address) && (
                x.healthy <==> is_ready(pods[i]));
            if i < last {
                assert(shorter[i] == pods[i]);
            }
        }
    }
}

proof fn lemma_times(ids: Seq<u32>, p: u32)
    ensures
        times(ids, p) > 0 <==> ids.contains(p),
    decreases ids.len(),
{
    if ids.len() > 0 {
        lemma_times(ids.drop_last(), p);
        laws::lemma_contains_push(ids.drop_last(), ids.last(), p);
        assert(ids =~= ids.drop_last().push(ids.last()));
    }
}

/// A pod is ready exactly where one of its conditions is `Ready` and says
/// `True`.
pub proof fn law_a_pod_is_ready_where_it_says_so(pod: PodInfoView)
    ensures
        is_ready(pod) <==> exists|i: int|
            0 <= i < pod.conditions.len() && (#[trigger] pod.conditions[i]).kind == seq![
                'R',
                'e',
                'a',
                'd',
                'y',
            ] && pod.conditions[i].status == seq!['T', 'r', 'u', 'e'],
{
    reveal_strlit("Ready");
    reveal_strlit("True");
    assert("Ready"@ =~= seq!['R', 'e', 'a', 'd', 'y']);
    assert("True"@ =~= seq!['T', 'r', 'u', 'e']);
}

/// A pod holds a partition exactly where one of the texts between the commas of
/// its list writes the number, white space around it aside.
pub proof fn law_a_pod_holds_what_it_lists(texts: Seq<Seq<char>>, pod: PodInfoView, p: u32)
    requires
        texts.len() > 0,
        forall|k: int| 0 <= k < texts.len() ==> !(#[trigger] texts[k]).contains(','),
        pod.partitions == Some(values::joined(texts, ',')),
    ensures
        partitions_of(pod).contains(p) <==> exists|k: int|
            0 <= k < texts.len() && values::unsigned_of(
                values::trimmed(#[trigger] texts[k]),
                u32::MAX as int,
            ) == Some(p as int),
{
    values::law_joined_texts_are_split(texts, ',');
    lemma_listed(texts, p);
}

proof fn lemma_listed(texts: Seq<Seq<char>>, p: u32)
    ensures
        listed(texts).contains(p) <==> exists|k: int|
            0 <= k < texts.len() && values::unsigned_of(
                values::trimmed(#[trigger] texts[k]),
                u32::MAX as int,
            ) == Some(p as int),
    decreases texts.len(),
{
    if texts.len() > 0 {
        let shorter = texts.drop_last();
        let last = texts.len() - 1;
        lemma_listed(shorter, p);
        assert(texts[last] == texts.last());
        if let Some(n) = values::unsigned_of(values::trimmed(texts.last()), u32::MAX as int) {
            laws::lemma_contains_push(listed(shorter), n as u32, p);
            values::law_a_number_is_what_its_digits_write(
                values::trimmed(texts.last()),
                u32::MAX as int,
                n,
            );
            lemma_digits_are_positive(values::trimmed(texts.last()), n);
        }
        if exists|k: int|
            0 <= k < shorter.len() && values::unsigned_of(
                values::trimmed(#[trigger] shorter[k]),
                u32::MAX as int,
            ) == Some(p as int) {
            let k = choose|k: int|
                0 <= k < shorter.len() && values::unsigned_of(
                    values::trimmed(#[trigger] shorter[k]),
                    u32::MAX as int,
                ) == Some(p as int);
            assert(texts[k] == shorter[k]);
        }
        if exists|k: int|
            0 <= k < texts.len() && values::unsigned_of(
                values::trimmed(#[trigger] texts[k]),
                u32::MAX as int,
            ) == Some(p as int) {
            let k = choose|k: int|
                0 <= k < texts.len() && values::unsigned_of(
                    values::trimmed(#[trigger] texts[k]),
                    u32::MAX as int,
                ) == Some(p as int);
            if k < last {
                assert(shorter[k] == texts[k]);
            }
        }
    }
}

proof fn lemma_digits_are_positive(s: Seq<char>, n: int)
    requires
        values::unsigned_of(s, u32::MAX as int) == Some(n),
    ensures
        0 <= n <= u32::MAX,
{
    let digits = if s.len() > 0 && s[0] == '+' {
        s.drop_first()
    } else {
        s
    };
    text::lemma_decimal_nonnegative(digits);
}

/// A partition of a fixed list has one replica, which is well: the one at the
/// address that stands last for it. A partition that the list does not name
/// has none.
pub proof fn law_an_address_serves_its_partition(addrs: Seq<(u32, String)>, p: u32)
    ensures
        sole_replicas(addrs, p).len() == 0 <==> forall|i: int|
            0 <= i < addrs.len() ==> (#[trigger] addrs[i]).0 != p,
        sole_replicas(addrs, p).len() > 0 ==> sole_replicas(addrs, p).len() == 1 && sole_replicas(
            addrs,
            p,
        )[0].healthy && sole_replicas(addrs, p)[0].replica == "partition-"@ + text::decimal_text(
            p as int,
        ) && exists|i: int|
            0 <= i < addrs.len() && (#[trigger] addrs[i]).0 == p && addrs[i].1@ == sole_replicas(
                addrs,
                p,
            )[0].address && forall|k: int| i < k < addrs.len() ==> (#[trigger] addrs[k]).0 != p,
    decreases addrs.len(),
{
    if addrs.len() > 0 {
        let last = addrs.len() - 1;
        assert(addrs[last] == addrs.last());
        if addrs.last().0 != p {
            let shorter = addrs.drop_last();
            law_an_address_serves_its_partition(shorter, p);
            assert forall|i: int| 0 <= i < last implies #[trigger] addrs[i] == shorter[i] by {}
            if sole_replicas(addrs, p).len() > 0 {
                let i = choose|i: int|
                    0 <= i < shorter.len() && (#[trigger] shorter[i]).0 == p && shorter[i].1@
                        == sole_replicas(shorter, p)[0].address && forall|k: int|
                        i < k < shorter.len() ==> (#[trigger] shorter[k]).0 != p;
                assert(addrs[i].0 == p);
            }
        }
    }
}

/// Partitions are known once each, in the order in which they are first
/// named: what is known after the first names stays where it is when more
/// names follow, and nothing else is known.
pub proof fn law_partitions_are_known_in_order(ids: Seq<u32>, n: int, p: u32)
    requires
        0 <= n <= ids.len(),
    ensures
        known_after(seq![], ids).contains(p as u64) <==> ids.contains(p),
        known_after(seq![], ids).no_duplicates(),
        known_after(seq![], ids.take(n)).len() <= known_after(seq![], ids).len(),
        known_after(seq![], ids).take(known_after(seq![], ids.take(n)).len() as int)
            == known_after(seq![], ids.take(n)),
    decreases ids.len(),
{
    lemma_known_after(seq![], ids, p);
    if n == ids.len() {
        assert(ids.take(n) =~= ids);
    }
    let known = known_after(seq![], ids);
    assert(known.take(known.len() as int) =~= known);
    if ids.len() > 0 {
        let shorter = ids.drop_last();
        let before = known_after(seq![], shorter);
        let m: int = if n < ids.len() {
            n
        } else {
            shorter.len() as int
        };
        law_partitions_are_known_in_order(shorter, m, p);
        assert(shorter.take(m) =~= ids.take(m));
        let part = known_after(seq![], ids.take(m));
        if !before.contains(ids.last() as u64) {
            assert(known == before.push(ids.last() as u64));
            assert forall|i: int, j: int| 0 <= i < known.len() && 0 <= j < known.len() && i
                != j implies known[i] != known[j] by {
                if i == before.len() {
                    assert(before.contains(before[j]));
                } else if j == before.len() {
                    assert(before.contains(before[i]));
                }
            }
            assert(known.take(part.len() as int) =~= before.take(part.len() as int));
        }
    }
}

} // verus!
