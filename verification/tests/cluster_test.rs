//! Which replicas there are, and where partitions belong.
use graph_engine::cluster::discovery::{
    map_from_pods, pod_is_ready, pod_partitions, pod_to_replica_endpoint, Discovery,
    DiscoveryError, PodCondition, PodInfo, StaticDiscovery,
};
use graph_engine::cluster::rebalance::{
    target_machines, RebalancePlanner, RendezvousRebalancePlanner,
};
use graph_engine::cluster::{PartitionHasher, PartitionMap, ReplicaEndpoint, ReplicaId};
use graph_engine::index::PartitionId;
use graph_engine::schema::NodeId;
use std::collections::HashSet;

fn replica(name: &str, healthy: bool) -> ReplicaEndpoint {
    ReplicaEndpoint {
        replica: ReplicaId(name.to_string()),
        address: "127.0.0.1:7001".to_string(),
        healthy,
    }
}

#[test]
fn healthy_replicas_filters_out_unhealthy_ones() {
    let mut map = PartitionMap::default();
    map.insert(
        PartitionId(0),
        vec![
            replica("r0", true),
            replica("r1", false),
            replica("r2", true),
        ],
    );

    let healthy = map.healthy_replicas(PartitionId(0));
    let names: Vec<&str> = healthy.iter().map(|r| r.replica.0.as_str()).collect();
    assert_eq!(names.len(), 2);
    assert!(names.contains(&"r0"));
    assert!(names.contains(&"r2"));
    assert!(!names.contains(&"r1"));
}

#[test]
fn healthy_replicas_is_empty_when_none_are_healthy_or_partition_is_unknown() {
    let mut map = PartitionMap::default();
    map.insert(PartitionId(0), vec![replica("r0", false)]);

    assert!(map.healthy_replicas(PartitionId(0)).is_empty());
    assert!(map.healthy_replicas(PartitionId(1)).is_empty());
}

fn endpoint(name: &str) -> ReplicaEndpoint {
    replica(name, true)
}

#[test]
fn initial_placement_assigns_every_partition() {
    let planner = RendezvousRebalancePlanner {
        n_partitions: 12,
        replication_factor: 2,
    };
    let plan = planner.plan(
        &PartitionMap::default(),
        &vec!["m0".into(), "m1".into(), "m2".into()],
    );

    assert_eq!(plan.moves.len(), 12 * 2);
    assert!(plan.moves.iter().all(|m| m.from_machine.is_none()));

    // Every partition got exactly 2 distinct target machines.
    for i in 0..12u32 {
        let targets: HashSet<&str> = plan
            .moves
            .iter()
            .filter(|m| m.partition == PartitionId(i))
            .map(|m| m.to_machine.as_str())
            .collect();
        assert_eq!(
            targets.len(),
            2,
            "partition {i} should get 2 distinct replicas"
        );
    }
}

#[test]
fn adding_a_machine_moves_only_a_minority_of_partitions() {
    let n_partitions = 100;
    let planner = RendezvousRebalancePlanner {
        n_partitions,
        replication_factor: 1,
    };
    let before = planner.plan(
        &PartitionMap::default(),
        &vec!["m0".into(), "m1".into()],
    );

    let mut current = PartitionMap::default();
    for mv in &before.moves {
        current.add_replica(mv.partition, endpoint(&mv.to_machine));
    }

    let after = planner.plan(&current, &vec!["m0".into(), "m1".into(), "m2".into()]);

    assert!(
        after.moves.len() < (n_partitions as usize * 2) / 3,
        "too many partitions moved: {} of {n_partitions}",
        after.moves.len()
    );
    assert!(
        !after.moves.is_empty(),
        "adding a machine should move at least some partitions"
    );
    // Whatever moves, moves to the machine that came.
    assert!(after.moves.iter().all(|m| m.to_machine == "m2"));
    assert!(after.moves.iter().all(|m| m.from_machine.is_some()));
}

#[test]
fn replanning_with_unchanged_inputs_produces_no_moves() {
    let planner = RendezvousRebalancePlanner {
        n_partitions: 8,
        replication_factor: 1,
    };
    let machines = vec!["m0".into(), "m1".into()];
    let first = planner.plan(&PartitionMap::default(), &machines);

    let mut current = PartitionMap::default();
    for mv in &first.moves {
        current.add_replica(mv.partition, endpoint(&mv.to_machine));
    }

    let second = planner.plan(&current, &machines);
    assert!(second.moves.is_empty());
}

/// Without machines nothing can be placed.
#[test]
fn without_machines_nothing_moves() {
    let planner = RendezvousRebalancePlanner {
        n_partitions: 8,
        replication_factor: 2,
    };
    assert!(planner.plan(&PartitionMap::default(), &Vec::new()).moves.is_empty());
}

/// What a machine held that has gone goes to one of those that stay.
#[test]
fn a_removed_machine_only_moves_what_it_held() {
    let planner = RendezvousRebalancePlanner {
        n_partitions: 40,
        replication_factor: 1,
    };
    let first = planner.plan(
        &PartitionMap::default(),
        &vec!["a".into(), "b".into(), "c".into()],
    );
    let mut current = PartitionMap::default();
    let mut held = 0;
    for mv in &first.moves {
        if mv.to_machine == "b" {
            held += 1;
        }
        current.add_replica(mv.partition, endpoint(&mv.to_machine));
    }
    let second = planner.plan(&current, &vec!["a".into(), "c".into()]);
    assert_eq!(second.moves.len(), held);
    assert!(second
        .moves
        .iter()
        .all(|m| m.from_machine.as_deref() == Some("b")));
}

/// A partition ranks machines by XXH3 of its number and their names, not by
/// the order in which they are listed.
#[test]
fn machines_are_ranked_by_their_hash() {
    let machines: Vec<String> = vec!["m0".into(), "m1".into(), "m2".into(), "m3".into()];
    for p in 0..20u32 {
        let mut by_score: Vec<(u64, String)> = machines
            .iter()
            .map(|m| {
                let mut bytes = p.to_le_bytes().to_vec();
                bytes.extend_from_slice(m.as_bytes());
                (xxhash_rust::xxh3::xxh3_64(&bytes), m.clone())
            })
            .collect();
        by_score.sort_by(|a, b| b.0.cmp(&a.0));
        let expected: Vec<String> = by_score.into_iter().take(2).map(|(_, m)| m).collect();
        assert_eq!(target_machines(PartitionId(p), &machines, 2), expected);
        let mut reversed = machines.clone();
        reversed.reverse();
        assert_eq!(target_machines(PartitionId(p), &reversed, 2), expected);
    }
}

#[test]
fn static_discovery_returns_its_fixed_map() {
    let discovery = StaticDiscovery::single_replica_per_partition(vec![
        (0u32, "127.0.0.1:7001".to_string()),
        (1u32, "127.0.0.1:7002".to_string()),
    ]);

    let map = discovery.current_map().expect("static never fails");
    assert_eq!(map.healthy_replicas(PartitionId(0)).len(), 1);
    assert_eq!(map.healthy_replicas(PartitionId(1)).len(), 1);
    assert!(map.healthy_replicas(PartitionId(2)).is_empty());
    assert_eq!(
        map.pick_replica(PartitionId(1)).unwrap().address,
        "127.0.0.1:7002"
    );
}

fn pod(name: &str, address: Option<&str>, ready: &str, partitions: Option<&str>) -> PodInfo {
    PodInfo {
        name: Some(name.to_string()),
        address: address.map(|a| a.to_string()),
        conditions: vec![
            PodCondition {
                kind: "Initialized".to_string(),
                status: "True".to_string(),
            },
            PodCondition {
                kind: "Ready".to_string(),
                status: ready.to_string(),
            },
        ],
        partitions: partitions.map(|p| p.to_string()),
    }
}

#[test]
fn pods_become_replicas_of_the_partitions_they_list() {
    let pods = vec![
        pod("node-0", Some("10.0.0.1:7001"), "True", Some("0, 1,x")),
        pod("node-1", Some("10.0.0.2:7001"), "False", Some("1")),
        pod("node-2", None, "True", Some("1")),
        pod("node-3", Some("10.0.0.4:7001"), "True", None),
    ];
    assert!(pod_is_ready(&pods[0]));
    assert!(!pod_is_ready(&pods[1]));
    assert_eq!(
        pod_partitions(&pods[0]),
        vec![PartitionId(0), PartitionId(1)]
    );
    assert!(pod_partitions(&pods[3]).is_empty());
    let first = pod_to_replica_endpoint(&pods[0]).expect("a pod with an address");
    assert_eq!(first.replica, ReplicaId("node-0".to_string()));
    assert_eq!(first.address, "10.0.0.1:7001");
    assert!(first.healthy);
    assert!(pod_to_replica_endpoint(&pods[2]).is_none());

    let map = map_from_pods(&pods);
    assert_eq!(map.healthy_replicas(PartitionId(0)).len(), 1);
    assert_eq!(map.healthy_replicas(PartitionId(1)).len(), 1);
    assert_eq!(
        map.pick_replica(PartitionId(1)).unwrap().replica.0,
        "node-0"
    );
    assert!(map.pick_replica(PartitionId(2)).is_none());
}

fn known(map: &PartitionMap) -> Vec<u64> {
    let partitions = &map.replicas_by_partition;
    (0..partitions.len()).map(|i| partitions.key(i)).collect()
}

/// A partition is known once, from the first pod with an address that lists it.
#[test]
fn the_partitions_that_pods_list_are_known() {
    let pods = vec![
        pod("node-0", None, "True", Some("9")),
        pod("node-1", Some("10.0.0.2:7001"), "False", Some("3,1")),
        pod("node-2", Some("10.0.0.3:7001"), "True", Some("1,2,x")),
        pod("node-3", Some("10.0.0.4:7001"), "True", None),
    ];
    assert_eq!(known(&map_from_pods(&pods)), vec![3, 1, 2]);
    assert!(known(&map_from_pods(&Vec::new())).is_empty());
}

#[test]
fn the_partitions_of_a_fixed_map_are_known() {
    let discovery = StaticDiscovery::single_replica_per_partition(vec![
        (4, "a:1".to_string()),
        (2, "b:1".to_string()),
        (4, "c:1".to_string()),
    ]);
    let map = discovery.current_map().expect("a fixed map");
    assert_eq!(known(&map), vec![4, 2]);
    let picked = map.pick_replica(PartitionId(4)).expect("a replica");
    assert_eq!(picked.address, "c:1");
}

#[test]
fn discovery_errors_are_worded() {
    assert_eq!(
        DiscoveryError::KubernetesApi("no route".to_string()).message(),
        "Kubernetes API error: no route"
    );
}

#[test]
fn the_hasher_agrees_with_the_partitioning() {
    let hasher = PartitionHasher { n_partitions: 16 };
    for id in 0..100u64 {
        assert_eq!(
            hasher.partition_of(NodeId(id)).0,
            graph_engine::schema::partitioning::partition_of(NodeId(id), 16)
        );
    }
}
