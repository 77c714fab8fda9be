use cluster_controller::replica::{
    managed_service_name, replica_args, replica_location, ClusterReplicaSizeConfig,
    ClusterReplicaSizeMap, ConcreteComputeInstanceReplicaConfig, ReplicaLocation,
    ServiceAssignments, ServiceConfig, ServicePort,
};

fn unlimited(scale: usize, workers: usize) -> ClusterReplicaSizeConfig {
    ClusterReplicaSizeConfig { memory_limit: None, cpu_limit: None, scale, workers }
}

fn ports(controller: u16, compute: u16, http: u16) -> Vec<(String, u16)> {
    vec![
        ("controller".to_string(), controller),
        ("compute".to_string(), compute),
        ("internal-http".to_string(), http),
    ]
}

#[test]
fn default_size_profiles() {
    let map = ClusterReplicaSizeMap::default();
    let expected: Vec<(String, ClusterReplicaSizeConfig)> = [
        ("1", 1, 1),
        ("2", 1, 2),
        ("4", 1, 4),
        ("8", 1, 8),
        ("16", 1, 16),
        ("32", 1, 32),
        ("2-1", 2, 1),
        ("2-2", 2, 2),
        ("2-4", 2, 4),
    ]
    .iter()
    .map(|(name, scale, workers)| (name.to_string(), unlimited(*scale, *workers)))
    .collect();
    assert_eq!(map.0, expected);
}

#[test]
fn size_profile_lookup() {
    let map = ClusterReplicaSizeMap::default();
    assert_eq!(map.get("16"), Some(unlimited(1, 16)));
    assert_eq!(map.get("2-4"), Some(unlimited(2, 4)));
    assert_eq!(map.get("3"), None);
    assert_eq!(map.get("64"), None);
    assert_eq!(map.get(""), None);
    let custom = ClusterReplicaSizeMap(vec![
        ("big".to_string(), ClusterReplicaSizeConfig {
            memory_limit: Some(1 << 30),
            cpu_limit: Some(2000),
            scale: 4,
            workers: 8,
        }),
        ("big".to_string(), unlimited(1, 1)),
    ]);
    assert_eq!(custom.get("big").unwrap().scale, 4);
}

#[test]
fn default_profiles_have_names_of_their_own_and_sizes_that_a_replica_can_have() {
    let map = ClusterReplicaSizeMap::default();
    for (i, (name, size)) in map.0.iter().enumerate() {
        assert!(size.scale >= 1 && size.workers >= 1);
        assert_eq!(map.get(name), Some(*size));
        for (other, _) in map.0.iter().skip(i + 1) {
            assert_ne!(name, other);
        }
    }
}

#[test]
fn only_managed_replicas_have_a_service_to_drop() {
    let remote = ConcreteComputeInstanceReplicaConfig::Remote { replicas: vec!["host:1".to_string()] };
    let managed = ConcreteComputeInstanceReplicaConfig::Managed {
        size_config: unlimited(1, 1),
        size_name: "1".to_string(),
        availability_zone: None,
    };
    assert_eq!(managed_service_name(7, 3, &remote), None);
    assert_eq!(managed_service_name(7, 3, &managed), Some("cluster-7-replica-3".to_string()));
}

#[test]
fn remote_replica_is_found_at_its_addresses() {
    let addresses = vec!["a:2100".to_string(), "b:2100".to_string()];
    assert_eq!(
        replica_location(
            "image",
            1,
            2,
            ConcreteComputeInstanceReplicaConfig::Remote { replicas: addresses.clone() }
        ),
        ReplicaLocation::Remote { addresses }
    );
}

#[test]
fn managed_replica_runs_as_a_service() {
    let config = ConcreteComputeInstanceReplicaConfig::Managed {
        size_config: ClusterReplicaSizeConfig {
            memory_limit: Some(4096),
            cpu_limit: Some(500),
            scale: 2,
            workers: 4,
        },
        size_name: "2-4".to_string(),
        availability_zone: Some("zone-a".to_string()),
    };
    assert_eq!(
        replica_location("computed:v1", 12, 3, config),
        ReplicaLocation::Managed {
            service_name: "cluster-12-replica-3".to_string(),
            config: ServiceConfig {
                image: "computed:v1".to_string(),
                ports: vec![
                    ServicePort { name: "controller".to_string(), port_hint: 2100 },
                    ServicePort { name: "compute".to_string(), port_hint: 2102 },
                    ServicePort { name: "internal-http".to_string(), port_hint: 6875 },
                ],
                cpu_limit: Some(500),
                memory_limit: Some(4096),
                scale: 2,
                workers: 4,
                labels: vec![
                    ("cluster-id".to_string(), "12".to_string()),
                    ("type".to_string(), "cluster".to_string()),
                ],
                availability_zone: Some("zone-a".to_string()),
            },
        }
    );
}

#[test]
fn arguments_of_a_replica_process() {
    let assigned = ServiceAssignments {
        listen_host: "0.0.0.0".to_string(),
        ports: ports(2100, 2102, 6875),
        peers: vec![
            ("host-0".to_string(), ports(2100, 2102, 6875)),
            ("host-1".to_string(), ports(3100, 3102, 7875)),
        ],
        index: Some(1),
    };
    assert_eq!(
        replica_args(&assigned, 4, 12, 3),
        Some(vec![
            "--listen-addr=0.0.0.0:2100".to_string(),
            "--internal-http-listen-addr=0.0.0.0:6875".to_string(),
            "--workers=4".to_string(),
            "--opentelemetry-resource=instance_id=12".to_string(),
            "--opentelemetry-resource=replica_id=3".to_string(),
            "host-0:2102".to_string(),
            "host-1:3102".to_string(),
            "--process=1".to_string(),
            "--opentelemetry-resource=replica_index=1".to_string(),
        ])
    );
}

#[test]
fn arguments_without_index_or_peers() {
    let assigned = ServiceAssignments {
        listen_host: "localhost".to_string(),
        ports: vec![
            ("internal-http".to_string(), 1),
            ("controller".to_string(), 65535),
            ("controller".to_string(), 7),
        ],
        peers: vec![],
        index: None,
    };
    assert_eq!(
        replica_args(&assigned, 1, 0, 0),
        Some(vec![
            "--listen-addr=localhost:65535".to_string(),
            "--internal-http-listen-addr=localhost:1".to_string(),
            "--workers=1".to_string(),
            "--opentelemetry-resource=instance_id=0".to_string(),
            "--opentelemetry-resource=replica_id=0".to_string(),
        ])
    );
}

#[test]
fn no_arguments_without_the_ports_they_name() {
    let full = ServiceAssignments {
        listen_host: "h".to_string(),
        ports: ports(1, 2, 3),
        peers: vec![("p".to_string(), ports(1, 2, 3))],
        index: None,
    };
    assert!(replica_args(&full, 1, 1, 1).is_some());
    let mut no_controller = full.clone();
    no_controller.ports.remove(0);
    assert_eq!(replica_args(&no_controller, 1, 1, 1), None);
    let mut no_http = full.clone();
    no_http.ports.remove(2);
    assert_eq!(replica_args(&no_http, 1, 1, 1), None);
    let mut no_peer_compute = full.clone();
    no_peer_compute.peers[0].1.remove(1);
    assert_eq!(replica_args(&no_peer_compute, 1, 1, 1), None);
    let mut no_own_compute = full;
    no_own_compute.ports.remove(1);
    assert!(replica_args(&no_own_compute, 1, 1, 1).is_some());
}
