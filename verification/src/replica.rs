//! How the replicas of a compute instance are configured and placed.
//!
//! A replica either runs somewhere of its owner's choosing and is reached
//! at given addresses, or it is managed: the orchestrator runs it as a
//! service whose size comes from a named size profile.

use vstd::prelude::*;
use vstd::string::*;
use crate::ids::{ComputeInstanceId, ReplicaId};
use crate::service_name::{
    decimal, generate_replica_service_name, push_decimal, replica_service_name,
};

verus! {

/// The size of a managed replica.
#[derive(Clone, Copy, Debug, PartialEq, Eq)]
pub struct ClusterReplicaSizeConfig {
    /// The memory that each process may use, in bytes.
    pub memory_limit: Option<u64>,
    /// The processor time that each process may use, in thousandths of a
    /// processor.
    pub cpu_limit: Option<u64>,
    /// The number of processes; at least one.
    pub scale: usize,
    /// The number of workers in each process; at least one.
    pub workers: usize,
}

impl ClusterReplicaSizeConfig {
    /// Whether the size is one that a replica can have.
    pub open spec fn valid(self) -> bool {
        self.scale >= 1 && self.workers >= 1
    }

    /// The size without limits that has `scale` processes of `workers`
    /// workers each.
    pub open spec fn unlimited(scale: usize, workers: usize) -> ClusterReplicaSizeConfig {
        ClusterReplicaSizeConfig { memory_limit: None, cpu_limit: None, scale, workers }
    }
}

/// The named size profiles that a managed replica can be given.
#[derive(Clone, Debug, PartialEq, Eq)]
pub struct ClusterReplicaSizeMap(pub Vec<(String, ClusterReplicaSizeConfig)>);

/// The names and sizes of a sequence of profiles.
pub open spec fn profile_views(profiles: Seq<(String, ClusterReplicaSizeConfig)>) -> Seq<
    (Seq<char>, ClusterReplicaSizeConfig),
> {
    profiles.map_values(|p: (String, ClusterReplicaSizeConfig)| (p.0@, p.1))
}

/// The default profiles: one process with 1, 2, 4, 8, 16 or 32 workers,
/// named by the number of workers; and two processes with 1, 2 or 4 workers
/// each, named `2-1`, `2-2` and `2-4`.
pub open spec fn default_profiles() -> Seq<(Seq<char>, ClusterReplicaSizeConfig)> {
    seq![
        ("1"@, ClusterReplicaSizeConfig::unlimited(1, 1)),
        ("2"@, ClusterReplicaSizeConfig::unlimited(1, 2)),
        ("4"@, ClusterReplicaSizeConfig::unlimited(1, 4)),
        ("8"@, ClusterReplicaSizeConfig::unlimited(1, 8)),
        ("16"@, ClusterReplicaSizeConfig::unlimited(1, 16)),
        ("32"@, ClusterReplicaSizeConfig::unlimited(1, 32)),
        ("2-1"@, ClusterReplicaSizeConfig::unlimited(2, 1)),
        ("2-2"@, ClusterReplicaSizeConfig::unlimited(2, 2)),
        ("2-4"@, ClusterReplicaSizeConfig::unlimited(2, 4)),
    ]
}

/// The size of the first profile named `name`, if there is one.
pub open spec fn profile_named(
    profiles: Seq<(Seq<char>, ClusterReplicaSizeConfig)>,
    name: Seq<char>,
) -> Option<ClusterReplicaSizeConfig>
    decreases profiles.len(),
{
    if profiles.len() == 0 {
        None
    } else if profiles[0].0 == name {
        Some(profiles[0].1)
    } else {
        profile_named(profiles.drop_first(), name)
    }
}

/// Whether no two of `profiles` have the same name.
pub open spec fn names_differ(profiles: Seq<(Seq<char>, ClusterReplicaSizeConfig)>) -> bool {
    forall|i: int, j: int|
        0 <= i < j < profiles.len() ==> (#[trigger] profiles[i]).0 != (#[trigger] profiles[j]).0
}

/// Whether each of `profiles` has a size that a replica can have.
pub open spec fn sizes_valid(profiles: Seq<(Seq<char>, ClusterReplicaSizeConfig)>) -> bool {
    forall|i: int| 0 <= i < profiles.len() ==> (#[trigger] profiles[i]).1.valid()
}

/// The profile named `name` is the first of `profiles` that has this name,
/// and there is none if no profile has it.
pub proof fn lemma_profile_named(
    profiles: Seq<(Seq<char>, ClusterReplicaSizeConfig)>,
    name: Seq<char>,
)
    ensures
        match profile_named(profiles, name) {
            Some(size) => exists|i: int|
                0 <= i < profiles.len() && #[trigger] profiles[i] == (name, size) && forall|j: int|
                    0 <= j < i ==> (#[trigger] profiles[j]).0 != name,
            None => forall|i: int| 0 <= i < profiles.len() ==> (#[trigger] profiles[i]).0 != name,
        },
    decreases profiles.len(),
{
    if profiles.len() > 0 && profiles[0].0 != name {
        let rest = profiles.drop_first();
        lemma_profile_named(rest, name);
        match profile_named(rest, name) {
            Some(size) => {
                let i = choose|i: int|
                    0 <= i < rest.len() && #[trigger] rest[i] == (name, size) && forall|j: int|
                        0 <= j < i ==> (#[trigger] rest[j]).0 != name;
                assert(profiles[i + 1] == (name, size));
                assert forall|j: int| 0 <= j < i + 1 implies (#[trigger] profiles[j]).0 != name by {
                    if j > 0 {
                        assert(rest[j - 1] == profiles[j]);
                    }
                }
            },
            None => {
                assert forall|i: int| 0 <= i < profiles.len() implies (#[trigger] profiles[i]).0
                    != name by {
                    if i > 0 {
                        assert(rest[i - 1] == profiles[i]);
                    }
                }
            },
        }
    } else if profiles.len() > 0 {
        assert(profiles[0] == (name, profiles[0].1));
    }
}

/// Among profiles whose names differ, each is the one that its name finds.
pub proof fn lemma_each_profile_is_found(
    profiles: Seq<(Seq<char>, ClusterReplicaSizeConfig)>,
    i: int,
)
    requires
        names_differ(profiles),
        0 <= i < profiles.len(),
    ensures
        profile_named(profiles, profiles[i].0) == Some(profiles[i].1),
{
    lemma_profile_named(profiles, profiles[i].0);
}

impl ClusterReplicaSizeMap {
    /// The names and sizes of the profiles, in order.
    pub open spec fn profiles(&self) -> Seq<(Seq<char>, ClusterReplicaSizeConfig)> {
        profile_views(self.0@)
    }

    /// The invariant of the profiles: no name occurs twice, and each size
    /// is one that a replica can have.
    pub open spec fn wf(&self) -> bool {
        names_differ(self.profiles()) && sizes_valid(self.profiles())
    }

    /// Adds the profile without limits that is named `name`.
    fn push_unlimited(&mut self, name: &str, scale: usize, workers: usize)
        ensures
            final(self).profiles() == old(self).profiles().push(
                (name@, ClusterReplicaSizeConfig::unlimited(scale, workers)),
            ),
    {
        self.0.push(
            (
                String::from_str(name),
                ClusterReplicaSizeConfig { memory_limit: None, cpu_limit: None, scale, workers },
            ),
        );
        assert(self.profiles() =~= old(self).profiles().push(
            (name@, ClusterReplicaSizeConfig::unlimited(scale, workers)),
        ));
    }

    /// The size of the profile named `name`, if there is one. Among valid
    /// profiles it is a size that a replica can have.
    pub fn get(&self, name: &str) -> (size: Option<ClusterReplicaSizeConfig>)
        ensures
            size == profile_named(self.profiles(), name@),
            sizes_valid(self.profiles()) ==> (size matches Some(found) ==> found.valid()),
    {
        let wanted = String::from_str(name);
        let mut k: usize = 0;
        let ghost all = self.profiles();
        assert(all.subrange(0, all.len() as int) =~= all);
        while k < self.0.len()
            invariant
                k <= self.0.len(),
                all == self.profiles(),
                wanted@ == name@,
                profile_named(all, name@) == profile_named(
                    all.subrange(k as int, all.len() as int),
                    name@,
                ),
            decreases self.0.len() - k,
        {
            let ghost rest = all.subrange(k as int, all.len() as int);
            assert(rest[0] == all[k as int]);
            assert(rest.drop_first() =~= all.subrange(k + 1, all.len() as int));
            if self.0[k].0 == wanted {
                assert(all[k as int].1 == self.0@[k as int].1);
                return Some(self.0[k].1);
            }
            k = k + 1;
        }
        None
    }
}

impl Default for ClusterReplicaSizeMap {
    /// The default profiles.
    fn default() -> (map: ClusterReplicaSizeMap)
        ensures
            map.profiles() == default_profiles(),
            map.wf(),
    {
        let mut map = ClusterReplicaSizeMap(Vec::new());
        assert(map.profiles() =~= Seq::<(Seq<char>, ClusterReplicaSizeConfig)>::empty());
        map.push_unlimited("1", 1, 1);
        map.push_unlimited("2", 1, 2);
        map.push_unlimited("4", 1, 4);
        map.push_unlimited("8", 1, 8);
        map.push_unlimited("16", 1, 16);
        map.push_unlimited("32", 1, 32);
        map.push_unlimited("2-1", 2, 1);
        map.push_unlimited("2-2", 2, 2);
        map.push_unlimited("2-4", 2, 4);
        assert(map.profiles() =~= default_profiles());
        proof {
            reveal_strlit("1");
            reveal_strlit("2");
            reveal_strlit("4");
            reveal_strlit("8");
            reveal_strlit("16");
            reveal_strlit("32");
            reveal_strlit("2-1");
            reveal_strlit("2-2");
            reveal_strlit("2-4");
            let names = default_profiles();
            assert(names[0].0[0] == '1' && names[1].0[0] == '2' && names[2].0[0] == '4');
            assert(names[3].0[0] == '8' && names[4].0[0] == '1' && names[5].0[0] == '3');
            assert(names[6].0[2] == '1' && names[7].0[2] == '2' && names[8].0[2] == '4');
            assert(names[0].0.len() == 1 && names[1].0.len() == 1 && names[2].0.len() == 1);
            assert(names[3].0.len() == 1 && names[4].0.len() == 2 && names[5].0.len() == 2);
            assert(names[6].0.len() == 3 && names[7].0.len() == 3 && names[8].0.len() == 3);
        }
        map
    }
}

/// How a replica is configured.
#[derive(Clone, Debug, PartialEq, Eq)]
pub enum ConcreteComputeInstanceReplicaConfig {
    /// The replica runs outside the orchestrator's care.
    Remote {
        /// The addresses of the replica's processes.
        replicas: Vec<String>,
    },
    /// The orchestrator runs the replica.
    Managed {
        /// The size of the replica.
        size_config: ClusterReplicaSizeConfig,
        /// The name of the size, for people to read.
        size_name: String,
        /// Where the replica should run, if that matters.
        availability_zone: Option<String>,
    },
}

impl ConcreteComputeInstanceReplicaConfig {
    /// Whether the configuration is one that a replica can have: a managed
    /// replica has at least one process and at least one worker in each.
    pub open spec fn valid(&self) -> bool {
        self matches ConcreteComputeInstanceReplicaConfig::Managed { size_config, .. }
            ==> size_config.valid()
    }
}

/// A port that a service listens on.
#[derive(Clone, Debug, PartialEq, Eq)]
pub struct ServicePort {
    /// The name by which the port is known.
    pub name: String,
    /// The port number to use if the orchestrator has no say.
    pub port_hint: u16,
}

/// What the orchestrator needs to know to run a service.
#[derive(Clone, Debug, PartialEq, Eq)]
pub struct ServiceConfig {
    /// The image that each process runs.
    pub image: String,
    /// The ports that each process listens on.
    pub ports: Vec<ServicePort>,
    /// The processor time that each process may use.
    pub cpu_limit: Option<u64>,
    /// The memory that each process may use.
    pub memory_limit: Option<u64>,
    /// The number of processes.
    pub scale: usize,
    /// The number of workers that each process runs.
    pub workers: usize,
    /// The labels of the service.
    pub labels: Vec<(String, String)>,
    /// Where the service should run, if that matters.
    pub availability_zone: Option<String>,
}

/// Where the processes of a replica are to be found.
#[derive(Clone, Debug, PartialEq, Eq)]
pub enum ReplicaLocation {
    /// At these addresses.
    Remote { addresses: Vec<String> },
    /// Wherever the orchestrator runs the service of this name and
    /// configuration, at the port named `controller`.
    Managed { service_name: String, config: ServiceConfig },
}

impl ReplicaLocation {
    /// Whether the orchestrator can run what the location asks for: a
    /// service has at least one process and at least one worker in each.
    pub open spec fn valid(&self) -> bool {
        self matches ReplicaLocation::Managed { config, .. } ==> config.scale >= 1
            && config.workers >= 1
    }
}

/// The names and hints of a sequence of ports.
pub open spec fn port_views(ports: Seq<ServicePort>) -> Seq<(Seq<char>, u16)> {
    ports.map_values(|p: ServicePort| (p.name@, p.port_hint))
}

/// The texts of a sequence of pairs of strings.
pub open spec fn label_views(labels: Seq<(String, String)>) -> Seq<(Seq<char>, Seq<char>)> {
    labels.map_values(|l: (String, String)| (l.0@, l.1@))
}

/// The texts of a sequence of strings.
pub open spec fn text_views(texts: Seq<String>) -> Seq<Seq<char>> {
    texts.map_values(|t: String| t@)
}

/// The ports of the service of a replica: one for commands, one for the
/// traffic between the processes, one for internal HTTP.
pub open spec fn replica_ports() -> Seq<(Seq<char>, u16)> {
    seq![("controller"@, 2100u16), ("compute"@, 2102u16), ("internal-http"@, 6875u16)]
}

/// The labels of the service of a replica of the instance `instance_id`.
pub open spec fn replica_labels(instance_id: ComputeInstanceId) -> Seq<(Seq<char>, Seq<char>)> {
    seq![("cluster-id"@, decimal(instance_id as nat)), ("type"@, "cluster"@)]
}

/// The name of the service that the orchestrator is to drop when the
/// replica `replica_id` of the instance `instance_id` is dropped: that of
/// the replica's service if the replica is managed, none otherwise.
pub fn managed_service_name(
    instance_id: ComputeInstanceId,
    replica_id: ReplicaId,
    config: &ConcreteComputeInstanceReplicaConfig,
) -> (name: Option<String>)
    ensures
        match name {
            Some(name) => config is Managed && name@ == replica_service_name(
                instance_id,
                replica_id,
            ),
            None => config is Remote,
        },
{
    match config {
        ConcreteComputeInstanceReplicaConfig::Remote { .. } => None,
        ConcreteComputeInstanceReplicaConfig::Managed { .. } => Some(
            generate_replica_service_name(instance_id, replica_id),
        ),
    }
}

/// Where the processes of the replica `replica_id` of the instance
/// `instance_id` are to be found.
///
/// A remote replica is found at its configured addresses. A managed one
/// runs as the service that is named after the instance and the replica,
/// from the image `image`, with the limits, the scale and the workers of
/// its size, the three ports of a replica and the labels of its instance.
/// A configuration that a replica can have gives a service that the
/// orchestrator can run.
pub fn replica_location(
    image: &str,
    instance_id: ComputeInstanceId,
    replica_id: ReplicaId,
    config: ConcreteComputeInstanceReplicaConfig,
) -> (location: ReplicaLocation)
    ensures
        config.valid() ==> location.valid(),
        match config {
            ConcreteComputeInstanceReplicaConfig::Remote { replicas } => location
                == (ReplicaLocation::Remote { addresses: replicas }),
            ConcreteComputeInstanceReplicaConfig::Managed {
                size_config,
                size_name,
                availability_zone,
            } => {
                &&& location matches ReplicaLocation::Managed { service_name, config: service }
                &&& service_name@ == replica_service_name(instance_id, replica_id)
                &&& service.image@ == image@
                &&& port_views(service.ports@) == replica_ports()
                &&& service.cpu_limit == size_config.cpu_limit
                &&& service.memory_limit == size_config.memory_limit
                &&& service.scale == size_config.scale
                &&& service.workers == size_config.workers
                &&& label_views(service.labels@) == replica_labels(instance_id)
                &&& service.availability_zone == availability_zone
            },
        },
{
    match config {
        ConcreteComputeInstanceReplicaConfig::Remote { replicas } => ReplicaLocation::Remote {
            addresses: replicas,
        },
        ConcreteComputeInstanceReplicaConfig::Managed {
            size_config,
            size_name: _,
            availability_zone,
        } => {
            let service_name = generate_replica_service_name(instance_id, replica_id);
            let mut ports: Vec<ServicePort> = Vec::new();
            ports.push(ServicePort { name: String::from_str("controller"), port_hint: 2100 });
            ports.push(ServicePort { name: String::from_str("compute"), port_hint: 2102 });
            ports.push(ServicePort { name: String::from_str("internal-http"), port_hint: 6875 });
            assert(port_views(ports@) =~= replica_ports());
            let mut cluster_id = String::new();
            push_decimal(&mut cluster_id, instance_id);
            assert(cluster_id@ =~= decimal(instance_id as nat));
            let mut labels: Vec<(String, String)> = Vec::new();
            labels.push((String::from_str("cluster-id"), cluster_id));
            labels.push((String::from_str("type"), String::from_str("cluster")));
            assert(label_views(labels@) =~= replica_labels(instance_id));
            ReplicaLocation::Managed {
                service_name,
                config: ServiceConfig {
                    image: String::from_str(image),
                    ports,
                    cpu_limit: size_config.cpu_limit,
                    memory_limit: size_config.memory_limit,
                    scale: size_config.scale,
                    workers: size_config.workers,
                    labels,
                    availability_zone,
                },
            }
        },
    }
}

/// What the orchestrator has assigned to one process of a service.
#[derive(Clone, Debug, PartialEq, Eq)]
pub struct ServiceAssignments {
    /// The host that the process should listen on.
    pub listen_host: String,
    /// The number of each port of the process, by the port's name.
    pub ports: Vec<(String, u16)>,
    /// The host and the ports of each process of the service.
    pub peers: Vec<(String, Vec<(String, u16)>)>,
    /// The place of the process among the processes of the service, if the
    /// orchestrator tells.
    pub index: Option<usize>,
}

/// The number of the first port named `name`, if there is one.
pub open spec fn port_named(ports: Seq<(String, u16)>, name: Seq<char>) -> Option<u16>
    decreases ports.len(),
{
    if ports.len() == 0 {
        None
    } else if ports[0].0@ == name {
        Some(ports[0].1)
    } else {
        port_named(ports.drop_first(), name)
    }
}

/// The text `<host>:<port>`.
pub open spec fn address(host: Seq<char>, port: u16) -> Seq<char> {
    host + ":"@ + decimal(port as nat)
}

/// The address of each peer at its port named `compute`, if every peer has
/// such a port.
pub open spec fn peer_addresses(peers: Seq<(String, Vec<(String, u16)>)>) -> Option<Seq<Seq<char>>>
    decreases peers.len(),
{
    if peers.len() == 0 {
        Some(Seq::empty())
    } else {
        match (peer_addresses(peers.drop_last()), port_named(peers.last().1@, "compute"@)) {
            (Some(addresses), Some(port)) => Some(addresses.push(address(peers.last().0@, port))),
            _ => None,
        }
    }
}

/// The arguments of one process of the replica `replica_id` of the
/// instance `instance_id`, if the orchestrator has assigned every port that
/// they name: where to listen for commands and for internal HTTP, how many
/// workers to run, the two identifiers for tracing, the address of each
/// process of the replica, and, if the orchestrator tells the place of the
/// process, that place as such and for tracing.
pub open spec fn replica_args_text(
    assigned: ServiceAssignments,
    workers: usize,
    instance_id: ComputeInstanceId,
    replica_id: ReplicaId,
) -> Option<Seq<Seq<char>>> {
    match (
        port_named(assigned.ports@, "controller"@),
        port_named(assigned.ports@, "internal-http"@),
        peer_addresses(assigned.peers@),
    ) {
        (Some(controller), Some(http), Some(peers)) => Some(
            seq![
                "--listen-addr="@ + address(assigned.listen_host@, controller),
                "--internal-http-listen-addr="@ + address(assigned.listen_host@, http),
                "--workers="@ + decimal(workers as nat),
                "--opentelemetry-resource=instance_id="@ + decimal(instance_id as nat),
                "--opentelemetry-resource=replica_id="@ + decimal(replica_id as nat),
            ] + peers + match assigned.index {
                Some(index) => seq![
                    "--process="@ + decimal(index as nat),
                    "--opentelemetry-resource=replica_index="@ + decimal(index as nat),
                ],
                None => Seq::empty(),
            },
        ),
        _ => None,
    }
}

/// The number of the first port named `name`, if there is one.
fn find_port(ports: &Vec<(String, u16)>, name: &str) -> (port: Option<u16>)
    ensures
        port == port_named(ports@, name@),
{
    let wanted = String::from_str(name);
    let mut k: usize = 0;
    assert(ports@.subrange(0, ports@.len() as int) =~= ports@);
    while k < ports.len()
        invariant
            k <= ports.len(),
            wanted@ == name@,
            port_named(ports@, name@) == port_named(
                ports@.subrange(k as int, ports@.len() as int),
                name@,
            ),
        decreases ports.len() - k,
    {
        let ghost rest = ports@.subrange(k as int, ports@.len() as int);
        assert(rest[0] == ports@[k as int]);
        assert(rest.drop_first() =~= ports@.subrange(k + 1, ports@.len() as int));
        if ports[k].0 == wanted {
            return Some(ports[k].1);
        }
        k = k + 1;
    }
    None
}

/// The text `<prefix><host>:<port>`.
fn address_flag(prefix: &str, host: &String, port: u16) -> (text: String)
    ensures
        text@ == prefix@ + address(host@, port),
{
    let mut text = String::from_str(prefix);
    text.append(host.as_str());
    text.append(":");
    push_decimal(&mut text, port as u64);
    assert(text@ =~= prefix@ + address(host@, port));
    text
}

/// The text `<prefix><n>`.
fn number_flag(prefix: &str, n: u64) -> (text: String)
    ensures
        text@ == prefix@ + decimal(n as nat),
{
    let mut text = String::from_str(prefix);
    push_decimal(&mut text, n);
    text
}

/// The arguments of one process of the replica `replica_id` of the
/// instance `instance_id`, which runs `workers` workers, given what the
/// orchestrator has assigned to the process. There are none if the
/// orchestrator has not assigned a port that the arguments name.
pub fn replica_args(
    assigned: &ServiceAssignments,
    workers: usize,
    instance_id: ComputeInstanceId,
    replica_id: ReplicaId,
) -> (args: Option<Vec<String>>)
    ensures
        match args {
            Some(args) => replica_args_text(*assigned, workers, instance_id, replica_id) == Some(
                text_views(args@),
            ),
            None => replica_args_text(*assigned, workers, instance_id, replica_id) is None,
        },
{
    let controller = match find_port(&assigned.ports, "controller") {
        Some(port) => port,
        None => {
            return None;
        },
    };
    let http = match find_port(&assigned.ports, "internal-http") {
        Some(port) => port,
        None => {
            return None;
        },
    };
    let mut args: Vec<String> = Vec::new();
    args.push(address_flag("--listen-addr=", &assigned.listen_host, controller));
    args.push(address_flag("--internal-http-listen-addr=", &assigned.listen_host, http));
    args.push(number_flag("--workers=", workers as u64));
    args.push(number_flag("--opentelemetry-resource=instance_id=", instance_id));
    args.push(number_flag("--opentelemetry-resource=replica_id=", replica_id));
    let ghost head = text_views(args@);
    let mut k: usize = 0;
    assert(assigned.peers@.subrange(0, 0) =~= Seq::<(String, Vec<(String, u16)>)>::empty());
    while k < assigned.peers.len()
        invariant
            k <= assigned.peers.len(),
            head.len() == 5,
            peer_addresses(assigned.peers@.subrange(0, k as int)) matches Some(addresses)
                && text_views(args@) == head + addresses,
        decreases assigned.peers.len() - k,
    {
        proof {
            let upto = assigned.peers@.subrange(0, k + 1);
            assert(upto.drop_last() =~= assigned.peers@.subrange(0, k as int));
            assert(upto.last() == assigned.peers@[k as int]);
        }
        let ghost before = text_views(args@);
        match find_port(&assigned.peers[k].1, "compute") {
            Some(port) => {
                let mut text = String::new();
                text.append(assigned.peers[k].0.as_str());
                text.append(":");
                push_decimal(&mut text, port as u64);
                assert(text@ =~= address(assigned.peers@[k as int].0@, port));
                args.push(text);
                assert(text_views(args@) =~= before.push(
                    address(assigned.peers@[k as int].0@, port),
                ));
                assert(text_views(args@) =~= head + peer_addresses(
                    assigned.peers@.subrange(0, k + 1),
                )->0);
            },
            None => {
                proof {
                    lemma_peer_addresses_fail(assigned.peers@, k + 1);
                }
                return None;
            },
        }
        k = k + 1;
    }
    assert(assigned.peers@.subrange(0, k as int) =~= assigned.peers@);
    let ghost before = text_views(args@);
    match assigned.index {
        Some(index) => {
            args.push(number_flag("--process=", index as u64));
            args.push(number_flag("--opentelemetry-resource=replica_index=", index as u64));
            assert(text_views(args@) =~= before + seq![
                "--process="@ + decimal(index as nat),
                "--opentelemetry-resource=replica_index="@ + decimal(index as nat),
            ]);
        },
        None => {
            assert(text_views(args@) =~= before + Seq::<Seq<char>>::empty());
        },
    }
    assert(head =~= seq![
        "--listen-addr="@ + address(assigned.listen_host@, controller),
        "--internal-http-listen-addr="@ + address(assigned.listen_host@, http),
        "--workers="@ + decimal(workers as nat),
        "--opentelemetry-resource=instance_id="@ + decimal(instance_id as nat),
        "--opentelemetry-resource=replica_id="@ + decimal(replica_id as nat),
    ]);
    Some(args)
}

/// If the addresses of the first `k` peers cannot all be told, neither can
/// those of all peers.
proof fn lemma_peer_addresses_fail(peers: Seq<(String, Vec<(String, u16)>)>, k: int)
    requires
        0 <= k <= peers.len(),
        peer_addresses(peers.subrange(0, k)) is None,
    ensures
        peer_addresses(peers) is None,
    decreases peers.len() - k,
{
    if k < peers.len() {
        let upto = peers.subrange(0, k + 1);
        assert(upto.drop_last() =~= peers.subrange(0, k));
        lemma_peer_addresses_fail(peers, k + 1);
    } else {
        assert(peers.subrange(0, k) =~= peers);
    }
}

} // verus!
