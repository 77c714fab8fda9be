use cluster_controller::service_name::{
    generate_instance_service_name, generate_replica_service_name, parse_replica_service_name,
    ServiceNameError,
};

#[test]
fn generates_replica_service_name() {
    assert_eq!(generate_replica_service_name(2, 1), "cluster-2-replica-1");
    assert_eq!(generate_replica_service_name(0, 0), "cluster-0-replica-0");
    assert_eq!(
        generate_replica_service_name(u64::MAX, 10),
        "cluster-18446744073709551615-replica-10"
    );
}

#[test]
fn generates_instance_service_name() {
    assert_eq!(generate_instance_service_name(2), "cluster-2");
    assert_eq!(generate_instance_service_name(1234567890), "cluster-1234567890");
}

#[test]
fn parses_what_was_generated() {
    for (instance_id, replica_id) in [(0, 0), (1, 2), (17, 4096), (u64::MAX, u64::MAX - 1)] {
        let name = generate_replica_service_name(instance_id, replica_id);
        assert_eq!(parse_replica_service_name(&name), Ok((instance_id, replica_id)));
    }
}

#[test]
fn parses_leading_zeros() {
    assert_eq!(parse_replica_service_name("cluster-007-replica-010"), Ok((7, 10)));
}

#[test]
fn refuses_other_shapes() {
    for name in [
        "",
        "cluster-",
        "cluster-1",
        "cluster-1-replica-",
        "cluster--replica-1",
        "cluster-1-replica-2 ",
        " cluster-1-replica-2",
        "cluster-1-replica-2\n",
        "cluster-1-replica-2-3",
        "cluster-a-replica-2",
        "cluster-1-replica-b",
        "Cluster-1-replica-2",
        "cluster-1_replica-2",
        "cluster-+1-replica-2",
        "cluster-١-replica-2",
        "cluster-1-replica-２",
    ] {
        assert_eq!(
            parse_replica_service_name(name),
            Err(ServiceNameError::InvalidServiceName),
            "{name:?}"
        );
    }
}

#[test]
fn refuses_numbers_that_do_not_fit() {
    assert_eq!(
        parse_replica_service_name("cluster-18446744073709551616-replica-1"),
        Err(ServiceNameError::IdOutOfRange)
    );
    assert_eq!(
        parse_replica_service_name("cluster-1-replica-99999999999999999999999"),
        Err(ServiceNameError::IdOutOfRange)
    );
    assert_eq!(
        parse_replica_service_name("cluster-18446744073709551615-replica-18446744073709551615"),
        Ok((u64::MAX, u64::MAX))
    );
}
