use dataflow::server::{AdapterBuilder, ReadysetServerBuilder};

fn strings(args: &[&str]) -> Vec<String> {
    args.iter().map(|a| a.to_string()).collect()
}

#[test]
fn server_builder_starts_with_the_metrics_flag() {
    let b = ReadysetServerBuilder::new("/bin/server");
    assert_eq!(b.binary(), "/bin/server");
    assert_eq!(b.args(), &strings(&["--noria-metrics"]));
    assert!(!b.restart_wanted());
}

#[test]
fn server_builder_collects_every_option_in_order() {
    let b = ReadysetServerBuilder::new("server")
        .volume_id("vol-1")
        .reader_only()
        .no_readers()
        .authority_addr("127.0.0.1:8500")
        .authority("consul")
        .deployment("ct_test")
        .shards(4)
        .quorum(2)
        .external_port(6033)
        .mysql("mysql://root@localhost/db")
        .replicator_restart_timeout(30)
        .reader_replicas(3)
        .auto_restart(true);
    assert_eq!(
        b.args(),
        &strings(&[
            "--noria-metrics",
            "--volume-id",
            "vol-1",
            "--reader-only",
            "--no-readers",
            "--authority-address",
            "127.0.0.1:8500",
            "--authority",
            "consul",
            "--deployment",
            "ct_test",
            "--shards",
            "4",
            "--quorum",
            "2",
            "--external-port",
            "6033",
            "--replication-url",
            "mysql://root@localhost/db",
            "--replicator-restart-timeout",
            "30",
            "--reader-replicas",
            "3",
        ])
    );
    assert!(b.restart_wanted());
}

#[test]
fn server_builder_writes_numbers_in_decimal() {
    let b = ReadysetServerBuilder::new("server")
        .shards(0)
        .quorum(10)
        .external_port(65535)
        .replicator_restart_timeout(18446744073709551615);
    assert_eq!(
        b.args(),
        &strings(&[
            "--noria-metrics",
            "--shards",
            "0",
            "--quorum",
            "10",
            "--external-port",
            "65535",
            "--replicator-restart-timeout",
            "18446744073709551615",
        ])
    );
}

#[test]
fn adapter_builder_starts_with_its_defaults() {
    let b = AdapterBuilder::new("/bin/adapter");
    assert_eq!(b.binary(), "/bin/adapter");
    assert_eq!(
        b.args(),
        &strings(&[
            "--allow-unauthenticated-connections",
            "--migration-request-timeout-ms",
            "1000",
        ])
    );
    assert!(!b.restart_wanted());
}

#[test]
fn adapter_builder_collects_every_option_in_order() {
    let b = AdapterBuilder::new("adapter")
        .authority_addr("127.0.0.1:8500")
        .authority("consul")
        .deployment("ct_test")
        .port(3307)
        .metrics_port(6034)
        .mysql("mysql://root@localhost/db")
        .async_migrations(500)
        .explicit_migrations(250)
        .query_max_failure_seconds(9)
        .fallback_recovery_seconds(1200)
        .auto_restart(true);
    assert_eq!(
        b.args(),
        &strings(&[
            "--allow-unauthenticated-connections",
            "--migration-request-timeout-ms",
            "1000",
            "--authority-address",
            "127.0.0.1:8500",
            "--authority",
            "consul",
            "--deployment",
            "ct_test",
            "-a",
            "127.0.0.1:3307",
            "--metrics-address",
            "0.0.0.0:6034",
            "--upstream-db-url",
            "mysql://root@localhost/db",
            "--async-migrations",
            "--migration-task-interval",
            "500",
            "--explicit-migrations",
            "--migration-task-interval",
            "250",
            "--query-max-failure-seconds",
            "9",
            "--fallback-recovery-seconds",
            "1200",
        ])
    );
    assert!(b.restart_wanted());
}
