//! The command lines of the server and of the adapter of a test cluster.

use crate::text::{decimal, decimal_string, join2};
use vstd::prelude::*;

verus! {

/// The texts of a list of arguments.
pub open spec fn texts(args: Seq<String>) -> Seq<Seq<char>> {
    Seq::new(args.len(), |i: int| args[i]@)
}

/// Collects the arguments with which the server binary is to be started.
#[derive(Debug)]
pub struct ReadysetServerBuilder {
    /// Path to the server binary.
    binary: String,
    /// The arguments to pass to the server process on startup.
    args: Vec<String>,
    /// Whether or not to automatically restart the server if it stops.
    auto_restart: bool,
}

impl ReadysetServerBuilder {
    /// The path of the binary.
    pub closed spec fn program(self) -> Seq<char> {
        self.binary@
    }

    /// The arguments collected so far.
    pub closed spec fn arguments(self) -> Seq<Seq<char>> {
        texts(self.args@)
    }

    /// Whether the process is to be restarted when it stops.
    pub closed spec fn restarts(self) -> bool {
        self.auto_restart
    }

    /// The builder that `self` becomes when the arguments `more` are added.
    pub open spec fn extended(self, after: Self, more: Seq<Seq<char>>) -> bool {
        &&& after.program() == self.program()
        &&& after.restarts() == self.restarts()
        &&& after.arguments() == self.arguments() + more
    }

    /// A builder for the binary at `binary`, which asks the server for its metrics.
    pub fn new(binary: &str) -> (b: Self)
        ensures
            b.program() == binary@,
            b.arguments() == seq!["--noria-metrics"@],
            !b.restarts(),
    {
        let mut args: Vec<String> = Vec::new();
        args.push(String::from_str("--noria-metrics"));
        let b = Self { binary: String::from_str(binary), args, auto_restart: false };
        assert(b.arguments() =~= seq!["--noria-metrics"@]);
        b
    }

    /// The path of the binary.
    pub fn binary(&self) -> (p: &String)
        ensures
            p@ == self.program(),
    {
        &self.binary
    }

    /// The arguments collected so far.
    pub fn args(&self) -> (a: &Vec<String>)
        ensures
            texts(a@) == self.arguments(),
    {
        &self.args
    }

    /// Whether the process is to be restarted when it stops.
    pub fn restart_wanted(&self) -> (r: bool)
        ensures
            r == self.restarts(),
    {
        self.auto_restart
    }

    /// Adds the flag `arg_name`.
    pub fn push_arg(self, arg_name: &str) -> (b: Self)
        ensures
            self.extended(b, seq![arg_name@]),
    {
        let mut b = self;
        b.args.push(String::from_str(arg_name));
        assert(b.arguments() =~= self.arguments() + seq![arg_name@]);
        b
    }

    /// Adds the option `arg_name` with the value `arg_value`.
    pub fn push_arg_kv(self, arg_name: &str, arg_value: &str) -> (b: Self)
        ensures
            self.extended(b, seq![arg_name@, arg_value@]),
    {
        let mut b = self;
        b.args.push(String::from_str(arg_name));
        b.args.push(String::from_str(arg_value));
        assert(b.arguments() =~= self.arguments() + seq![arg_name@, arg_value@]);
        b
    }

    /// Sets the identifier of the volume.
    pub fn volume_id(self, id: &str) -> (b: Self)
        ensures
            self.extended(b, seq!["--volume-id"@, id@]),
    {
        self.push_arg_kv("--volume-id", id)
    }

    /// Makes the server hold readers only.
    pub fn reader_only(self) -> (b: Self)
        ensures
            self.extended(b, seq!["--reader-only"@]),
    {
        self.push_arg("--reader-only")
    }

    /// Makes the server hold no readers.
    pub fn no_readers(self) -> (b: Self)
        ensures
            self.extended(b, seq!["--no-readers"@]),
    {
        self.push_arg("--no-readers")
    }

    /// Sets the address of the authority.
    pub fn authority_addr(self, authority_addr: &str) -> (b: Self)
        ensures
            self.extended(b, seq!["--authority-address"@, authority_addr@]),
    {
        self.push_arg_kv("--authority-address", authority_addr)
    }

    /// Sets the kind of the authority.
    pub fn authority(self, authority: &str) -> (b: Self)
        ensures
            self.extended(b, seq!["--authority"@, authority@]),
    {
        self.push_arg_kv("--authority", authority)
    }

    /// Sets the name of the deployment.
    pub fn deployment(self, deployment: &str) -> (b: Self)
        ensures
            self.extended(b, seq!["--deployment"@, deployment@]),
    {
        self.push_arg_kv("--deployment", deployment)
    }

    /// Sets the number of shards.
    pub fn shards(self, shards: usize) -> (b: Self)
        ensures
            self.extended(b, seq!["--shards"@, decimal(shards as nat)]),
    {
        let n = decimal_string(shards as u64);
        self.push_arg_kv("--shards", n.as_str())
    }

    /// Sets the number of workers that must be there before the server works.
    pub fn quorum(self, quorum: usize) -> (b: Self)
        ensures
            self.extended(b, seq!["--quorum"@, decimal(quorum as nat)]),
    {
        let n = decimal_string(quorum as u64);
        self.push_arg_kv("--quorum", n.as_str())
    }

    /// Sets the port on which the server listens.
    pub fn external_port(self, external_port: u16) -> (b: Self)
        ensures
            self.extended(b, seq!["--external-port"@, decimal(external_port as nat)]),
    {
        let n = decimal_string(external_port as u64);
        self.push_arg_kv("--external-port", n.as_str())
    }

    /// Sets the address of the database that is replicated.
    pub fn mysql(self, addr: &str) -> (b: Self)
        ensures
            self.extended(b, seq!["--replication-url"@, addr@]),
    {
        self.push_arg_kv("--replication-url", addr)
    }

    /// Sets the time after which the replicator is restarted.
    pub fn replicator_restart_timeout(self, timeout: u64) -> (b: Self)
        ensures
            self.extended(b, seq!["--replicator-restart-timeout"@, decimal(timeout as nat)]),
    {
        let n = decimal_string(timeout);
        self.push_arg_kv("--replicator-restart-timeout", n.as_str())
    }

    /// Sets the number of copies of each reader.
    pub fn reader_replicas(self, num_replicas: usize) -> (b: Self)
        ensures
            self.extended(b, seq!["--reader-replicas"@, decimal(num_replicas as nat)]),
    {
        let n = decimal_string(num_replicas as u64);
        self.push_arg_kv("--reader-replicas", n.as_str())
    }

    /// Sets whether the server is restarted when it stops.
    pub fn auto_restart(self, auto_restart: bool) -> (b: Self)
        ensures
            b.program() == self.program(),
            b.arguments() == self.arguments(),
            b.restarts() == auto_restart,
    {
        let mut b = self;
        b.auto_restart = auto_restart;
        b
    }
}

/// Collects the arguments with which the adapter binary is to be started.
#[derive(Debug)]
pub struct AdapterBuilder {
    /// Path to the adapter binary.
    binary: String,
    /// The arguments to pass to the adapter process on startup.
    args: Vec<String>,
    /// Whether or not to automatically restart the adapter if it stops.
    auto_restart: bool,
}

impl AdapterBuilder {
    /// The path of the binary.
    pub closed spec fn program(self) -> Seq<char> {
        self.binary@
    }

    /// The arguments collected so far.
    pub closed spec fn arguments(self) -> Seq<Seq<char>> {
        texts(self.args@)
    }

    /// Whether the process is to be restarted when it stops.
    pub closed spec fn restarts(self) -> bool {
        self.auto_restart
    }

    /// The builder that `self` becomes when the arguments `more` are added.
    pub open spec fn extended(self, after: Self, more: Seq<Seq<char>>) -> bool {
        &&& after.program() == self.program()
        &&& after.restarts() == self.restarts()
        &&& after.arguments() == self.arguments() + more
    }

    /// A builder for the binary at `binary`, which lets clients in without a password and
    /// gives a migration one second.
    pub fn new(binary: &str) -> (b: Self)
        ensures
            b.program() == binary@,
            b.arguments() == seq![
                "--allow-unauthenticated-connections"@,
                "--migration-request-timeout-ms"@,
                "1000"@,
            ],
            !b.restarts(),
    {
        let mut args: Vec<String> = Vec::new();
        args.push(String::from_str("--allow-unauthenticated-connections"));
        args.push(String::from_str("--migration-request-timeout-ms"));
        args.push(String::from_str("1000"));
        let b = Self { binary: String::from_str(binary), args, auto_restart: false };
        assert(b.arguments() =~= seq![
            "--allow-unauthenticated-connections"@,
            "--migration-request-timeout-ms"@,
            "1000"@,
        ]);
        b
    }

    /// The path of the binary.
    pub fn binary(&self) -> (p: &String)
        ensures
            p@ == self.program(),
    {
        &self.binary
    }

    /// The arguments collected so far.
    pub fn args(&self) -> (a: &Vec<String>)
        ensures
            texts(a@) == self.arguments(),
    {
        &self.args
    }

    /// Whether the process is to be restarted when it stops.
    pub fn restart_wanted(&self) -> (r: bool)
        ensures
            r == self.restarts(),
    {
        self.auto_restart
    }

    /// Adds the flag `arg_name`.
    fn push_flag(self, arg_name: &str) -> (b: Self)
        ensures
            self.extended(b, seq![arg_name@]),
    {
        let mut b = self;
        b.args.push(String::from_str(arg_name));
        assert(b.arguments() =~= self.arguments() + seq![arg_name@]);
        b
    }

    /// Adds the option `arg_name` with the value `arg_value`.
    pub fn push_arg(self, arg_name: &str, arg_value: &str) -> (b: Self)
        ensures
            self.extended(b, seq![arg_name@, arg_value@]),
    {
        let mut b = self;
        b.args.push(String::from_str(arg_name));
        b.args.push(String::from_str(arg_value));
        assert(b.arguments() =~= self.arguments() + seq![arg_name@, arg_value@]);
        b
    }

    /// Sets the address of the authority.
    pub fn authority_addr(self, authority_addr: &str) -> (b: Self)
        ensures
            self.extended(b, seq!["--authority-address"@, authority_addr@]),
    {
        self.push_arg("--authority-address", authority_addr)
    }

    /// Sets the kind of the authority.
    pub fn authority(self, authority: &str) -> (b: Self)
        ensures
            self.extended(b, seq!["--authority"@, authority@]),
    {
        self.push_arg("--authority", authority)
    }

    /// Sets the name of the deployment.
    pub fn deployment(self, deployment: &str) -> (b: Self)
        ensures
            self.extended(b, seq!["--deployment"@, deployment@]),
    {
        self.push_arg("--deployment", deployment)
    }

    /// Makes the adapter listen on the port `port` of this machine.
    pub fn port(self, port: u16) -> (b: Self)
        ensures
            self.extended(b, seq!["-a"@, "127.0.0.1:"@ + decimal(port as nat)]),
    {
        let n = decimal_string(port as u64);
        let addr = join2("127.0.0.1:", n.as_str());
        self.push_arg("-a", addr.as_str())
    }

    /// Makes the adapter offer its metrics on the port `port`.
    pub fn metrics_port(self, port: u16) -> (b: Self)
        ensures
            self.extended(b, seq!["--metrics-address"@, "0.0.0.0:"@ + decimal(port as nat)]),
    {
        let n = decimal_string(port as u64);
        let addr = join2("0.0.0.0:", n.as_str());
        self.push_arg("--metrics-address", addr.as_str())
    }

    /// Sets the address of the database behind the adapter.
    pub fn mysql(self, addr: &str) -> (b: Self)
        ensures
            self.extended(b, seq!["--upstream-db-url"@, addr@]),
    {
        self.push_arg("--upstream-db-url", addr)
    }

    /// Makes the adapter migrate queries in the background, every `migration_task_interval`.
    pub fn async_migrations(self, migration_task_interval: u64) -> (b: Self)
        ensures
            self.extended(
                b,
                seq![
                    "--async-migrations"@,
                    "--migration-task-interval"@,
                    decimal(migration_task_interval as nat),
                ],
            ),
    {
        let n = decimal_string(migration_task_interval);
        let ghost start = self.arguments();
        let b = self.push_flag("--async-migrations").push_arg(
            "--migration-task-interval",
            n.as_str(),
        );
        assert(b.arguments() =~= start + seq![
            "--async-migrations"@,
            "--migration-task-interval"@,
            decimal(migration_task_interval as nat),
        ]);
        b
    }

    /// Makes the adapter migrate only the queries that it is told to, and try the others
    /// out every `dry_run_task_interval`.
    pub fn explicit_migrations(self, dry_run_task_interval: u64) -> (b: Self)
        ensures
            self.extended(
                b,
                seq![
                    "--explicit-migrations"@,
                    "--migration-task-interval"@,
                    decimal(dry_run_task_interval as nat),
                ],
            ),
    {
        let n = decimal_string(dry_run_task_interval);
        let ghost start = self.arguments();
        let b = self.push_flag("--explicit-migrations").push_arg(
            "--migration-task-interval",
            n.as_str(),
        );
        assert(b.arguments() =~= start + seq![
            "--explicit-migrations"@,
            "--migration-task-interval"@,
            decimal(dry_run_task_interval as nat),
        ]);
        b
    }

    /// Sets for how long a query may fail before the adapter gives it up.
    pub fn query_max_failure_seconds(self, secs: u64) -> (b: Self)
        ensures
            self.extended(b, seq!["--query-max-failure-seconds"@, decimal(secs as nat)]),
    {
        let n = decimal_string(secs);
        self.push_arg("--query-max-failure-seconds", n.as_str())
    }

    /// Sets for how long the adapter falls back after a failure.
    pub fn fallback_recovery_seconds(self, secs: u64) -> (b: Self)
        ensures
            self.extended(b, seq!["--fallback-recovery-seconds"@, decimal(secs as nat)]),
    {
        let n = decimal_string(secs);
        self.push_arg("--fallback-recovery-seconds", n.as_str())
    }

    /// Sets whether the adapter is restarted when it stops.
    pub fn auto_restart(self, auto_restart: bool) -> (b: Self)
        ensures
            b.program() == self.program(),
            b.arguments() == self.arguments(),
            b.restarts() == auto_restart,
    {
        let mut b = self;
        b.auto_restart = auto_restart;
        b
    }
}

} // verus!
