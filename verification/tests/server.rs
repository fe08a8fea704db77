//! What the server decides.
use kvr::config::{Config, ConfigError, Problem, RawVar, RawVars, Setting};
use kvr::protocol::{RESP_ERROR, RESP_OK};
use kvr::server::{
    farewell, next_accept, ping_exit_code, plan_bind, AcceptAction, AcceptEvent, BindPlan,
    ConnSemaphore, PathState, PeriodicTask, Permit, ReadFailure, TaskAction, MAX_CONNECTIONS,
};
use kvr::{now_ms, ShardedKV};

/// Waits until the clock has moved on by so many milliseconds.
fn wait_ms(ms: u64) {
    let start = now_ms();
    while now_ms() < start + ms {}
}

/// Runs a sweeper until `shutdown` says to stop, and returns how many entries it removed.
fn run_sweeper(store: &mut ShardedKV, interval_secs: u64, shutdown: impl Fn() -> bool) -> usize {
    let mut removed = 0;
    let mut task = match PeriodicTask::start(interval_secs) {
        Some(task) => task,
        None => return 0,
    };
    loop {
        match task.next(shutdown()) {
            TaskAction::SleepSecond => wait_ms(1_000),
            TaskAction::Run => removed += store.sweep_expired(),
            TaskAction::Stop => return removed,
        }
    }
}

#[test]
fn sweeper_disabled_when_interval_zero() {
    // run_sweeper with interval=0 should return immediately (disabled).
    let mut store = ShardedKV::new();

    // Insert a key that would otherwise be swept.
    store.set_with_ttl("temp", b"v".to_vec(), 50);
    wait_ms(80);

    // Run sweeper with interval=0: should not sweep anything.
    run_sweeper(&mut store, 0, || false);

    // Entry is still there (not swept, not lazily accessed).
    assert_eq!(store.len(), 1);
}

#[test]
fn sweeper_exits_on_shutdown() {
    // Start the sweeper, signal shutdown, verify it exits promptly.
    let mut store = ShardedKV::new();
    let start = now_ms();
    run_sweeper(&mut store, 30, || now_ms() >= start + 200);

    // Should exit within a few seconds (1s poll granularity).
    assert!(now_ms() < start + 5_000);
}

#[test]
fn sweeper_removes_expired_entries() {
    // Start the sweeper with a short interval, insert short-TTL keys,
    // verify they get swept without client access.
    let mut store = ShardedKV::new();

    // Insert keys with 50ms TTL.
    store.set_with_ttl("a", b"1".to_vec(), 50);
    store.set_with_ttl("b", b"2".to_vec(), 50);
    store.set("perm", b"forever".to_vec());
    assert_eq!(store.len(), 3);

    // 1-second interval: will sweep after 1s.
    let start = now_ms();
    run_sweeper(&mut store, 1, || now_ms() >= start + 1_500);

    // Sweeper should have removed the expired keys, permanent stays.
    assert_eq!(store.len(), 1);
    assert_eq!(store.get("perm"), Some(b"forever".to_vec()));
    assert_eq!(store.get("a"), None);
    assert_eq!(store.get("b"), None);
}

#[test]
fn task_runs_every_interval() {
    let mut task = PeriodicTask::start(3).expect("enabled");
    let actions: Vec<TaskAction> = (0..9).map(|_| task.next(false)).collect();
    let (sleep, run) = (TaskAction::SleepSecond, TaskAction::Run);
    assert_eq!(
        actions,
        vec![sleep, sleep, sleep, run, sleep, sleep, sleep, run, sleep]
    );
    assert_eq!(task.next(true), TaskAction::Stop);
}

#[test]
fn permits_run_out_and_come_back() {
    let mut sem = ConnSemaphore::new(2);
    assert_eq!(sem.acquire_or_shutdown(false), Permit::Granted);
    assert_eq!(sem.acquire_or_shutdown(false), Permit::Granted);
    assert_eq!(sem.acquire_or_shutdown(false), Permit::Wait);
    assert_eq!(sem.acquire_or_shutdown(true), Permit::ShuttingDown);
    sem.release();
    assert_eq!(sem.acquire_or_shutdown(true), Permit::ShuttingDown);
    assert_eq!(sem.acquire_or_shutdown(false), Permit::Granted);
    assert_eq!(sem.acquire_or_shutdown(false), Permit::Wait);
    assert_eq!(
        ConnSemaphore::new(0).acquire_or_shutdown(false),
        Permit::Wait
    );
}

#[test]
fn accept_loop_ends_only_on_shutdown() {
    let polled = |shutdown| next_accept(AcceptEvent::Polled { shutdown });
    let asked = |permit| next_accept(AcceptEvent::Asked { permit });
    assert_eq!(polled(true), AcceptAction::Stop);
    assert_eq!(polled(false), AcceptAction::Accept);
    assert_eq!(next_accept(AcceptEvent::Connected), AcceptAction::AskPermit);
    assert_eq!(
        next_accept(AcceptEvent::WouldBlock),
        AcceptAction::Pause { report: false }
    );
    assert_eq!(
        next_accept(AcceptEvent::Failed),
        AcceptAction::Pause { report: true }
    );
    assert_eq!(asked(Permit::Granted), AcceptAction::Spawn);
    assert_eq!(asked(Permit::Wait), AcceptAction::AwaitPermit);
    assert_eq!(asked(Permit::ShuttingDown), AcceptAction::Stop);
    assert_eq!(
        next_accept(AcceptEvent::Spawned { ok: true }),
        AcceptAction::Poll
    );
    assert_eq!(
        next_accept(AcceptEvent::Spawned { ok: false }),
        AcceptAction::ReportSpawn
    );
}

#[test]
fn only_unexpected_failures_are_answered() {
    assert_eq!(farewell(ReadFailure::UnexpectedEof), None);
    assert_eq!(farewell(ReadFailure::ConnectionReset), None);
    assert_eq!(farewell(ReadFailure::TimedOut), None);
    assert_eq!(farewell(ReadFailure::WouldBlock), None);
    assert_eq!(farewell(ReadFailure::Other), Some(vec![RESP_ERROR]));
}

#[test]
fn only_stale_sockets_are_removed() {
    assert_eq!(plan_bind(PathState::Missing), BindPlan::Bind);
    assert_eq!(
        plan_bind(PathState::Socket { live: false }),
        BindPlan::RemoveAndBind
    );
    assert_eq!(
        plan_bind(PathState::Socket { live: true }),
        BindPlan::RefuseLive
    );
    assert_eq!(plan_bind(PathState::NotSocket), BindPlan::RefuseNotSocket);
}

#[test]
fn ping_succeeds_on_exactly_ok() {
    assert_eq!(ping_exit_code(Some(&[RESP_OK])), 0);
    assert_eq!(ping_exit_code(Some(&[RESP_OK, 0])), 1);
    assert_eq!(ping_exit_code(Some(&[RESP_ERROR])), 1);
    assert_eq!(ping_exit_code(Some(&[])), 1);
    assert_eq!(ping_exit_code(None), 1);
}

/// Variables of which none is set.
fn unset() -> RawVars {
    RawVars {
        socket_path: RawVar::Unset,
        tcp_addr: RawVar::Unset,
        max_entries: RawVar::Unset,
        max_connections: RawVar::Unset,
        sweep_interval_secs: RawVar::Unset,
        snapshot_path: RawVar::Unset,
        snapshot_on_shutdown: RawVar::Unset,
        snapshot_interval_secs: RawVar::Unset,
    }
}

fn text(s: &str) -> RawVar {
    RawVar::Text(s.to_string())
}

#[test]
fn config_defaults() {
    let config = Config::from_vars(unset()).expect("defaults");
    assert_eq!(config.socket_path, "/tmp/kvr.sock");
    assert_eq!(config.tcp_addr, None);
    assert_eq!(config.max_entries, 100_000);
    assert_eq!(config.max_connections, 256);
    assert_eq!(config.max_connections, MAX_CONNECTIONS);
    assert_eq!(config.sweep_interval_secs, 30);
    assert_eq!(config.snapshot_path, None);
    assert!(config.snapshot_on_shutdown);
    assert_eq!(config.snapshot_interval_secs, 0);
}

#[test]
fn config_values() {
    let config = Config::from_vars(RawVars {
        socket_path: text("/run/x.sock"),
        tcp_addr: text("127.0.0.1:7000"),
        max_entries: text("0"),
        max_connections: text("+12"),
        sweep_interval_secs: text("007"),
        snapshot_path: text("/var/kvr.bin"),
        snapshot_on_shutdown: text("false"),
        snapshot_interval_secs: text("18446744073709551615"),
    })
    .expect("valid");
    assert_eq!(config.socket_path, "/run/x.sock");
    assert_eq!(config.tcp_addr.as_deref(), Some("127.0.0.1:7000"));
    assert_eq!(config.max_entries, 0);
    assert_eq!(config.max_connections, 12);
    assert_eq!(config.sweep_interval_secs, 7);
    assert_eq!(config.snapshot_path.as_deref(), Some("/var/kvr.bin"));
    assert!(!config.snapshot_on_shutdown);
    assert_eq!(config.snapshot_interval_secs, u64::MAX);
}

#[test]
fn config_texts_are_lenient() {
    let mut vars = unset();
    vars.socket_path = RawVar::NotUnicode;
    vars.tcp_addr = text("");
    vars.snapshot_path = text("");
    vars.max_entries = text("");
    vars.snapshot_on_shutdown = text("");
    let config = Config::from_vars(vars).expect("valid");
    assert_eq!(config.socket_path, "/tmp/kvr.sock");
    assert_eq!(config.tcp_addr.as_deref(), Some(""));
    assert_eq!(config.snapshot_path, None);
    assert_eq!(config.max_entries, 100_000);
    assert!(config.snapshot_on_shutdown);
}

#[test]
fn config_refuses_malformed_values() {
    let refused = |vars: RawVars| Config::from_vars(vars).err().expect("refused");
    let error = |setting, problem| ConfigError { setting, problem };

    for (value, problem) in [
        ("12x", Problem::InvalidDigit),
        ("-1", Problem::InvalidDigit),
        ("+", Problem::InvalidDigit),
        (" 1", Problem::InvalidDigit),
        ("\u{663}", Problem::InvalidDigit),
        ("18446744073709551616", Problem::TooLarge),
        ("99999999999999999999999", Problem::TooLarge),
    ] {
        let mut vars = unset();
        vars.sweep_interval_secs = text(value);
        assert_eq!(refused(vars), error(Setting::SweepIntervalSecs, problem));
    }

    let mut vars = unset();
    vars.max_connections = text("0");
    vars.max_entries = text("many");
    assert_eq!(refused(vars), error(Setting::MaxConnections, Problem::Zero));

    let mut vars = unset();
    vars.max_entries = RawVar::NotUnicode;
    assert_eq!(
        refused(vars),
        error(Setting::MaxEntries, Problem::NotUnicode)
    );

    let mut vars = unset();
    vars.snapshot_on_shutdown = text("yes");
    assert_eq!(
        refused(vars),
        error(Setting::SnapshotOnShutdown, Problem::NotBool)
    );

    let mut vars = unset();
    vars.snapshot_interval_secs = text("1.5");
    assert_eq!(
        refused(vars),
        error(Setting::SnapshotIntervalSecs, Problem::InvalidDigit)
    );
}
