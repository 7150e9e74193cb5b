use ciron::config::{GlobalConfig, ProgramConfig, TransportConfig};
use ciron::ctl::{inet_uri, log_line, outcome_line, state_name, status_lines};
use ciron::error::ProcessError;
use ciron::logs::{LogLine, LogSource};
use ciron::process::{ProcessManager, SpawnOutcome};
use ciron::service::{
    to_log_entry, CironDaemonService, GetStatusResponse, LogLevel, ProcessState, ProcessStatus,
    RestartProcessResponse, ServiceError, StartProcessResponse, TransportType,
};

fn program(command: &str, log_forward: bool) -> ProgramConfig {
    ProgramConfig {
        command: command.to_string(),
        autostart: false,
        restart: None,
        env: None,
        log_forward,
        after: None,
        wants: None,
    }
}

fn manager() -> ProcessManager {
    let mut manager = ProcessManager::new();
    manager.load_from_config(GlobalConfig {
        log_level: None,
        transport: TransportConfig::default(),
        program: vec![
            ("nginx".to_string(), program("nginx", true)),
            ("webapp".to_string(), program("webapp", false)),
            ("a program with a long name".to_string(), program("x", false)),
        ],
    });
    manager
        .finish_start("nginx", SpawnOutcome::Spawned(Some(9)))
        .unwrap();
    manager
}

fn service_at(transport: &str) -> CironDaemonService {
    CironDaemonService::new(
        "0.1.0".to_string(),
        "ciron.toml".to_string(),
        transport.to_string(),
        Some(1700000000),
    )
}

fn service() -> CironDaemonService {
    service_at("unix:///tmp/cirond.sock")
}

#[test]
fn status_counts_every_process_once() {
    let response = service().get_status(&manager(), Some(75));
    let info = response.daemon_info.unwrap();
    assert_eq!(info.version, "0.1.0");
    assert_eq!(info.started_at, "1700000000");
    assert_eq!(info.uptime_seconds, 75);
    assert_eq!(info.config_file, "ciron.toml");
    assert_eq!(info.total_processes, 3);
    assert_eq!(info.running_processes, 1);
    assert_eq!(info.stopped_processes, 2);
    let transport = info.transport.unwrap();
    assert_eq!(transport.transport_type, TransportType::Unix);
    assert_eq!(transport.address, "unix:///tmp/cirond.sock");

    let states: Vec<(String, i32)> = response
        .processes
        .iter()
        .map(|p| (p.name.clone(), p.state))
        .collect();
    assert_eq!(
        states,
        vec![
            ("nginx".to_string(), 3),
            ("webapp".to_string(), 1),
            ("a program with a long name".to_string(), 1),
        ]
    );
    let first = &response.processes[0];
    assert!(first.pid.is_none() && first.started_at.is_none());
    assert!(first.uptime_seconds.is_none() && first.restart_count.is_none());
    let config = first.config.as_ref().unwrap();
    assert_eq!(config.command, "");
    assert!(!config.autostart && config.env.is_empty());
    assert!(config.restart_policy.is_none() && config.working_directory.is_none());
    assert!(config.user.is_none() && config.group.is_none());
}

#[test]
fn clock_that_was_set_back_gives_no_times() {
    let mut service = service();
    service.started_at = None;
    let info = service.get_status(&manager(), None).daemon_info.unwrap();
    assert_eq!(info.started_at, "");
    assert_eq!(info.uptime_seconds, 0);
    assert_eq!(service.get_uptime_seconds(Some(u64::MAX)), -1);
    assert_eq!(service.get_uptime_seconds(Some(1 << 31)), i32::MIN);
}

#[test]
fn types_of_addresses() {
    let kind = |text: &str| service_at(text).parse_transport_info().transport_type;
    assert_eq!(kind("inet://a:1"), TransportType::Inet);
    assert_eq!(kind("tcp://a:1"), TransportType::Inet);
    assert_eq!(kind("unix:///x"), TransportType::Unix);
    assert_eq!(kind("vsock://1:2"), TransportType::Vsock);
    assert_eq!(kind("inet:/a"), TransportType::Unspecified);
    assert_eq!(kind(""), TransportType::Unspecified);
}

#[test]
fn status_of_one_process() {
    let manager = manager();
    let running = service().get_process_status(&manager, "nginx").unwrap();
    assert_eq!((running.name.as_str(), running.state), ("nginx", 3));
    assert!(running.config.is_some());
    let stopped = service().get_process_status(&manager, "webapp").unwrap();
    assert_eq!(stopped.state, 1);
    match service().get_process_status(&manager, "none") {
        Err(ServiceError::NotFound(reason)) => assert_eq!(reason, "Process 'none' not found"),
        other => panic!("unexpected: {:?}", other),
    }
}

#[test]
fn answers_to_start_requests() {
    let started = StartProcessResponse::new("web", &Ok(()));
    assert!(started.success);
    assert_eq!(started.message, "Process 'web' started successfully");
    let status = started.status.unwrap();
    assert_eq!((status.name.as_str(), status.state), ("web", 3));
    assert!(status.config.is_none() && status.pid.is_none());

    let failed = StartProcessResponse::new("web", &Err(ProcessError::Spawn("web".to_string())));
    assert!(!failed.success);
    assert_eq!(
        failed.message,
        "Failed to start process 'web': Failed to spawn process web"
    );
    assert!(failed.status.is_none());

    let manager = manager();
    assert!(service().start_process(&manager, "webapp").is_ok());
    let unknown = service().start_process(&manager, "none").unwrap_err();
    assert_eq!(
        unknown.message,
        "Failed to start process 'none': Program none not found"
    );
}

#[test]
fn answers_to_restart_requests() {
    let restarted = RestartProcessResponse::new("web", &Ok(()));
    assert!(restarted.success);
    assert_eq!(restarted.message, "Process 'web' restarted successfully");
    assert_eq!(restarted.status.unwrap().state, 3);

    let error = ProcessError::EmptyCommand("web".to_string());
    let failed = RestartProcessResponse::new("web", &Err(error));
    assert!(!failed.success && failed.status.is_none());
    assert_eq!(
        failed.message,
        "Failed to restart process 'web': Empty command for web"
    );

    let mut manager = manager();
    let restart = service().restart_process(&mut manager, "nginx").unwrap();
    assert_eq!(restart.stop.unwrap().signal, Some(9));
    assert!(service()
        .restart_process(&mut manager, "nginx")
        .unwrap()
        .stop
        .is_none());
    let unknown = service().restart_process(&mut manager, "none").unwrap_err();
    assert_eq!(
        unknown.message,
        "Failed to restart process 'none': Program none not found"
    );
}

#[test]
fn answers_to_stop_requests() {
    let mut manager = manager();
    let (response, termination) = service().stop_process(&mut manager, "nginx");
    assert!(response.success);
    assert_eq!(response.message, "Process 'nginx' stopped successfully");
    assert_eq!(termination.unwrap().signal, Some(9));

    let (again, nothing) = service().stop_process(&mut manager, "nginx");
    assert!(again.success);
    assert!(nothing.is_none());

    let (unknown, nothing) = service().stop_process(&mut manager, "none");
    assert!(!unknown.success);
    assert_eq!(
        unknown.message,
        "Failed to stop process 'none': Program none not found"
    );
    assert!(nothing.is_none());
}

#[test]
fn answers_to_log_requests() {
    let mut manager = manager();
    let started = manager
        .finish_start("nginx", SpawnOutcome::Spawned(Some(9)))
        .unwrap();
    for i in 0..3u128 {
        manager.record_log(
            "nginx",
            started.generation,
            LogLine {
                timestamp_ms: i,
                source: LogSource::Stdout,
                message: format!("m{}", i),
            },
        );
    }
    let all = service().get_logs(&manager, "nginx", -1, false).unwrap();
    assert_eq!(all.entries.len(), 3);
    assert!(!all.follow);
    assert_eq!(service().get_logs(&manager, "nginx", 0, false).unwrap().entries.len(), 3);
    let last = service().get_logs(&manager, "nginx", 1, true).unwrap();
    assert_eq!(last.entries.len(), 1);
    assert_eq!(last.entries[0].message, "m2");
    assert!(last.follow);

    match service().get_logs(&manager, "none", 1, false) {
        Err(ServiceError::NotFound(reason)) => assert_eq!(reason, "Program none not found"),
        other => panic!("unexpected: {:?}", other),
    }
    match service().get_logs(&manager, "webapp", 1, true) {
        Err(ServiceError::NotFound(reason)) => assert!(reason
            .starts_with("Log forwarding is disabled for process 'webapp': set log_forward")),
        other => panic!("unexpected: {:?}", other),
    }
}

#[test]
fn lines_are_sent_with_level_and_source() {
    let out = to_log_entry(&LogLine {
        timestamp_ms: 1700000000123,
        source: LogSource::Stdout,
        message: "hi".to_string(),
    });
    assert_eq!(out.timestamp, "1700000000123");
    assert_eq!(out.level, LogLevel::Info);
    assert_eq!(out.source, "stdout");
    assert_eq!(out.message, "hi");
    let err = to_log_entry(&LogLine {
        timestamp_ms: 0,
        source: LogSource::Stderr,
        message: String::new(),
    });
    assert_eq!(err.timestamp, "0");
    assert_eq!(err.level, LogLevel::Warn);
    assert_eq!(err.source, "stderr");
}

#[test]
fn states_are_shown_by_name() {
    let states = [
        (ProcessState::Stopped, "STOPPED"),
        (ProcessState::Starting, "STARTING"),
        (ProcessState::Running, "RUNNING"),
        (ProcessState::Stopping, "STOPPING"),
        (ProcessState::Failed, "FAILED"),
        (ProcessState::Exited, "EXITED"),
    ];
    for (state, name) in states {
        assert_eq!(state_name(state.code()), name);
    }
    assert_eq!(state_name(0), "UNKNOWN");
    assert_eq!(state_name(7), "UNKNOWN");
}

#[test]
fn status_is_shown_line_by_line() {
    let response = service().get_status(&manager(), Some(75));
    assert_eq!(
        status_lines(&response),
        vec![
            "Cirond Status",
            "─────────────────────────────────────────",
            "Version: 0.1.0",
            "Uptime: 75s",
            "Config: ciron.toml",
            "Processes: 3 total, 1 running, 2 stopped",
            "",
            "Processes:",
            "  nginx                RUNNING",
            "  webapp               STOPPED",
            "  a program with a long name STOPPED",
        ]
    );
    let bare = GetStatusResponse {
        processes: vec![ProcessStatus {
            name: "käse".to_string(),
            state: 9,
            pid: Some(12),
            started_at: None,
            uptime_seconds: None,
            restart_count: None,
            config: None,
        }],
        daemon_info: None,
    };
    assert_eq!(
        status_lines(&bare),
        vec![
            "Cirond Status".to_string(),
            "─────────────────────────────────────────".to_string(),
            "Processes:".to_string(),
            format!("  {:20} {}", "käse", "UNKNOWN"),
            "    PID: 12".to_string(),
        ]
    );
}

#[test]
fn outcomes_and_lines_are_shown() {
    assert_eq!(outcome_line(true, "done"), "Success: done");
    assert_eq!(outcome_line(false, "no"), "Failed: no");
    assert_eq!(log_line("stdout", "hi"), "[stdout] hi");
    assert_eq!(inet_uri("127.0.0.1", 50051), "http://127.0.0.1:50051");
}
