use ciron::config::{GlobalConfig, ProgramConfig, TransportConfig};
use ciron::error::ProcessError;
use ciron::logs::{LogLine, LogSource};
use ciron::process::{
    monitor_event, should_restart, EventAction, Launch, ProcessEvent, ProcessManager, Received,
    SpawnOutcome, StartStep, WaitOutcome, RESTART_DELAY_SECS, RESTART_PAUSE_SECS,
};

fn program(command: &str) -> ProgramConfig {
    ProgramConfig {
        command: command.to_string(),
        autostart: false,
        restart: None,
        env: None,
        log_forward: false,
        after: None,
        wants: None,
    }
}

fn manager_with(programs: Vec<(&str, ProgramConfig)>) -> ProcessManager {
    let mut manager = ProcessManager::new();
    let program = programs
        .into_iter()
        .map(|(name, config)| (name.to_string(), config))
        .collect();
    manager.load_from_config(GlobalConfig {
        log_level: None,
        transport: TransportConfig::default(),
        program,
    });
    manager
}

fn start(manager: &mut ProcessManager, name: &str, pid: u32) {
    manager.finish_start(name, SpawnOutcome::Spawned(Some(pid))).unwrap();
}

fn running(manager: &ProcessManager) -> Vec<String> {
    manager
        .list_processes()
        .into_iter()
        .filter(|(_, running)| *running)
        .map(|(name, _)| name)
        .collect()
}

/// Carries a request out. Programs named `bad` cannot be spawned. Returns the result and
/// what was spawned.
fn carry_out(
    manager: &mut ProcessManager,
    name: &str,
) -> (Result<(), ProcessError>, Vec<String>) {
    let mut session = match manager.start_process(name) {
        Ok(session) => session,
        Err(e) => return (Err(e), Vec::new()),
    };
    let mut spawned = Vec::new();
    loop {
        match manager.next_start(&mut session) {
            StartStep::Running(_) | StartStep::Refused(_, _) => {}
            StartStep::Spawn(unit, _) => {
                let outcome = if unit.starts_with("bad") {
                    SpawnOutcome::Failed
                } else {
                    spawned.push(unit);
                    SpawnOutcome::Spawned(Some(spawned.len() as u32))
                };
                let _ = manager.spawn_finished(&mut session, outcome);
            }
            StartStep::Finished(result) => return (result, spawned),
        }
    }
}

#[test]
fn launch_splits_the_command_line() {
    let mut config = program("sh -c 'echo \"hello world\"' last\\ word");
    config.env = Some(vec![("PORT".to_string(), "80".to_string())]);
    let manager = manager_with(vec![("web", config)]);
    match manager.start_process_single("web") {
        Ok(Launch::Spawn(spec)) => {
            assert_eq!(spec.program, "sh");
            assert_eq!(spec.args, vec!["-c", "echo \"hello world\"", "last word"]);
            assert_eq!(spec.env, vec![("PORT".to_string(), "80".to_string())]);
        }
        other => panic!("unexpected: {:?}", other),
    }
}

#[test]
fn launch_refuses_what_it_cannot_run() {
    let manager = manager_with(vec![("blank", program(" \t")), ("open", program("sh -c 'x"))]);
    assert!(matches!(
        manager.start_process_single("blank"),
        Err(ProcessError::EmptyCommand(name)) if name == "blank"
    ));
    assert!(matches!(
        manager.start_process_single("open"),
        Err(ProcessError::CommandSyntax(name)) if name == "open"
    ));
    assert!(matches!(
        manager.start_process_single("none"),
        Err(ProcessError::NotFound(name)) if name == "none"
    ));
}

#[test]
fn started_process_runs_until_it_is_stopped() {
    let mut config = program("a");
    config.log_forward = true;
    let mut manager = manager_with(vec![("a", config), ("b", program("b"))]);
    assert!(running(&manager).is_empty());

    let started = manager.finish_start("a", SpawnOutcome::Spawned(Some(42))).unwrap();
    assert!(started.log_forward);
    assert!(matches!(started.event, ProcessEvent::Started(name) if name == "a"));
    assert_eq!(running(&manager), vec!["a"]);
    assert!(matches!(
        manager.start_process_single("a"),
        Ok(Launch::AlreadyRunning)
    ));

    let termination = manager.stop_process("a").unwrap().unwrap();
    assert_eq!(termination.signal, Some(42));
    assert!(termination.abort_monitor);
    assert!(running(&manager).is_empty());
    assert!(manager.stop_process("a").unwrap().is_none());
}

#[test]
fn process_without_identifier_gets_no_signal() {
    let mut manager = manager_with(vec![("a", program("a"))]);
    manager.finish_start("a", SpawnOutcome::Spawned(None)).unwrap();
    let termination = manager.stop_process("a").unwrap().unwrap();
    assert_eq!(termination.signal, None);
    assert!(termination.abort_monitor);
}

#[test]
fn failed_spawn_changes_nothing() {
    let mut manager = manager_with(vec![("a", program("a"))]);
    assert!(matches!(
        manager.finish_start("a", SpawnOutcome::Failed),
        Err(ProcessError::Spawn(name)) if name == "a"
    ));
    assert!(matches!(
        manager.finish_start("x", SpawnOutcome::Spawned(Some(1))),
        Err(ProcessError::NotFound(name)) if name == "x"
    ));
    assert!(running(&manager).is_empty());
}

#[test]
fn stopping_an_unknown_program_is_an_error() {
    let mut manager = manager_with(vec![]);
    assert!(matches!(manager.stop_process("a"), Err(ProcessError::NotFound(_))));
    assert!(matches!(manager.restart_process("a"), Err(ProcessError::NotFound(_))));
}

#[test]
fn request_starts_everything_it_pulls_in() {
    let mut nginx = program("nginx");
    nginx.after = Some(vec!["webapp".to_string()]);
    nginx.wants = Some(vec!["webapp".to_string(), "bad-cache".to_string()]);
    let mut manager = manager_with(vec![
        ("nginx", nginx),
        ("webapp", program("webapp")),
        ("bad-cache", program("cache")),
        ("other", program("other")),
    ]);

    let (result, spawned) = carry_out(&mut manager, "nginx");
    assert!(result.is_ok());
    assert_eq!(spawned, vec!["webapp", "nginx"]);
    assert_eq!(running(&manager), vec!["nginx", "webapp"]);

    let (again, spawned) = carry_out(&mut manager, "nginx");
    assert!(again.is_ok());
    assert!(spawned.is_empty());
}

#[test]
fn request_fails_only_if_its_own_program_fails() {
    let mut bad = program("x");
    bad.after = Some(vec!["good".to_string()]);
    let mut good = program("y");
    good.after = Some(vec!["bad-dep".to_string(), "blank".to_string()]);
    let mut manager = manager_with(vec![
        ("bad", bad),
        ("good", good),
        ("bad-dep", program("z")),
        ("blank", program("")),
    ]);

    let (result, spawned) = carry_out(&mut manager, "bad");
    assert!(matches!(result, Err(ProcessError::Spawn(name)) if name == "bad"));
    assert_eq!(spawned, vec!["good"]);

    let (result, _) = carry_out(&mut manager, "blank");
    assert!(matches!(result, Err(ProcessError::EmptyCommand(name)) if name == "blank"));
    let (result, _) = carry_out(&mut manager, "good");
    assert!(result.is_ok());
    let (result, _) = carry_out(&mut manager, "none");
    assert!(matches!(result, Err(ProcessError::NotFound(name)) if name == "none"));
}

#[test]
fn restart_stops_and_pauses() {
    let mut manager = manager_with(vec![("a", program("a"))]);
    let idle = manager.restart_process("a").unwrap();
    assert!(idle.stop.is_none());
    assert_eq!(idle.pause_secs, 1);

    start(&mut manager, "a", 7);
    let restart = manager.restart_process("a").unwrap();
    assert_eq!(restart.stop.unwrap().signal, Some(7));
    assert_eq!(restart.pause_secs, RESTART_PAUSE_SECS);
    let (result, spawned) = carry_out(&mut manager, "a");
    assert!(result.is_ok());
    assert_eq!(spawned, vec!["a"]);
}

#[test]
fn autostart_passes_over_what_was_pulled_in() {
    let mut nginx = program("nginx");
    nginx.autostart = true;
    nginx.wants = Some(vec!["webapp".to_string(), "helper".to_string()]);
    let mut webapp = program("webapp");
    webapp.autostart = true;
    let mut last = program("last");
    last.autostart = true;
    let mut manager = manager_with(vec![
        ("nginx", nginx),
        ("webapp", webapp),
        ("helper", program("helper")),
        ("off", program("off")),
        ("last", last),
    ]);

    let mut session = manager.start_all_autostart();
    let mut asked = Vec::new();
    while let Some(name) = manager.next_autostart(&mut session) {
        let (result, _) = carry_out(&mut manager, &name);
        assert!(result.is_ok());
        asked.push(name);
    }
    assert_eq!(asked, vec!["nginx", "last"]);
    assert_eq!(running(&manager), vec!["nginx", "webapp", "helper", "last"]);
    assert!(manager.next_autostart(&mut session).is_none());
}

#[test]
fn stop_all_stops_whatever_runs() {
    let mut manager =
        manager_with(vec![("a", program("a")), ("b", program("b")), ("c", program("c"))]);
    start(&mut manager, "a", 1);
    start(&mut manager, "c", 3);
    let stopped: Vec<(String, Option<i32>)> = manager
        .stop_all()
        .into_iter()
        .map(|(name, termination)| (name, termination.signal))
        .collect();
    assert_eq!(
        stopped,
        vec![("a".to_string(), Some(1)), ("c".to_string(), Some(3))]
    );
    assert!(running(&manager).is_empty());
    assert!(manager.stop_all().is_empty());
}

#[test]
fn restart_policies() {
    let policy = |text: &str| Some(text.to_string());
    assert!(should_restart(&policy("always"), 0));
    assert!(should_restart(&policy("always"), 1));
    assert!(!should_restart(&policy("on-failure"), 0));
    assert!(should_restart(&policy("on-failure"), -1));
    assert!(!should_restart(&policy("never"), 1));
    assert!(!should_restart(&policy("Always"), 1));
    assert!(!should_restart(&None, 1));
}

#[test]
fn crashed_process_is_scheduled_for_restart() {
    let mut config = program("a");
    config.restart = Some("on-failure".to_string());
    let mut manager = manager_with(vec![("a", config), ("b", program("b"))]);
    start(&mut manager, "a", 5);
    start(&mut manager, "b", 6);

    let crash = Received::Event(ProcessEvent::Exited("a".to_string(), 1));
    let handled = manager.handle_single_event(crash);
    assert!(handled.handled);
    assert!(matches!(
        handled.action,
        EventAction::ScheduleRestart(name, secs) if name == "a" && secs == 2
    ));
    assert_eq!(RESTART_DELAY_SECS, 2);
    assert_eq!(running(&manager), vec!["b"]);
    // The process is gone: nobody is signalled any more.
    assert!(manager.stop_process("a").unwrap().is_none());

    let request = Received::Event(ProcessEvent::RestartRequested("a".to_string()));
    let handled = manager.handle_single_event(request);
    assert!(matches!(handled.action, EventAction::Start(name) if name == "a"));
    let (result, spawned) = carry_out(&mut manager, "a");
    assert!(result.is_ok());
    assert_eq!(spawned, vec!["a"]);
}

#[test]
fn other_events_call_for_nothing() {
    let mut config = program("a");
    config.restart = Some("on-failure".to_string());
    let mut manager = manager_with(vec![("a", config)]);
    start(&mut manager, "a", 5);

    let handled =
        manager.handle_single_event(Received::Event(ProcessEvent::Started("a".to_string())));
    assert!(handled.handled && matches!(handled.action, EventAction::Nothing));
    assert_eq!(running(&manager), vec!["a"]);

    let unknown = Received::Event(ProcessEvent::Exited("x".to_string(), 1));
    let handled = manager.handle_single_event(unknown);
    assert!(handled.handled && matches!(handled.action, EventAction::Nothing));

    let clean = Received::Event(ProcessEvent::Exited("a".to_string(), 0));
    let handled = manager.handle_single_event(clean);
    assert!(handled.handled && matches!(handled.action, EventAction::Nothing));
    assert!(running(&manager).is_empty());

    start(&mut manager, "a", 5);
    let failed = Received::Event(ProcessEvent::Failed("a".to_string(), "gone".to_string()));
    let handled = manager.handle_single_event(failed);
    assert!(handled.handled && matches!(handled.action, EventAction::Nothing));
    assert!(running(&manager).is_empty());

    assert!(!manager.handle_single_event(Received::Empty).handled);
    assert!(!manager.handle_single_event(Received::Disconnected).handled);
}

#[test]
fn exit_is_announced_with_its_code() {
    assert!(matches!(
        monitor_event("a", WaitOutcome::Exited(Some(3))),
        ProcessEvent::Exited(name, 3) if name == "a"
    ));
    assert!(matches!(
        monitor_event("a", WaitOutcome::Exited(None)),
        ProcessEvent::Exited(name, -1) if name == "a"
    ));
    assert!(matches!(
        monitor_event("a", WaitOutcome::Failed("no child".to_string())),
        ProcessEvent::Failed(name, reason) if name == "a" && reason == "no child"
    ));
}

#[test]
fn kept_lines_are_handed_out() {
    let mut talker = program("a");
    talker.log_forward = true;
    let mut manager = manager_with(vec![("a", talker), ("quiet", program("b"))]);
    let started = manager.finish_start("a", SpawnOutcome::Spawned(Some(4))).unwrap();
    for i in 0..1005u128 {
        manager.record_log(
            "a",
            started.generation,
            LogLine {
                timestamp_ms: i,
                source: LogSource::Stdout,
                message: format!("line {}", i),
            },
        );
    }
    let all = manager.get_recent_logs("a", 0).unwrap();
    assert_eq!(all.len(), 1000);
    assert_eq!(all[0].message, "line 5");
    let last = manager.get_recent_logs("a", 2).unwrap();
    assert_eq!(last.len(), 2);
    assert_eq!(last[0].message, "line 1003");
    assert_eq!(last[1].timestamp_ms, 1004);
    assert_eq!(manager.get_recent_logs("a", 5000).unwrap().len(), 1000);
    assert!(manager.subscribe_logs("a").is_ok());
}

#[test]
fn lines_that_are_not_kept_are_refused() {
    let manager = manager_with(vec![("quiet", program("b"))]);
    assert!(matches!(
        manager.get_recent_logs("quiet", 0),
        Err(ProcessError::LogForwardDisabled(name)) if name == "quiet"
    ));
    assert!(matches!(
        manager.subscribe_logs("quiet"),
        Err(ProcessError::LogForwardDisabled(name)) if name == "quiet"
    ));
    assert!(matches!(
        manager.get_recent_logs("none", 0),
        Err(ProcessError::NotFound(name)) if name == "none"
    ));
    assert!(matches!(
        manager.subscribe_logs("none"),
        Err(ProcessError::NotFound(name)) if name == "none"
    ));
}

#[test]
fn reloading_starts_over() {
    let mut manager = manager_with(vec![("a", program("a")), ("b", program("b"))]);
    start(&mut manager, "a", 1);
    start(&mut manager, "b", 2);
    manager.load_from_config(GlobalConfig {
        log_level: None,
        transport: TransportConfig::default(),
        program: vec![("a".to_string(), program("a2")), ("c".to_string(), program("c"))],
    });
    assert_eq!(
        manager.list_processes(),
        vec![
            ("a".to_string(), false),
            ("b".to_string(), true),
            ("c".to_string(), false),
        ]
    );
    match manager.start_process_single("a") {
        Ok(Launch::Spawn(spec)) => assert_eq!(spec.program, "a2"),
        other => panic!("unexpected: {:?}", other),
    }
}

#[test]
fn errors_in_words() {
    let name = || "web".to_string();
    assert_eq!(ProcessError::NotFound(name()).message(), "Program web not found");
    assert_eq!(
        ProcessError::CommandSyntax(name()).message(),
        "Failed to parse command for web"
    );
    assert_eq!(ProcessError::EmptyCommand(name()).message(), "Empty command for web");
    assert_eq!(ProcessError::Spawn(name()).message(), "Failed to spawn process web");
    assert_eq!(
        ProcessError::LogForwardDisabled(name()).message(),
        "Log forwarding is disabled for process 'web': set log_forward = true in its \
         configuration to enable GetLogs/cironctl logs"
    );
}

#[test]
fn lines_of_a_replaced_program_are_not_kept() {
    let talker = || {
        let mut config = program("a");
        config.log_forward = true;
        config
    };
    let line = |message: &str| LogLine {
        timestamp_ms: 1,
        source: LogSource::Stdout,
        message: message.to_string(),
    };
    let mut manager = manager_with(vec![("a", talker()), ("b", talker())]);
    let old = manager.finish_start("a", SpawnOutcome::Spawned(Some(1))).unwrap();
    let other = manager.finish_start("b", SpawnOutcome::Spawned(Some(2))).unwrap();
    manager.record_log("a", old.generation, line("before"));
    assert_eq!(manager.get_recent_logs("a", 0).unwrap().len(), 1);

    manager.load_from_config(GlobalConfig {
        log_level: None,
        transport: TransportConfig::default(),
        program: vec![("a".to_string(), talker())],
    });
    assert!(manager.get_recent_logs("a", 0).unwrap().is_empty());
    manager.record_log("a", old.generation, line("late"));
    assert!(manager.get_recent_logs("a", 0).unwrap().is_empty());

    let new = manager.finish_start("a", SpawnOutcome::Spawned(Some(3))).unwrap();
    manager.record_log("a", new.generation, line("fresh"));
    manager.record_log("b", other.generation, line("untouched"));
    let kept = manager.get_recent_logs("a", 0).unwrap();
    assert_eq!(kept.len(), 1);
    assert_eq!(kept[0].message, "fresh");
    assert_eq!(manager.get_recent_logs("b", 0).unwrap()[0].message, "untouched");
}

#[test]
fn running_programs_keep_their_process() {
    let mut root = program("root");
    root.wants = Some(vec!["dep".to_string()]);
    let mut manager = manager_with(vec![("root", root), ("dep", program("dep"))]);
    start(&mut manager, "dep", 77);
    let (result, spawned) = carry_out(&mut manager, "root");
    assert!(result.is_ok());
    assert_eq!(spawned, vec!["root"]);
    assert_eq!(manager.stop_process("dep").unwrap().unwrap().signal, Some(77));
    assert_eq!(manager.stop_process("root").unwrap().unwrap().signal, Some(1));
}

#[test]
fn exited_program_is_restarted_without_a_signal() {
    let mut manager = manager_with(vec![("a", program("a"))]);
    start(&mut manager, "a", 5);
    manager.handle_single_event(Received::Event(ProcessEvent::Exited("a".to_string(), 0)));
    assert!(manager.restart_process("a").unwrap().stop.is_none());
    let (result, _) = carry_out(&mut manager, "a");
    assert!(result.is_ok());
    assert_eq!(manager.stop_process("a").unwrap().unwrap().signal, Some(1));
}

#[test]
fn output_that_is_not_forwarded_is_not_kept() {
    let mut manager = manager_with(vec![("quiet", program("b"))]);
    let started = manager.finish_start("quiet", SpawnOutcome::Spawned(Some(1))).unwrap();
    assert!(!started.log_forward);
    manager.record_log(
        "quiet",
        started.generation,
        LogLine {
            timestamp_ms: 1,
            source: LogSource::Stdout,
            message: "x".to_string(),
        },
    );
    assert!(!format!("{:?}", manager).contains("timestamp_ms"));
}

#[test]
fn failed_dependency_is_tried_again_in_its_own_turn() {
    let mut first = program("first");
    first.autostart = true;
    first.wants = Some(vec!["second".to_string()]);
    let mut second = program("second");
    second.autostart = true;
    let mut manager = manager_with(vec![("first", first), ("second", second)]);

    let mut session = manager.start_all_autostart();
    let mut attempts = 0;
    while let Some(name) = manager.next_autostart(&mut session) {
        let mut request = manager.start_process(&name).unwrap();
        loop {
            match manager.next_start(&mut request) {
                StartStep::Spawn(unit, _) => {
                    let mut outcome = SpawnOutcome::Spawned(Some(1));
                    if unit == "second" {
                        attempts += 1;
                        if attempts == 1 {
                            outcome = SpawnOutcome::Failed;
                        }
                    }
                    let _ = manager.spawn_finished(&mut request, outcome);
                }
                StartStep::Finished(result) => {
                    assert!(result.is_ok());
                    break;
                }
                _ => {}
            }
        }
    }
    assert_eq!(attempts, 2);
    assert_eq!(running(&manager), vec!["first", "second"]);
}

#[test]
fn lines_may_be_kept_in_the_middle_of_a_request() {
    let mut dep = program("dep");
    dep.log_forward = true;
    let mut root = program("root");
    root.after = Some(vec!["dep".to_string()]);
    let mut manager = manager_with(vec![("root", root), ("dep", dep)]);

    let mut session = manager.start_process("root").unwrap();
    let mut generation = None;
    loop {
        if let Some(generation) = generation {
            manager.record_log(
                "dep",
                generation,
                LogLine {
                    timestamp_ms: 1,
                    source: LogSource::Stdout,
                    message: "up".to_string(),
                },
            );
        }
        match manager.next_start(&mut session) {
            StartStep::Spawn(unit, _) => {
                let started = manager
                    .spawn_finished(&mut session, SpawnOutcome::Spawned(Some(1)))
                    .unwrap();
                if unit == "dep" {
                    generation = Some(started.generation);
                }
            }
            StartStep::Finished(result) => {
                assert!(result.is_ok());
                break;
            }
            other => panic!("unexpected: {:?}", other),
        }
    }
    assert_eq!(running(&manager), vec!["root", "dep"]);
    assert_eq!(manager.get_recent_logs("dep", 0).unwrap().len(), 2);
}
