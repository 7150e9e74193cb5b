use ciron::config::{GlobalConfig, ProgramConfig, TransportConfig};
use ciron::error::ProcessError;
use ciron::process::ProcessManager;

fn program(command: &str) -> ProgramConfig {
    ProgramConfig {
        command: command.to_string(),
        autostart: false,
        restart: None,
        env: None,
        log_forward: false,
        after: None,
        wants: None,
    }
}

fn listing(after: &[&str], wants: &[&str]) -> ProgramConfig {
    let mut config = program("true");
    config.after = Some(after.iter().map(|n| n.to_string()).collect());
    config.wants = Some(wants.iter().map(|n| n.to_string()).collect());
    config
}

fn manager_with(programs: Vec<(&str, ProgramConfig)>) -> ProcessManager {
    let mut manager = ProcessManager::new();
    let program = programs
        .into_iter()
        .map(|(name, config)| (name.to_string(), config))
        .collect();
    manager.load_from_config(GlobalConfig {
        log_level: None,
        transport: TransportConfig::default(),
        program,
    });
    manager
}

#[test]
fn after_dependency_is_started_first() {
    let mut b = program("b");
    b.after = Some(vec!["a".to_string()]);
    let manager = manager_with(vec![("a", program("a")), ("b", b)]);

    let order = manager.resolve_start_order("b").unwrap();
    assert_eq!(order, vec!["a".to_string(), "b".to_string()]);
}

#[test]
fn after_chains_transitively() {
    // c after b after a: must start in the order a, b, c.
    let mut b = program("b");
    b.after = Some(vec!["a".to_string()]);
    let mut c = program("c");
    c.after = Some(vec!["b".to_string()]);
    let manager = manager_with(vec![("a", program("a")), ("b", b), ("c", c)]);

    let order = manager.resolve_start_order("c").unwrap();
    assert_eq!(
        order,
        vec!["a".to_string(), "b".to_string(), "c".to_string()]
    );
}

#[test]
fn wants_pulls_in_the_wanted_program() {
    let mut a = program("a");
    a.wants = Some(vec!["b".to_string()]);
    let manager = manager_with(vec![("a", a), ("b", program("b"))]);

    let order = manager.resolve_start_order("a").unwrap();
    assert_eq!(order.len(), 2);
    assert!(order.contains(&"a".to_string()));
    assert!(order.contains(&"b".to_string()));
}

#[test]
fn wants_alone_does_not_impose_ordering() {
    // With no `after`, `a` is free to start before or after the program
    // it wants; only its own presence in the closure is guaranteed.
    let mut a = program("a");
    a.wants = Some(vec!["b".to_string()]);
    let manager = manager_with(vec![("a", a), ("b", program("b"))]);

    let order = manager.resolve_start_order("a").unwrap();
    assert_eq!(order[0], "a");
}

#[test]
fn unknown_dependencies_are_ignored() {
    let mut a = program("a");
    a.after = Some(vec!["missing".to_string()]);
    a.wants = Some(vec!["also-missing".to_string()]);
    let manager = manager_with(vec![("a", a)]);

    let order = manager.resolve_start_order("a").unwrap();
    assert_eq!(order, vec!["a".to_string()]);
}

#[test]
fn unknown_root_is_an_error() {
    let manager = manager_with(vec![]);
    assert!(manager.resolve_start_order("missing").is_err());
}

#[test]
fn after_cycle_is_broken_without_losing_any_process() {
    let mut a = program("a");
    a.after = Some(vec!["b".to_string()]);
    let mut b = program("b");
    b.after = Some(vec!["a".to_string()]);
    let manager = manager_with(vec![("a", a), ("b", b)]);

    let mut order = manager.resolve_start_order("a").unwrap();
    order.sort();
    assert_eq!(order, vec!["a".to_string(), "b".to_string()]);
}

#[test]
fn root_appears_only_once_when_it_is_also_wanted() {
    // `a` wants `b`, and `b` happens to list `a` back via `after`. `a` is
    // both the root and a dependency of `b`, but must only appear once.
    let mut a = program("a");
    a.wants = Some(vec!["b".to_string()]);
    let mut b = program("b");
    b.after = Some(vec!["a".to_string()]);
    let manager = manager_with(vec![("a", a), ("b", b)]);

    let order = manager.resolve_start_order("a").unwrap();
    assert_eq!(order, vec!["a".to_string(), "b".to_string()]);
}

#[test]
fn unknown_root_is_reported_by_name() {
    let manager = manager_with(vec![("a", program("a"))]);
    match manager.resolve_start_order("b") {
        Err(ProcessError::NotFound(name)) => assert_eq!(name, "b"),
        other => panic!("unexpected: {:?}", other),
    }
}

#[test]
fn nginx_comes_after_webapp() {
    let manager = manager_with(vec![
        ("nginx", listing(&["webapp"], &["webapp"])),
        ("webapp", program("python3 app.py")),
    ]);
    assert_eq!(
        manager.resolve_start_order("nginx").unwrap(),
        vec!["webapp", "nginx"]
    );
    assert_eq!(manager.resolve_start_order("webapp").unwrap(), vec!["webapp"]);
}

#[test]
fn diamond_is_started_breadth_first() {
    let manager = manager_with(vec![
        ("top", listing(&["left", "right"], &[])),
        ("left", listing(&["base"], &[])),
        ("right", listing(&["base"], &[])),
        ("base", program("base")),
        ("alone", program("alone")),
    ]);
    assert_eq!(
        manager.resolve_start_order("top").unwrap(),
        vec!["base", "left", "right", "top"]
    );
}

#[test]
fn cycle_and_what_hangs_on_it_come_last() {
    // `x` and `y` wait for each other, `root` waits for `x`; `free` waits for nobody.
    let manager = manager_with(vec![
        ("root", listing(&["x"], &["free"])),
        ("x", listing(&["y"], &[])),
        ("y", listing(&["x"], &[])),
        ("free", program("free")),
    ]);
    assert_eq!(
        manager.resolve_start_order("root").unwrap(),
        vec!["free", "root", "x", "y"]
    );
}

#[test]
fn a_program_after_itself_is_still_started() {
    let manager = manager_with(vec![("a", listing(&["a"], &[]))]);
    assert_eq!(manager.resolve_start_order("a").unwrap(), vec!["a"]);
}

#[test]
fn repeated_names_count_once() {
    let manager = manager_with(vec![
        ("a", listing(&["b", "b"], &["b", "c"])),
        ("b", program("b")),
        ("c", program("c")),
    ]);
    assert_eq!(
        manager.resolve_start_order("a").unwrap(),
        vec!["b", "c", "a"]
    );
}

#[test]
fn reloading_a_program_replaces_its_lists() {
    let mut manager = manager_with(vec![("a", listing(&["b"], &[])), ("b", program("b"))]);
    assert_eq!(manager.resolve_start_order("a").unwrap(), vec!["b", "a"]);
    manager.load_from_config(GlobalConfig {
        log_level: None,
        transport: TransportConfig::default(),
        program: vec![("a".to_string(), program("a"))],
    });
    assert_eq!(manager.resolve_start_order("a").unwrap(), vec!["a"]);
    assert_eq!(manager.list_processes().len(), 2);
}

#[test]
fn unknown_names_and_cycles_are_warned_about() {
    let manager = manager_with(vec![
        ("a", listing(&["b", "ghost"], &["ghost", "phantom"])),
        ("b", listing(&["a"], &["spirit"])),
        ("c", listing(&[], &["ghost"])),
        ("d", program("d")),
    ]);
    assert_eq!(
        manager.start_warnings("a"),
        vec![
            "Process 'a' references unknown program 'ghost' in after/wants",
            "Process 'a' references unknown program 'ghost' in after/wants",
            "Process 'a' references unknown program 'phantom' in after/wants",
            "Process 'b' references unknown program 'spirit' in after/wants",
            "Dependency cycle detected in 'after' configuration while starting 'a'; \
             starting remaining processes in their original order",
        ]
    );
    assert_eq!(manager.start_warnings("c").len(), 1);
    assert!(manager.start_warnings("d").is_empty());
    assert!(manager.start_warnings("ghost").is_empty());
}

#[test]
fn unknown_names_do_not_change_the_order() {
    let with = manager_with(vec![
        ("a", listing(&["x", "b", "y"], &["z"])),
        ("b", program("b")),
    ]);
    let without = manager_with(vec![("a", listing(&["b"], &[])), ("b", program("b"))]);
    assert_eq!(
        with.resolve_start_order("a").unwrap(),
        without.resolve_start_order("a").unwrap()
    );
}
