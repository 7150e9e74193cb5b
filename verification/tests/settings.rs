use ciron::command::{command_for, plan_command};
use ciron::config::{
    load_config, ConfigError, GlobalSettings, ProgramConfig, ProgramSettings, TransportConfig,
    TransportSettings,
};
use ciron::error::ProcessError;

fn nothing() -> ProgramSettings {
    ProgramSettings {
        command: None,
        autostart: None,
        restart: None,
        env: None,
        log_forward: None,
        after: None,
        wants: None,
    }
}

fn command(line: &str) -> ProgramSettings {
    ProgramSettings { command: Some(line.to_string()), ..nothing() }
}

fn configured(line: &str) -> ProgramConfig {
    ProgramConfig::complete(command(line)).unwrap()
}

#[test]
fn defaults_are_filled_in() {
    let config = load_config(GlobalSettings {
        log_level: None,
        transport: None,
        program: Some(vec![("a".to_string(), command("sleep 1"))]),
    })
    .unwrap();
    assert_eq!(config.log_level, None);
    assert!(config.transport.enable_unix);
    assert_eq!(config.transport.unix_socket_path, "/tmp/cirond.sock");
    assert!(!config.transport.enable_inet);
    assert_eq!(config.transport.inet_address, "127.0.0.1:50051");
    assert!(!config.transport.enable_vsock);
    assert_eq!(config.transport.vsock_cid, u32::MAX);
    assert_eq!(config.transport.vsock_port, 50051);
    let (name, program) = &config.program[0];
    assert_eq!(name, "a");
    assert_eq!(program.command, "sleep 1");
    assert!(!program.autostart && !program.log_forward);
    assert!(program.restart.is_none() && program.env.is_none());
    assert!(program.after.is_none() && program.wants.is_none());
}

#[test]
fn what_is_written_counts() {
    let config = load_config(GlobalSettings {
        log_level: Some("debug".to_string()),
        transport: Some(TransportSettings {
            enable_unix: Some(false),
            unix_socket_path: Some("/run/c.sock".to_string()),
            enable_inet: Some(true),
            inet_address: Some("0.0.0.0:1".to_string()),
            enable_vsock: Some(true),
            vsock_cid: Some(3),
            vsock_port: Some(4),
        }),
        program: Some(vec![(
            "a".to_string(),
            ProgramSettings {
                command: Some("x".to_string()),
                autostart: Some(true),
                restart: Some("always".to_string()),
                env: Some(vec![("K".to_string(), "V".to_string())]),
                log_forward: Some(true),
                after: Some(vec!["b".to_string()]),
                wants: Some(vec!["c".to_string()]),
            },
        )]),
    })
    .unwrap();
    assert_eq!(config.log_level.as_deref(), Some("debug"));
    assert!(!config.transport.enable_unix);
    assert_eq!(config.transport.unix_socket_path, "/run/c.sock");
    assert!(config.transport.enable_inet && config.transport.enable_vsock);
    assert_eq!(config.transport.inet_address, "0.0.0.0:1");
    assert_eq!((config.transport.vsock_cid, config.transport.vsock_port), (3, 4));
    let program = &config.program[0].1;
    assert!(program.autostart && program.log_forward);
    assert_eq!(program.restart.as_deref(), Some("always"));
    assert_eq!(program.env, Some(vec![("K".to_string(), "V".to_string())]));
    assert_eq!(program.after, Some(vec!["b".to_string()]));
    assert_eq!(program.wants, Some(vec!["c".to_string()]));
}

#[test]
fn programs_and_commands_are_required() {
    let missing = load_config(GlobalSettings { log_level: None, transport: None, program: None });
    let error = missing.unwrap_err();
    assert!(matches!(error, ConfigError::MissingPrograms));
    assert_eq!(error.message(), "missing field `program`");

    let incomplete = load_config(GlobalSettings {
        log_level: None,
        transport: None,
        program: Some(vec![
            ("a".to_string(), command("x")),
            ("b".to_string(), nothing()),
            ("c".to_string(), nothing()),
        ]),
    });
    let error = incomplete.unwrap_err();
    assert!(matches!(&error, ConfigError::MissingCommand(name) if name == "b"));
    assert_eq!(error.message(), "missing field `command` for program b");

    let none = load_config(GlobalSettings {
        log_level: None,
        transport: None,
        program: Some(vec![]),
    });
    assert!(none.unwrap().program.is_empty());
}

#[test]
fn transport_section_without_entries_is_the_default() {
    let empty = TransportSettings {
        enable_unix: None,
        unix_socket_path: None,
        enable_inet: None,
        inet_address: None,
        enable_vsock: None,
        vsock_cid: None,
        vsock_port: None,
    };
    let complete = TransportConfig::complete(empty);
    let default = TransportConfig::default();
    assert_eq!(format!("{:?}", complete), format!("{:?}", default));
}

#[test]
fn command_line_is_split_into_words() {
    let plan = command_for("web", &configured("python3 -m 'http server' \"8 0\"")).unwrap();
    assert_eq!(plan.program, "python3");
    assert_eq!(plan.args, vec!["-m", "http server", "8 0"]);
    assert!(plan.env.is_empty());

    let single = command_for("web", &configured("nginx")).unwrap();
    assert_eq!(single.program, "nginx");
    assert!(single.args.is_empty());

    assert!(matches!(
        command_for("web", &configured("\n")),
        Err(ProcessError::EmptyCommand(name)) if name == "web"
    ));
    assert!(matches!(
        command_for("web", &configured("a \"b")),
        Err(ProcessError::CommandSyntax(name)) if name == "web"
    ));
}

#[test]
fn words_become_program_and_arguments() {
    let config = configured("ignored");
    let words = vec!["a".to_string(), "".to_string(), "c d".to_string()];
    let plan = plan_command("n", &config, Some(words)).unwrap();
    assert_eq!(plan.program, "a");
    assert_eq!(plan.args, vec!["", "c d"]);
    assert!(matches!(
        plan_command("n", &config, Some(vec![])),
        Err(ProcessError::EmptyCommand(_))
    ));
    assert!(matches!(
        plan_command("n", &config, None),
        Err(ProcessError::CommandSyntax(_))
    ));
}

#[test]
fn simple_lines_are_split_at_blanks() {
    let plan = command_for("n", &configured("  a\tb\n\nc  ")).unwrap();
    assert_eq!(plan.program, "a");
    assert_eq!(plan.args, vec!["b", "c"]);
    let carriage = command_for("n", &configured("a\rb")).unwrap();
    assert_eq!(carriage.program, "a\rb");
}

#[test]
fn comments_and_backslashes_mean_something() {
    let plan = command_for("n", &configured("a\\ b c#d # e 'f")).unwrap();
    assert_eq!(plan.program, "a b");
    assert_eq!(plan.args, vec!["c#d"]);
}
