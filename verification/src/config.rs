//! What the daemon is configured with.

use vstd::prelude::*;
use vstd::string::*;

verus! {

/// The whole configuration.
#[derive(Debug)]
pub struct GlobalConfig {
    pub log_level: Option<String>,
    pub transport: TransportConfig,
    /// The programs by name. Where a name occurs twice, the later one counts.
    pub program: Vec<(String, ProgramConfig)>,
}

/// The addresses at which the daemon can be reached.
#[derive(Debug)]
pub struct TransportConfig {
    pub enable_unix: bool,
    pub unix_socket_path: String,
    pub enable_inet: bool,
    pub inet_address: String,
    pub enable_vsock: bool,
    pub vsock_cid: u32,
    pub vsock_port: u32,
}

/// One program.
#[derive(Debug)]
pub struct ProgramConfig {
    /// The command line, quoted as for a shell.
    pub command: String,
    /// Whether the daemon starts the program when it comes up.
    pub autostart: bool,
    /// When the program is started again after it exits: `always`, `on-failure`,
    /// or never.
    pub restart: Option<String>,
    /// Environment variables that the program gets in addition.
    pub env: Option<Vec<(String, String)>>,
    /// When true, the output of the process is forwarded into the log of the daemon
    /// and kept in a buffer, so that it can be asked for. Otherwise the pipes are
    /// still drained, so that the child never blocks, but nothing is recorded.
    pub log_forward: bool,
    /// Programs that are started before this one.
    pub after: Option<Vec<String>>,
    /// Programs that are started alongside this one.
    pub wants: Option<Vec<String>>,
}

/// The configuration as it was written down: anything may be missing.
#[derive(Debug)]
pub struct GlobalSettings {
    pub log_level: Option<String>,
    pub transport: Option<TransportSettings>,
    pub program: Option<Vec<(String, ProgramSettings)>>,
}

/// The transport section as it was written down.
#[derive(Debug)]
pub struct TransportSettings {
    pub enable_unix: Option<bool>,
    pub unix_socket_path: Option<String>,
    pub enable_inet: Option<bool>,
    pub inet_address: Option<String>,
    pub enable_vsock: Option<bool>,
    pub vsock_cid: Option<u32>,
    pub vsock_port: Option<u32>,
}

/// The section of one program as it was written down.
#[derive(Debug)]
pub struct ProgramSettings {
    pub command: Option<String>,
    pub autostart: Option<bool>,
    pub restart: Option<String>,
    pub env: Option<Vec<(String, String)>>,
    pub log_forward: Option<bool>,
    pub after: Option<Vec<String>>,
    pub wants: Option<Vec<String>>,
}

/// What is wrong with a configuration.
#[derive(Debug)]
pub enum ConfigError {
    /// There is no section with programs.
    MissingPrograms,
    /// The program of that name has no command.
    MissingCommand(String),
}

impl ConfigError {
    /// The error in words.
    pub open spec fn text(self) -> Seq<char> {
        match self {
            ConfigError::MissingPrograms => "missing field `program`"@,
            ConfigError::MissingCommand(name) => "missing field `command` for program "@ + name@,
        }
    }

    /// The error in words.
    pub fn message(&self) -> (message: String)
        ensures
            message@ == self.text(),
    {
        match self {
            ConfigError::MissingPrograms => "missing field `program`".to_owned(),
            ConfigError::MissingCommand(name) => {
                let mut message: String = "missing field `command` for program ".to_owned();
                message.append(name.as_str());
                message
            },
        }
    }
}

/// The value of a switch that is on unless it is turned off.
pub fn default_true() -> (value: bool)
    ensures
        value,
{
    true
}

/// The Unix socket at which the daemon listens unless told otherwise.
pub fn default_unix_socket_path() -> (path: String)
    ensures
        path@ == "/tmp/cirond.sock"@,
{
    "/tmp/cirond.sock".to_owned()
}

/// The network address at which the daemon listens unless told otherwise.
pub fn default_inet_address() -> (address: String)
    ensures
        address@ == "127.0.0.1:50051"@,
{
    "127.0.0.1:50051".to_owned()
}

/// The context identifier unless told otherwise: any.
pub fn default_vsock_cid() -> (cid: u32)
    ensures
        cid == u32::MAX,
{
    u32::MAX
}

/// The vsock port unless told otherwise.
pub fn default_vsock_port() -> (port: u32)
    ensures
        port == 50051,
{
    50051
}

impl TransportConfig {
    /// The daemon can be reached at its Unix socket alone, and all addresses are the
    /// usual ones.
    pub open spec fn is_default(self) -> bool {
        &&& self.enable_unix
        &&& self.unix_socket_path@ == "/tmp/cirond.sock"@
        &&& !self.enable_inet
        &&& self.inet_address@ == "127.0.0.1:50051"@
        &&& !self.enable_vsock
        &&& self.vsock_cid == u32::MAX
        &&& self.vsock_port == 50051
    }

    /// This is what `settings` say, with the default for each value that is missing.
    pub open spec fn is_completed(self, settings: TransportSettings) -> bool {
        &&& self.enable_unix == settings.enable_unix.unwrap_or(true)
        &&& self.unix_socket_path@ == (match settings.unix_socket_path {
            Some(path) => path@,
            None => "/tmp/cirond.sock"@,
        })
        &&& self.enable_inet == settings.enable_inet.unwrap_or(false)
        &&& self.inet_address@ == (match settings.inet_address {
            Some(address) => address@,
            None => "127.0.0.1:50051"@,
        })
        &&& self.enable_vsock == settings.enable_vsock.unwrap_or(false)
        &&& self.vsock_cid == settings.vsock_cid.unwrap_or(u32::MAX)
        &&& self.vsock_port == settings.vsock_port.unwrap_or(50051)
    }

    /// Fills in what is missing.
    pub fn complete(settings: TransportSettings) -> (config: TransportConfig)
        ensures
            config.is_completed(settings),
    {
        TransportConfig {
            enable_unix: match settings.enable_unix {
                Some(enabled) => enabled,
                None => default_true(),
            },
            unix_socket_path: match settings.unix_socket_path {
                Some(path) => path,
                None => default_unix_socket_path(),
            },
            enable_inet: match settings.enable_inet {
                Some(enabled) => enabled,
                None => false,
            },
            inet_address: match settings.inet_address {
                Some(address) => address,
                None => default_inet_address(),
            },
            enable_vsock: match settings.enable_vsock {
                Some(enabled) => enabled,
                None => false,
            },
            vsock_cid: match settings.vsock_cid {
                Some(cid) => cid,
                None => default_vsock_cid(),
            },
            vsock_port: match settings.vsock_port {
                Some(port) => port,
                None => default_vsock_port(),
            },
        }
    }
}

impl Default for TransportConfig {
    fn default() -> (config: Self)
        ensures
            config.is_default(),
    {
        TransportConfig {
            enable_unix: true,
            unix_socket_path: default_unix_socket_path(),
            enable_inet: false,
            inet_address: default_inet_address(),
            enable_vsock: false,
            vsock_cid: default_vsock_cid(),
            vsock_port: default_vsock_port(),
        }
    }
}

impl ProgramConfig {
    /// This is what `settings` say. Switches that are missing are off.
    pub open spec fn is_completed(self, settings: ProgramSettings) -> bool {
        &&& settings.command == Some(self.command)
        &&& self.autostart == settings.autostart.unwrap_or(false)
        &&& self.restart == settings.restart
        &&& self.env == settings.env
        &&& self.log_forward == settings.log_forward.unwrap_or(false)
        &&& self.after == settings.after
        &&& self.wants == settings.wants
    }

    /// Fills in what is missing. Without a command there is nothing to run.
    pub fn complete(settings: ProgramSettings) -> (config: Option<ProgramConfig>)
        ensures
            match config {
                Some(c) => c.is_completed(settings),
                None => settings.command is None,
            },
    {
        match settings.command {
            None => None,
            Some(command) => Some(
                ProgramConfig {
                    command,
                    autostart: match settings.autostart {
                        Some(on) => on,
                        None => false,
                    },
                    restart: settings.restart,
                    env: settings.env,
                    log_forward: match settings.log_forward {
                        Some(on) => on,
                        None => false,
                    },
                    after: settings.after,
                    wants: settings.wants,
                },
            ),
        }
    }
}

/// `programs` are `settings`, one by one, completed.
pub open spec fn programs_completed(
    programs: Seq<(String, ProgramConfig)>,
    settings: Seq<(String, ProgramSettings)>,
) -> bool {
    &&& programs.len() == settings.len()
    &&& forall|i: int|
        0 <= i < settings.len() ==> (#[trigger] programs[i]).0 == settings[i].0
            && programs[i].1.is_completed(settings[i].1)
}

/// The name of the first program without a command.
pub open spec fn first_without_command(
    settings: Seq<(String, ProgramSettings)>,
    name: Seq<char>,
) -> bool {
    exists|i: int|
        0 <= i < settings.len() && (#[trigger] settings[i]).1.command is None && settings[i].0@
            == name && forall|j: int|
            0 <= j < i ==> (#[trigger] settings[j]).1.command is Some
}

/// Turns what was written down into a configuration. The section with the programs
/// and the command of each program have to be there; whatever else is missing has a
/// default.
pub fn load_config(settings: GlobalSettings) -> (config: Result<GlobalConfig, ConfigError>)
    ensures
        match config {
            Ok(c) => {
                &&& settings.program is Some
                &&& programs_completed(c.program@, settings.program->0@)
                &&& c.log_level == settings.log_level
                &&& match settings.transport {
                    Some(transport) => c.transport.is_completed(transport),
                    None => c.transport.is_default(),
                }
            },
            Err(ConfigError::MissingPrograms) => settings.program is None,
            Err(ConfigError::MissingCommand(name)) => settings.program is Some
                && first_without_command(settings.program->0@, name@),
        },
{
    let ghost given = settings;
    let transport: TransportConfig = match settings.transport {
        Some(transport) => TransportConfig::complete(transport),
        None => TransportConfig::default(),
    };
    match settings.program {
        None => Err(ConfigError::MissingPrograms),
        Some(written) => {
            let ghost all = written@;
            let mut program: Vec<(String, ProgramConfig)> = Vec::new();
            for entry in iter: written
                invariant
                    given == settings,
                    given.program is Some,
                    all == given.program->0@,
                    iter.seq() == all,
                    program.len() == iter.index(),
                    forall|i: int|
                        0 <= i < program.len() ==> (#[trigger] program[i]).0 == all[i].0
                            && program[i].1.is_completed(all[i].1),
            {
                let (name, section) = entry;
                match ProgramConfig::complete(section) {
                    Some(complete) => {
                        program.push((name, complete));
                    },
                    None => {
                        proof {
                            let at = iter.index();
                            assert(all[at].1.command is None);
                            assert forall|j: int| 0 <= j < at implies (
                            #[trigger] all[j]).1.command is Some by {
                                assert(program[j].1.is_completed(all[j].1));
                            }
                        }
                        return Err(ConfigError::MissingCommand(name));
                    },
                }
            }
            Ok(GlobalConfig { log_level: settings.log_level, transport, program })
        },
    }
}

} // verus!
