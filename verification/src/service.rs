//! What the daemon answers to requests.

use crate::error::ProcessError;
use crate::logs::{self, LogLine, LogSource};
use crate::process::{self, ProcessManager, Restart, StartSession, Termination};
use crate::text;
use crate::transport::{self, TransportModel};
use vstd::prelude::*;
use vstd::string::*;

verus! {

/// What a process does, as far as an answer says.
#[derive(Debug, Clone, Copy, PartialEq, Eq, Structural)]
pub enum ProcessState {
    Stopped,
    Starting,
    Running,
    Stopping,
    Failed,
    Exited,
}

impl ProcessState {
    /// The number that stands for the state in an answer.
    pub open spec fn number(self) -> i32 {
        match self {
            ProcessState::Stopped => 1,
            ProcessState::Starting => 2,
            ProcessState::Running => 3,
            ProcessState::Stopping => 4,
            ProcessState::Failed => 5,
            ProcessState::Exited => 6,
        }
    }

    /// The number that stands for the state in an answer.
    pub fn code(&self) -> (code: i32)
        ensures
            code == self.number(),
    {
        match self {
            ProcessState::Stopped => 1,
            ProcessState::Starting => 2,
            ProcessState::Running => 3,
            ProcessState::Stopping => 4,
            ProcessState::Failed => 5,
            ProcessState::Exited => 6,
        }
    }
}

/// How a process is configured, as far as an answer says.
#[derive(Debug)]
pub struct ProcessConfig {
    pub command: String,
    pub autostart: bool,
    pub restart_policy: Option<String>,
    pub env: Vec<(String, String)>,
    pub working_directory: Option<String>,
    pub user: Option<String>,
    pub group: Option<String>,
}

impl ProcessConfig {
    /// Nothing is said.
    pub open spec fn is_blank(self) -> bool {
        &&& self.command@ == Seq::<char>::empty()
        &&& !self.autostart
        &&& self.restart_policy is None
        &&& self.env@.len() == 0
        &&& self.working_directory is None
        &&& self.user is None
        &&& self.group is None
    }

    /// A configuration of which nothing is said.
    fn blank() -> (config: Self)
        ensures
            config.is_blank(),
    {
        ProcessConfig {
            command: String::new(),
            autostart: false,
            restart_policy: None,
            env: Vec::new(),
            working_directory: None,
            user: None,
            group: None,
        }
    }
}

/// What is said of one process.
#[derive(Debug)]
pub struct ProcessStatus {
    pub name: String,
    /// The number of a `ProcessState`.
    pub state: i32,
    pub pid: Option<i32>,
    pub started_at: Option<String>,
    pub uptime_seconds: Option<i32>,
    pub restart_count: Option<i32>,
    pub config: Option<ProcessConfig>,
}

/// The state of a process that runs, or does not.
pub open spec fn state_of(running: bool) -> ProcessState {
    if running {
        ProcessState::Running
    } else {
        ProcessState::Stopped
    }
}

impl ProcessStatus {
    /// Only the name and whether the process runs are said.
    pub open spec fn says(self, name: Seq<char>, running: bool) -> bool {
        &&& self.name@ == name
        &&& self.state == state_of(running).number()
        &&& self.pid is None
        &&& self.started_at is None
        &&& self.uptime_seconds is None
        &&& self.restart_count is None
    }

    /// The answer to a question about a process: its configuration is left blank.
    pub open spec fn is_report(self, name: Seq<char>, running: bool) -> bool {
        &&& self.says(name, running)
        &&& self.config matches Some(config) && config.is_blank()
    }

    /// The answer to a request that made the process run: its configuration is left out.
    pub open spec fn is_confirmation(self, name: Seq<char>) -> bool {
        &&& self.says(name, true)
        &&& self.config is None
    }

    /// Says whether the process `name` runs.
    fn report(name: String, running: bool) -> (status: Self)
        ensures
            status.is_report(name@, running),
    {
        let state: ProcessState = if running {
            ProcessState::Running
        } else {
            ProcessState::Stopped
        };
        ProcessStatus {
            name,
            state: state.code(),
            pid: None,
            started_at: None,
            uptime_seconds: None,
            restart_count: None,
            config: Some(ProcessConfig::blank()),
        }
    }

    /// Confirms that the process `name` runs.
    fn confirmation(name: &str) -> (status: Self)
        ensures
            status.is_confirmation(name@),
    {
        ProcessStatus {
            name: name.to_owned(),
            state: ProcessState::Running.code(),
            pid: None,
            started_at: None,
            uptime_seconds: None,
            restart_count: None,
            config: None,
        }
    }
}

/// The kind of an address.
#[derive(Debug, Clone, Copy, PartialEq, Eq, Structural)]
pub enum TransportType {
    Unspecified,
    Inet,
    Unix,
    Vsock,
}

/// An address, with its kind.
#[derive(Debug)]
pub struct TransportInfo {
    pub transport_type: TransportType,
    pub address: String,
}

/// The kind of an address, told from how it begins.
pub open spec fn transport_type(address: Seq<char>) -> TransportType {
    if "inet://"@.is_prefix_of(address) || "tcp://"@.is_prefix_of(address) {
        TransportType::Inet
    } else if "unix://"@.is_prefix_of(address) {
        TransportType::Unix
    } else if "vsock://"@.is_prefix_of(address) {
        TransportType::Vsock
    } else {
        TransportType::Unspecified
    }
}

/// The kind of an address is recognized in what is written for it.
pub proof fn law_written_address_keeps_its_type(address: TransportModel)
    ensures
        transport_type(transport::written(address)) == (match address {
            TransportModel::Inet { .. } => TransportType::Inet,
            TransportModel::Unix { .. } => TransportType::Unix,
            TransportModel::Vsock { .. } => TransportType::Vsock,
        }),
{
    reveal_strlit("inet://");
    reveal_strlit("tcp://");
    reveal_strlit("unix://");
    reveal_strlit("vsock://");
    let text = transport::written(address);
    match address {
        TransportModel::Inet { .. } => {
            assert(text.subrange(0, "inet://"@.len() as int) =~= "inet://"@);
        },
        TransportModel::Unix { .. } => {
            assert(text.subrange(0, "unix://"@.len() as int) =~= "unix://"@);
            assert(text[0] == 'u');
        },
        TransportModel::Vsock { .. } => {
            assert(text.subrange(0, "vsock://"@.len() as int) =~= "vsock://"@);
            assert(text[0] == 'v');
        },
    }
}

/// What is said of the daemon.
#[derive(Debug)]
pub struct DaemonInfo {
    pub version: String,
    /// Seconds since the Unix epoch, or nothing where the clock stood before it.
    pub started_at: String,
    pub uptime_seconds: i32,
    pub config_file: String,
    pub total_processes: i32,
    pub running_processes: i32,
    pub stopped_processes: i32,
    pub transport: Option<TransportInfo>,
}

/// The answer to the question how everything stands.
#[derive(Debug)]
pub struct GetStatusResponse {
    pub processes: Vec<ProcessStatus>,
    pub daemon_info: Option<DaemonInfo>,
}

/// The answer to a request to start a process.
#[derive(Debug)]
pub struct StartProcessResponse {
    pub success: bool,
    pub message: String,
    pub status: Option<ProcessStatus>,
}

/// The answer to a request to stop a process.
#[derive(Debug)]
pub struct StopProcessResponse {
    pub success: bool,
    pub message: String,
}

/// The answer to a request to restart a process.
#[derive(Debug)]
pub struct RestartProcessResponse {
    pub success: bool,
    pub message: String,
    pub status: Option<ProcessStatus>,
}

/// How much a line of a process matters.
#[derive(Debug, Clone, Copy, PartialEq, Eq, Structural)]
pub enum LogLevel {
    Info,
    Warn,
}

/// A line of a process, as it is sent.
#[derive(Debug)]
pub struct LogEntry {
    pub timestamp: String,
    pub level: LogLevel,
    pub source: String,
    pub message: String,
}

impl LogEntry {
    /// This is how that line is sent.
    pub open spec fn is_entry(self, line: LogLine) -> bool {
        &&& self.timestamp@ == text::decimal(line.timestamp_ms as nat)
        &&& self.level == (match line.source {
            LogSource::Stdout => LogLevel::Info,
            LogSource::Stderr => LogLevel::Warn,
        })
        &&& self.source@ == line.source.text()
        &&& self.message@ == line.message@
    }
}

/// A line of a process, as it is sent.
pub fn to_log_entry(line: &LogLine) -> (entry: LogEntry)
    ensures
        entry.is_entry(*line),
{
    LogEntry {
        timestamp: text::to_decimal(line.timestamp_ms),
        level: match line.source {
            LogSource::Stdout => LogLevel::Info,
            LogSource::Stderr => LogLevel::Warn,
        },
        source: line.source.as_str().to_owned(),
        message: line.message.clone(),
    }
}

/// The answer to a request for the lines of a process.
#[derive(Debug)]
pub struct LogsReply {
    /// What is sent at once.
    pub entries: Vec<LogEntry>,
    /// Whether new lines are sent as they come.
    pub follow: bool,
}

/// Why a request is not answered.
#[derive(Debug)]
pub enum ServiceError {
    /// There is no such thing, for the reason that is given.
    NotFound(String),
}

impl ServiceError {
    /// There is no such thing, for that reason.
    pub open spec fn is_not_found(self, reason: Seq<char>) -> bool {
        self matches ServiceError::NotFound(r) && r@ == reason
    }
}

/// The message of a request on the process `name` that went well.
pub open spec fn success_text(name: Seq<char>, participle: Seq<char>) -> Seq<char> {
    "Process '"@ + name + "' "@ + participle + " successfully"@
}

/// The message of a request on the process `name` that failed.
pub open spec fn failure_text(verb: Seq<char>, name: Seq<char>, reason: Seq<char>) -> Seq<char> {
    "Failed to "@ + verb + " process '"@ + name + "': "@ + reason
}

/// The message of a request on the process `name` that went well.
fn success_message(name: &str, participle: &str) -> (message: String)
    ensures
        message@ == success_text(name@, participle@),
{
    let mut message: String = "Process '".to_owned();
    message.append(name);
    message.append("' ");
    message.append(participle);
    message.append(" successfully");
    message
}

/// The message of a request on the process `name` that failed.
fn failure_message(verb: &str, name: &str, error: &ProcessError) -> (message: String)
    ensures
        message@ == failure_text(verb@, name@, error.text()),
{
    let mut message: String = "Failed to ".to_owned();
    let reason: String = error.message();
    message.append(verb);
    message.append(" process '");
    message.append(name);
    message.append("': ");
    message.append(reason.as_str());
    message
}

impl StartProcessResponse {
    /// This is what the request to start the process `name` is answered with.
    pub open spec fn answers(self, name: Seq<char>, result: Result<(), ProcessError>) -> bool {
        &&& self.success == (result is Ok)
        &&& match result {
            Ok(_) => {
                &&& self.message@ == success_text(name, "started"@)
                &&& self.status matches Some(status) && status.is_confirmation(name)
            },
            Err(e) => {
                &&& self.message@ == failure_text("start"@, name, e.text())
                &&& self.status is None
            },
        }
    }

    /// The answer to the request to start the process `name`.
    pub fn new(name: &str, result: &Result<(), ProcessError>) -> (response: Self)
        ensures
            response.answers(name@, *result),
    {
        match result {
            Ok(_) => StartProcessResponse {
                success: true,
                message: success_message(name, "started"),
                status: Some(ProcessStatus::confirmation(name)),
            },
            Err(e) => StartProcessResponse {
                success: false,
                message: failure_message("start", name, e),
                status: None,
            },
        }
    }
}

impl StopProcessResponse {
    /// This is what the request to stop the process `name` is answered with.
    pub open spec fn answers(self, name: Seq<char>, refusal: Option<ProcessError>) -> bool {
        &&& self.success == (refusal is None)
        &&& self.message@ == (match refusal {
            None => success_text(name, "stopped"@),
            Some(e) => failure_text("stop"@, name, e.text()),
        })
    }
}

impl RestartProcessResponse {
    /// This is what the request to restart the process `name` is answered with.
    pub open spec fn answers(self, name: Seq<char>, result: Result<(), ProcessError>) -> bool {
        &&& self.success == (result is Ok)
        &&& match result {
            Ok(_) => {
                &&& self.message@ == success_text(name, "restarted"@)
                &&& self.status matches Some(status) && status.is_confirmation(name)
            },
            Err(e) => {
                &&& self.message@ == failure_text("restart"@, name, e.text())
                &&& self.status is None
            },
        }
    }

    /// The answer to the request to restart the process `name`.
    pub fn new(name: &str, result: &Result<(), ProcessError>) -> (response: Self)
        ensures
            response.answers(name@, *result),
    {
        match result {
            Ok(_) => RestartProcessResponse {
                success: true,
                message: success_message(name, "restarted"),
                status: Some(ProcessStatus::confirmation(name)),
            },
            Err(e) => RestartProcessResponse {
                success: false,
                message: failure_message("restart", name, e),
                status: None,
            },
        }
    }
}

/// The names of the programs that run.
pub open spec fn running_names(manager: ProcessManager) -> Seq<Seq<char>> {
    manager.names().filter(|n: Seq<char>| manager@[n].running)
}

/// What is not picked out of a list is left over.
proof fn lemma_filter_splits(names: Seq<Seq<char>>, pick: spec_fn(Seq<char>) -> bool)
    ensures
        names.filter(pick).len() + names.filter(|n: Seq<char>| !pick(n)).len() == names.len(),
    decreases names.len(),
{
    reveal(Seq::filter);
    if names.len() > 0 {
        lemma_filter_splits(names.drop_last(), pick);
    }
}

/// Every program is counted once, as one that runs or as one that does not.
pub proof fn law_every_process_is_counted_once(manager: ProcessManager)
    requires
        manager.wf(),
    ensures
        running_names(manager).len() <= manager.names().len(),
        manager.names().len() - running_names(manager).len() == manager.names().filter(
            |n: Seq<char>| !manager@[n].running,
        ).len(),
{
    let pick = |n: Seq<char>| manager@[n].running;
    lemma_filter_splits(manager.names(), pick);
    assert((|n: Seq<char>| !pick(n)) =~= (|n: Seq<char>| !manager@[n].running));
}

/// Answers requests on behalf of the daemon.
#[derive(Debug)]
pub struct CironDaemonService {
    /// The version of the daemon.
    pub version: String,
    /// The file that it was configured from.
    pub config_file: String,
    /// The address that it is reached at.
    pub transport: String,
    /// When it was started, in seconds since the Unix epoch, unless the clock stood
    /// before that.
    pub started_at: Option<u64>,
}

impl CironDaemonService {
    /// A service that is reached at `transport`.
    pub fn new(
        version: String,
        config_file: String,
        transport: String,
        started_at: Option<u64>,
    ) -> (service: Self)
        ensures
            service == (CironDaemonService { version, config_file, transport, started_at }),
    {
        CironDaemonService { version, config_file, transport, started_at }
    }

    /// For how many seconds the daemon runs, where the clock shows that so many have
    /// elapsed; 0 where it shows a time before the start.
    pub fn get_uptime_seconds(&self, elapsed: Option<u64>) -> (uptime: i32)
        ensures
            uptime == (match elapsed {
                Some(secs) => secs as i32,
                None => 0,
            }),
    {
        match elapsed {
            Some(secs) => #[verifier::truncate] (secs as i32),
            None => 0,
        }
    }

    /// The address that the daemon is reached at, with its kind.
    pub fn parse_transport_info(&self) -> (info: TransportInfo)
        ensures
            info.transport_type == transport_type(self.transport@),
            info.address@ == self.transport@,
    {
        let address: &str = self.transport.as_str();
        let kind: TransportType = if text::begins_with(address, "inet://") || text::begins_with(
            address,
            "tcp://",
        ) {
            TransportType::Inet
        } else if text::begins_with(address, "unix://") {
            TransportType::Unix
        } else if text::begins_with(address, "vsock://") {
            TransportType::Vsock
        } else {
            TransportType::Unspecified
        };
        TransportInfo { transport_type: kind, address: self.transport.clone() }
    }

    /// Says how the daemon and all programs stand.
    pub fn get_status(&self, manager: &ProcessManager, elapsed: Option<u64>) -> (response:
        GetStatusResponse)
        requires
            manager.wf(),
        ensures
            response.processes.len() == manager.names().len(),
            forall|i: int|
                0 <= i < response.processes.len() ==> (
                #[trigger] response.processes[i]).is_report(
                    manager.names()[i],
                    manager@[manager.names()[i]].running,
                ),
            response.daemon_info is Some,
            ({
                let info = response.daemon_info->0;
                &&& info.version@ == self.version@
                &&& info.started_at@ == (match self.started_at {
                    Some(secs) => text::decimal(secs as nat),
                    None => Seq::empty(),
                })
                &&& info.uptime_seconds == (match elapsed {
                    Some(secs) => secs as i32,
                    None => 0,
                })
                &&& info.config_file@ == self.config_file@
                &&& info.total_processes == manager.names().len() as i32
                &&& info.running_processes == running_names(*manager).len() as i32
                &&& info.stopped_processes == (manager.names().len() - running_names(
                    *manager,
                ).len()) as i32
                &&& info.transport matches Some(t)
                &&& t.transport_type == transport_type(self.transport@)
                &&& t.address@ == self.transport@
            }),
    {
        let list: Vec<(String, bool)> = manager.list_processes();
        let ghost names = manager.names();
        let ghost pick = |n: Seq<char>| manager@[n].running;
        let mut processes: Vec<ProcessStatus> = Vec::new();
        let mut running: usize = 0;
        let mut i: usize = 0;
        proof {
            reveal(Seq::filter);
            assert(names.take(0).len() == 0);
        }
        while i < list.len()
            invariant
                names == manager.names(),
                pick == (|n: Seq<char>| manager@[n].running),
                list.len() == names.len(),
                forall|j: int|
                    0 <= j < list.len() ==> (#[trigger] list[j]).0@ == names[j] && list[j].1
                        == manager@[names[j]].running,
                i <= list.len(),
                processes.len() == i,
                forall|j: int|
                    0 <= j < i ==> (#[trigger] processes[j]).is_report(
                        names[j],
                        manager@[names[j]].running,
                    ),
                running <= i,
                running == names.take(i as int).filter(pick).len(),
            decreases list.len() - i,
        {
            let name: String = list[i].0.clone();
            let runs: bool = list[i].1;
            proof {
                reveal(Seq::filter);
                assert(names.take(i + 1).drop_last() =~= names.take(i as int));
            }
            if runs {
                running = running + 1;
            }
            processes.push(ProcessStatus::report(name, runs));
            i = i + 1;
        }
        assert(names.take(names.len() as int) =~= names);
        let total: usize = list.len();
        let stopped: usize = total - running;
        let started_at: String = match self.started_at {
            Some(secs) => text::to_decimal(secs as u128),
            None => String::new(),
        };
        let info = DaemonInfo {
            version: self.version.clone(),
            started_at,
            uptime_seconds: self.get_uptime_seconds(elapsed),
            config_file: self.config_file.clone(),
            total_processes: #[verifier::truncate] (total as i32),
            running_processes: #[verifier::truncate] (running as i32),
            stopped_processes: #[verifier::truncate] (stopped as i32),
            transport: Some(self.parse_transport_info()),
        };
        GetStatusResponse { processes, daemon_info: Some(info) }
    }

    /// Says whether the process `name` runs.
    pub fn get_process_status(&self, manager: &ProcessManager, name: &str) -> (answer: Result<
        ProcessStatus,
        ServiceError,
    >)
        requires
            manager.wf(),
        ensures
            if manager@.contains_key(name@) {
                answer matches Ok(status) && status.is_report(name@, manager@[name@].running)
            } else {
                answer matches Err(e) && e.is_not_found("Process '"@ + name@ + "' not found"@)
            },
    {
        let list: Vec<(String, bool)> = manager.list_processes();
        let mut i: usize = 0;
        while i < list.len()
            invariant
                manager.wf(),
                list.len() == manager.names().len(),
                forall|j: int|
                    0 <= j < list.len() ==> (#[trigger] list[j]).0@ == manager.names()[j]
                        && manager@.contains_key(list[j].0@) && list[j].1
                        == manager@[list[j].0@].running,
                i <= list.len(),
                forall|j: int| 0 <= j < i ==> (#[trigger] list[j]).0@ != name@,
            decreases list.len() - i,
        {
            if text::same_text(list[i].0.as_str(), name) {
                return Ok(ProcessStatus::report(name.to_owned(), list[i].1));
            }
            i = i + 1;
        }
        proof {
            process::law_names_are_unique(*manager);
            if manager@.contains_key(name@) {
                let k = manager.names().index_of(name@);
                assert(list[k].0@ == name@);
            }
        }
        let mut reason: String = "Process '".to_owned();
        reason.append(name);
        reason.append("' not found");
        Err(ServiceError::NotFound(reason))
    }

    /// Begins to start the process `name`. Where there is no such program, the request is
    /// answered at once.
    pub fn start_process(&self, manager: &ProcessManager, name: &str) -> (begun: Result<
        StartSession,
        StartProcessResponse,
    >)
        requires
            manager.wf(),
        ensures
            match begun {
                Ok(session) => {
                    &&& manager@.contains_key(name@)
                    &&& session.wf()
                    &&& session@ == process::session_for(manager@, name@)
                },
                Err(response) => {
                    &&& !manager@.contains_key(name@)
                    &&& !response.success
                    &&& response.message@ == failure_text(
                        "start"@,
                        name@,
                        "Program "@ + name@ + " not found"@,
                    )
                    &&& response.status is None
                },
            },
    {
        match manager.start_process(name) {
            Ok(session) => Ok(session),
            Err(e) => Err(StartProcessResponse::new(name, &Err(e))),
        }
    }

    /// Stops the process `name` so that it can be started again. Where there is no such
    /// program, the request is answered at once.
    pub fn restart_process(&self, manager: &mut ProcessManager, name: &str) -> (begun: Result<
        Restart,
        RestartProcessResponse,
    >)
        requires
            old(manager).wf(),
        ensures
            final(manager).wf(),
            final(manager).names() == old(manager).names(),
            final(manager).loads() == old(manager).loads(),
            if !old(manager)@.contains_key(name@) {
                &&& final(manager)@ == old(manager)@
                &&& begun matches Err(response)
                &&& !response.success
                &&& response.message@ == failure_text(
                    "restart"@,
                    name@,
                    "Program "@ + name@ + " not found"@,
                )
                &&& response.status is None
            } else {
                &&& begun matches Ok(restart)
                &&& restart.pause_secs == process::RESTART_PAUSE_SECS
                &&& if old(manager)@[name@].running {
                    &&& final(manager)@ == old(manager)@.insert(
                        name@,
                        process::stopped(old(manager)@[name@]),
                    )
                    &&& restart.stop matches Some(t)
                    &&& process::is_termination(old(manager)@[name@], t)
                } else {
                    &&& final(manager)@ == old(manager)@
                    &&& restart.stop is None
                }
            },
    {
        match manager.restart_process(name) {
            Ok(restart) => Ok(restart),
            Err(e) => Err(RestartProcessResponse::new(name, &Err(e))),
        }
    }

    /// Stops the process `name`, and answers the request to do so. What is left to do
    /// to bring the process down is handed out with the answer.
    pub fn stop_process(&self, manager: &mut ProcessManager, name: &str) -> (done: (
        StopProcessResponse,
        Option<Termination>,
    ))
        requires
            old(manager).wf(),
        ensures
            final(manager).wf(),
            final(manager).names() == old(manager).names(),
            final(manager).loads() == old(manager).loads(),
            if !old(manager)@.contains_key(name@) {
                &&& final(manager)@ == old(manager)@
                &&& !done.0.success
                &&& done.0.message@ == failure_text(
                    "stop"@,
                    name@,
                    "Program "@ + name@ + " not found"@,
                )
                &&& done.1 is None
            } else if !old(manager)@[name@].running {
                &&& final(manager)@ == old(manager)@
                &&& done.0.answers(name@, None)
                &&& done.1 is None
            } else {
                &&& final(manager)@ == old(manager)@.insert(
                    name@,
                    process::stopped(old(manager)@[name@]),
                )
                &&& done.0.answers(name@, None)
                &&& done.1 matches Some(t) && process::is_termination(old(manager)@[name@], t)
            },
    {
        match manager.stop_process(name) {
            Ok(termination) => (
                StopProcessResponse { success: true, message: success_message(name, "stopped") },
                termination,
            ),
            Err(e) => (
                StopProcessResponse { success: false, message: failure_message("stop", name, &e) },
                None,
            ),
        }
    }

    /// Answers a request for the most recent `lines` lines of the process `name`, or for
    /// all that were kept if `lines` is not positive.
    pub fn get_logs(&self, manager: &ProcessManager, name: &str, lines: i32, follow: bool) -> (reply:
        Result<LogsReply, ServiceError>)
        requires
            manager.wf(),
        ensures
            if !manager@.contains_key(name@) {
                reply matches Err(e) && e.is_not_found("Program "@ + name@ + " not found"@)
            } else if !manager@[name@].config.log_forward {
                reply matches Err(e) && e.is_not_found(
                    "Log forwarding is disabled for process '"@ + name@
                        + "': set log_forward = true in its configuration to enable GetLogs/cironctl logs"@,
                )
            } else {
                &&& reply matches Ok(r)
                &&& r.follow == follow
                &&& are_entries(
                    r.entries@,
                    logs::requested_lines(
                        manager@[name@].logs,
                        (if lines <= 0 {
                            0
                        } else {
                            lines as nat
                        }),
                    ),
                )
            },
    {
        let count: usize = if lines <= 0 {
            0
        } else {
            lines as usize
        };
        let recent: Vec<LogLine> = match manager.get_recent_logs(name, count) {
            Ok(recent) => recent,
            Err(e) => {
                return Err(ServiceError::NotFound(e.message()));
            },
        };
        if follow {
            if let Err(e) = manager.subscribe_logs(name) {
                return Err(ServiceError::NotFound(e.message()));
            }
        }
        let mut entries: Vec<LogEntry> = Vec::new();
        let mut i: usize = 0;
        while i < recent.len()
            invariant
                i <= recent.len(),
                entries.len() == i,
                forall|j: int| 0 <= j < i ==> (#[trigger] entries[j]).is_entry(recent[j]),
            decreases recent.len() - i,
        {
            entries.push(to_log_entry(&recent[i]));
            i = i + 1;
        }
        Ok(LogsReply { entries, follow })
    }
}

/// The entries are how those lines are sent, in the same order.
pub open spec fn are_entries(entries: Seq<LogEntry>, lines: Seq<LogLine>) -> bool {
    &&& entries.len() == lines.len()
    &&& forall|i: int| 0 <= i < entries.len() ==> (#[trigger] entries[i]).is_entry(lines[i])
}

} // verus!
