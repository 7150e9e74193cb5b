//! How requests are answered.

use crate::error::ProcessError;
use crate::logs::LogLine;
use crate::process::{self, ProcessManager, Restart, StartSession, Termination};
use crate::service::{
    self, CironDaemonService, GetStatusResponse, LogEntry, LogsReply, ProcessState,
    ProcessStatus, RestartProcessResponse, ServiceError, StartProcessResponse,
    StopProcessResponse, TransportInfo,
};
use crate::text::{self, NumberError};
use vstd::prelude::*;

verus! {

/// The states have different numbers, by which they are told apart.
pub proof fn law_states_have_numbers(state: ProcessState, code: i32)
    requires
        call_ensures(ProcessState::code, (&state,), code),
    ensures
        state is Stopped <==> code == 1,
        state is Starting <==> code == 2,
        state is Running <==> code == 3,
        state is Stopping <==> code == 4,
        state is Failed <==> code == 5,
        state is Exited <==> code == 6,
{
}

/// The status lists every program once, under its name, as running (3) or stopped (1), and
/// counts them: all, those that run, and the others, which together are all.
pub proof fn law_status_shows_every_program(
    service: CironDaemonService,
    manager: ProcessManager,
    elapsed: Option<u64>,
    response: GetStatusResponse,
    name: Seq<char>,
)
    requires
        manager.wf(),
        call_ensures(CironDaemonService::get_status, (&service, &manager, elapsed), response),
        response.processes@.len() <= i32::MAX,
    ensures
        manager@.contains_key(name) <==> exists|i: int|
            0 <= i < response.processes@.len() && (#[trigger] response.processes@[i]).name@ == name,
        forall|i: int|
            0 <= i < response.processes@.len() && (#[trigger] response.processes@[i]).name@ == name
                ==> response.processes@[i].state == (if manager@[name].running { 3i32 } else { 1i32 }),
        forall|i: int, j: int|
            0 <= i < j < response.processes@.len() ==> (#[trigger] response.processes@[i]).name@
                != (#[trigger] response.processes@[j]).name@,
        response.daemon_info is Some,
        ({
            let info = response.daemon_info->0;
            &&& info.total_processes == response.processes@.len()
            &&& info.running_processes + info.stopped_processes == info.total_processes
            &&& info.running_processes == running_count(response.processes@)
            &&& info.stopped_processes >= 0
        }),
{
    process::law_names_are_unique(manager);
    service::law_every_process_is_counted_once(manager);
    let names = manager.names();
    let processes = response.processes@;
    if manager@.contains_key(name) {
        assert(names.contains(name));
        let i = names.index_of(name);
        assert(processes[i].name@ == name);
    }
    assert forall|i: int| 0 <= i < processes.len() implies (#[trigger] processes[i]).is_report(
        names[i],
        manager@[names[i]].running,
    ) && manager@.contains_key(processes[i].name@) by {
        assert(names.contains(names[i]));
    }
    assert forall|i: int, j: int| 0 <= i < j < processes.len() implies (
    #[trigger] processes[i]).name@ != (#[trigger] processes[j]).name@ by {
        assert(names[i] != names[j]);
    }
    lemma_running_count(processes, names, manager);
}

/// How many of the processes are said to run.
pub open spec fn running_count(processes: Seq<ProcessStatus>) -> int
    decreases processes.len(),
{
    if processes.len() == 0 {
        0
    } else {
        running_count(processes.drop_last()) + if processes.last().state == 3 {
            1int
        } else {
            0
        }
    }
}

/// As many are said to run as do.
proof fn lemma_running_count(
    processes: Seq<ProcessStatus>,
    names: Seq<Seq<char>>,
    manager: ProcessManager,
)
    requires
        processes.len() == names.len(),
        forall|i: int|
            0 <= i < processes.len() ==> (#[trigger] processes[i]).is_report(
                names[i],
                manager@[names[i]].running,
            ),
    ensures
        running_count(processes) == names.filter(|n: Seq<char>| manager@[n].running).len(),
    decreases processes.len(),
{
    reveal(Seq::filter);
    if processes.len() > 0 {
        let front = processes.drop_last();
        let some = names.drop_last();
        assert forall|i: int| 0 <= i < front.len() implies (#[trigger] front[i]).is_report(
            some[i],
            manager@[some[i]].running,
        ) by {
            assert(front[i] == processes[i]);
        }
        lemma_running_count(front, some, manager);
        assert(processes[processes.len() - 1].is_report(
            names[names.len() - 1],
            manager@[names[names.len() - 1]].running,
        ));
    }
}

/// The status says what the service was set up with: version, configuration file, address
/// and start. The uptime is what has elapsed.
pub proof fn law_status_says_what_the_daemon_is(
    version: String,
    config_file: String,
    transport: String,
    started_at: Option<u64>,
    service: CironDaemonService,
    manager: ProcessManager,
    elapsed: Option<u64>,
    response: GetStatusResponse,
    uptime: i32,
)
    requires
        call_ensures(
            CironDaemonService::new,
            (version, config_file, transport, started_at),
            service,
        ),
        call_ensures(CironDaemonService::get_status, (&service, &manager, elapsed), response),
        call_ensures(CironDaemonService::get_uptime_seconds, (&service, elapsed), uptime),
    ensures
        response.daemon_info is Some,
        ({
            let info = response.daemon_info->0;
            &&& info.version@ == version@
            &&& info.config_file@ == config_file@
            &&& info.transport is Some && info.transport->0.address@ == transport@
            &&& started_at matches Some(secs) ==> text::parsed(info.started_at@, u64::MAX as nat)
                == Ok::<nat, NumberError>(secs as nat)
            &&& started_at is None ==> info.started_at@.len() == 0
            &&& info.uptime_seconds == uptime
        }),
        elapsed matches Some(secs) ==> (secs <= i32::MAX ==> uptime == secs),
        elapsed is None ==> uptime == 0,
{
    if let Some(secs) = started_at {
        text::lemma_decimal(secs as nat, u64::MAX as nat);
    }
}

/// The type of an address is told from its scheme; the address itself is handed on.
pub proof fn law_type_of_the_address(
    service: CironDaemonService,
    info: TransportInfo,
    rest: Seq<char>,
)
    requires
        call_ensures(CironDaemonService::parse_transport_info, (&service,), info),
    ensures
        info.address@ == service.transport@,
        service.transport@ == "inet://"@ + rest || service.transport@ == "tcp://"@ + rest
            ==> info.transport_type is Inet,
        service.transport@ == "unix://"@ + rest ==> info.transport_type is Unix,
        service.transport@ == "vsock://"@ + rest ==> info.transport_type is Vsock,
        info.transport_type is Unspecified <==> !"inet://"@.is_prefix_of(service.transport@)
            && !"tcp://"@.is_prefix_of(service.transport@) && !"unix://"@.is_prefix_of(
            service.transport@,
        ) && !"vsock://"@.is_prefix_of(service.transport@),
{
    reveal_strlit("inet://");
    reveal_strlit("tcp://");
    reveal_strlit("unix://");
    reveal_strlit("vsock://");
    let text = service.transport@;
    if text == "inet://"@ + rest {
        assert(text.subrange(0, "inet://"@.len() as int) =~= "inet://"@);
    }
    if text == "tcp://"@ + rest {
        assert(text.subrange(0, "tcp://"@.len() as int) =~= "tcp://"@);
    }
    if text == "unix://"@ + rest {
        assert(text.subrange(0, "unix://"@.len() as int) =~= "unix://"@);
        assert(text[0] == 'u');
    }
    if text == "vsock://"@ + rest {
        assert(text.subrange(0, "vsock://"@.len() as int) =~= "vsock://"@);
        assert(text[0] == 'v');
    }
}

/// Asked for one program, the service says what it says of it among all; an unknown one is
/// not found, by name.
pub proof fn law_status_of_one_agrees_with_all(
    service: CironDaemonService,
    manager: ProcessManager,
    elapsed: Option<u64>,
    all: GetStatusResponse,
    name: &str,
    one: Result<ProcessStatus, ServiceError>,
    i: int,
)
    requires
        manager.wf(),
        call_ensures(CironDaemonService::get_status, (&service, &manager, elapsed), all),
        call_ensures(CironDaemonService::get_process_status, (&service, &manager, name), one),
        0 <= i < all.processes@.len(),
    ensures
        one is Ok <==> manager@.contains_key(name@),
        one is Ok ==> one->Ok_0.name@ == name@,
        all.processes@[i].name@ == name@ ==> one is Ok && one->Ok_0.state == all.processes@[i].state,
        one is Ok ==> (one->Ok_0.state == 3 <==> manager@[name@].running) && (one->Ok_0.state == 1
            <==> !manager@[name@].running),
        one matches Err(ServiceError::NotFound(reason)) ==> reason@ == "Process '"@ + name@
            + "' not found"@,
{
    process::law_names_are_unique(manager);
    assert(all.processes@[i].is_report(
        manager.names()[i],
        manager@[manager.names()[i]].running,
    ));
    assert(manager.names().contains(manager.names()[i]));
}

/// A program that was stopped on request is then said to be stopped, and the request is
/// said to have gone well; for an unknown one it is said to have failed. What is left to
/// do is what the table says.
pub proof fn law_stop_request_stops(
    service: CironDaemonService,
    manager: &mut ProcessManager,
    name: &str,
    done: (StopProcessResponse, Option<Termination>),
    status: Result<ProcessStatus, ServiceError>,
    twin: &mut ProcessManager,
    stopped: Result<Option<Termination>, ProcessError>,
)
    requires
        call_ensures(CironDaemonService::stop_process, (&service, manager, name), done),
        call_ensures(
            CironDaemonService::get_process_status,
            (&service, &*final(manager), name),
            status,
        ),
        *old(twin) == *old(manager),
        call_ensures(ProcessManager::stop_process, (twin, name), stopped),
    ensures
        done.0.success <==> old(manager)@.contains_key(name@),
        done.0.success ==> {
            &&& done.0.message@ == "Process '"@ + name@ + "' stopped successfully"@
            &&& status matches Ok(s) && s.state == 1
        },
        !done.0.success ==> done.0.message@ == "Failed to stop process '"@ + name@ + "': Program "@
            + name@ + " not found"@,
        final(manager)@ == final(twin)@,
        stopped is Ok ==> {
            &&& done.1 is Some <==> stopped->Ok_0 is Some
            &&& done.1 is Some ==> done.1->0.signal == stopped->Ok_0->0.signal
                && done.1->0.abort_monitor == stopped->Ok_0->0.abort_monitor
        },
        stopped is Err ==> done.1 is None,
{
    lemma_words(name@);
}

/// The words of the answers, put together.
proof fn lemma_words(name: Seq<char>)
    ensures
        service::success_text(name, "stopped"@) == "Process '"@ + name
            + "' stopped successfully"@,
        service::success_text(name, "started"@) == "Process '"@ + name
            + "' started successfully"@,
        service::success_text(name, "restarted"@) == "Process '"@ + name
            + "' restarted successfully"@,
        forall|reason: Seq<char>|
            service::failure_text("stop"@, name, reason) == "Failed to stop process '"@ + name
                + "': "@ + reason,
        forall|reason: Seq<char>|
            service::failure_text("start"@, name, reason) == "Failed to start process '"@ + name
                + "': "@ + reason,
        forall|reason: Seq<char>|
            service::failure_text("restart"@, name, reason) == "Failed to restart process '"@
                + name + "': "@ + reason,
        "Failed to stop process '"@ + name + "': "@ + ("Program "@ + name + " not found"@)
            == "Failed to stop process '"@ + name + "': Program "@ + name + " not found"@,
{
    reveal_strlit("' ");
    reveal_strlit("stopped");
    reveal_strlit("started");
    reveal_strlit("restarted");
    reveal_strlit(" successfully");
    reveal_strlit("' stopped successfully");
    reveal_strlit("' started successfully");
    reveal_strlit("' restarted successfully");
    reveal_strlit("Failed to ");
    reveal_strlit("stop");
    reveal_strlit("start");
    reveal_strlit("restart");
    reveal_strlit(" process '");
    reveal_strlit("Failed to stop process '");
    reveal_strlit("Failed to start process '");
    reveal_strlit("Failed to restart process '");
    reveal_strlit("': ");
    reveal_strlit("Program ");
    reveal_strlit("': Program ");
    assert("' "@ + "stopped"@ + " successfully"@ =~= "' stopped successfully"@);
    assert("' "@ + "started"@ + " successfully"@ =~= "' started successfully"@);
    assert("' "@ + "restarted"@ + " successfully"@ =~= "' restarted successfully"@);
    assert(service::success_text(name, "stopped"@) =~= "Process '"@ + name + ("' "@ + "stopped"@
        + " successfully"@));
    assert(service::success_text(name, "started"@) =~= "Process '"@ + name + ("' "@ + "started"@
        + " successfully"@));
    assert(service::success_text(name, "restarted"@) =~= "Process '"@ + name + ("' "@
        + "restarted"@ + " successfully"@));
    assert("Failed to "@ + "stop"@ + " process '"@ =~= "Failed to stop process '"@);
    assert("Failed to "@ + "start"@ + " process '"@ =~= "Failed to start process '"@);
    assert("Failed to "@ + "restart"@ + " process '"@ =~= "Failed to restart process '"@);
    assert("': "@ + "Program "@ =~= "': Program "@);
    assert("Failed to stop process '"@ + name + "': "@ + ("Program "@ + name + " not found"@)
        =~= "Failed to stop process '"@ + name + ("': "@ + "Program "@) + name + " not found"@);
}

/// A request to start or restart is said to have gone well exactly if it did, with the
/// program said to run; otherwise it is said why not.
pub proof fn law_outcomes_are_told_truly(
    name: &str,
    result: Result<(), ProcessError>,
    start: StartProcessResponse,
    restart: RestartProcessResponse,
    error: ProcessError,
    reason: String,
)
    requires
        call_ensures(StartProcessResponse::new, (name, &result), start),
        call_ensures(RestartProcessResponse::new, (name, &result), restart),
        result is Err ==> result->Err_0 == error,
        call_ensures(ProcessError::message, (&error,), reason),
    ensures
        start.success <==> result is Ok,
        restart.success <==> result is Ok,
        result is Ok ==> {
            &&& start.message@ == "Process '"@ + name@ + "' started successfully"@
            &&& restart.message@ == "Process '"@ + name@ + "' restarted successfully"@
            &&& start.status is Some && start.status->0.name@ == name@ && start.status->0.state == 3
            &&& restart.status is Some && restart.status->0.name@ == name@
                && restart.status->0.state == 3
        },
        result is Err ==> {
            &&& start.message@ == "Failed to start process '"@ + name@ + "': "@ + reason@
            &&& restart.message@ == "Failed to restart process '"@ + name@ + "': "@ + reason@
            &&& start.status is None
            &&& restart.status is None
        },
{
    lemma_words(name@);
}

/// A request to start begins as the table begins it, and is refused exactly if the program
/// is unknown; so is one to restart, which stops the program as the table does.
pub proof fn law_requests_reach_the_table(
    service: CironDaemonService,
    manager: ProcessManager,
    name: &str,
    begun: Result<StartSession, StartProcessResponse>,
    alone: Result<StartSession, ProcessError>,
    table: &mut ProcessManager,
    restart: Result<Restart, RestartProcessResponse>,
    twin: &mut ProcessManager,
    directly: Result<Restart, ProcessError>,
)
    requires
        call_ensures(CironDaemonService::start_process, (&service, &manager, name), begun),
        call_ensures(ProcessManager::start_process, (&manager, name), alone),
        call_ensures(CironDaemonService::restart_process, (&service, table, name), restart),
        *old(twin) == *old(table),
        call_ensures(ProcessManager::restart_process, (twin, name), directly),
    ensures
        begun is Ok <==> manager@.contains_key(name@),
        begun is Ok ==> begun->Ok_0@ == alone->Ok_0@,
        begun is Err ==> !begun->Err_0.success && begun->Err_0.status is None,
        restart is Ok <==> old(table)@.contains_key(name@),
        final(table)@ == final(twin)@,
        restart is Ok ==> {
            &&& restart->Ok_0.pause_secs == directly->Ok_0.pause_secs
            &&& restart->Ok_0.stop is Some <==> directly->Ok_0.stop is Some
            &&& restart->Ok_0.stop is Some ==> restart->Ok_0.stop->0.signal
                == directly->Ok_0.stop->0.signal
        },
        restart is Err ==> !restart->Err_0.success && restart->Err_0.status is None,
{
}

/// A line is sent with its message, its stream, its time and a level that tells the two
/// streams apart.
pub proof fn law_lines_are_sent_whole(line: LogLine, entry: LogEntry)
    requires
        call_ensures(service::to_log_entry, (&line,), entry),
    ensures
        entry.message@ == line.message@,
        line.source is Stdout ==> entry.source@ == "stdout"@ && entry.level is Info,
        line.source is Stderr ==> entry.source@ == "stderr"@ && entry.level is Warn,
        text::parsed(entry.timestamp@, u128::MAX as nat) == Ok::<nat, NumberError>(
            line.timestamp_ms as nat,
        ),
{
    text::lemma_decimal(line.timestamp_ms as nat, u128::MAX as nat);
}

/// A request for lines is answered with what the table hands out, line by line in the same
/// order; not asking for a positive number means asking for all. It is refused where the
/// table refuses it, for the same reason, whether the lines are to be followed or not.
pub proof fn law_log_requests_get_the_lines(
    service: CironDaemonService,
    manager: ProcessManager,
    name: &str,
    lines: i32,
    follow: bool,
    reply: Result<LogsReply, ServiceError>,
    count: usize,
    recent: Result<Vec<LogLine>, ProcessError>,
)
    requires
        call_ensures(CironDaemonService::get_logs, (&service, &manager, name, lines, follow), reply),
        lines <= 0 ==> count == 0,
        lines > 0 ==> count == lines,
        call_ensures(ProcessManager::get_recent_logs, (&manager, name, count), recent),
    ensures
        reply is Ok <==> recent is Ok,
        reply is Ok ==> {
            &&& reply->Ok_0.follow == follow
            &&& reply->Ok_0.entries@.len() == recent->Ok_0@.len()
            &&& forall|i: int|
                0 <= i < recent->Ok_0@.len() ==> (#[trigger] reply->Ok_0.entries@[i]).message@
                    == recent->Ok_0@[i].message@ && (reply->Ok_0.entries@[i].level is Info
                    <==> recent->Ok_0@[i].source is Stdout)
        },
        reply is Err ==> (reply->Err_0 matches ServiceError::NotFound(reason) && reason@
            == recent->Err_0.text()),
{
}

} // verus!
