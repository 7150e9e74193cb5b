//! What the control utility shows.

use crate::service::{DaemonInfo, GetStatusResponse, ProcessStatus};
use crate::text;
use crate::transport;
use vstd::prelude::*;
use vstd::string::*;

verus! {

/// The name that is shown for the number of a state.
pub open spec fn state_text(state: i32) -> Seq<char> {
    match state {
        1 => "STOPPED"@,
        2 => "STARTING"@,
        3 => "RUNNING"@,
        4 => "STOPPING"@,
        5 => "FAILED"@,
        6 => "EXITED"@,
        _ => "UNKNOWN"@,
    }
}

/// The name that is shown for the number of a state.
pub fn state_name(state: i32) -> (name: &'static str)
    ensures
        name@ == state_text(state),
{
    match state {
        1 => "STOPPED",
        2 => "STARTING",
        3 => "RUNNING",
        4 => "STOPPING",
        5 => "FAILED",
        6 => "EXITED",
        _ => "UNKNOWN",
    }
}

/// A process is shown as running exactly if the daemon reports it as running, and as
/// stopped otherwise.
pub proof fn law_reported_state_is_shown(status: ProcessStatus, name: Seq<char>, running: bool)
    requires
        status.says(name, running),
    ensures
        state_text(status.state) == (if running {
            "RUNNING"@
        } else {
            "STOPPED"@
        }),
        state_text(status.state) == "RUNNING"@ <==> running,
{
    reveal_strlit("RUNNING");
    reveal_strlit("STOPPED");
    assert("RUNNING"@[0] != "STOPPED"@[0]);
}

/// What is shown of the daemon.
pub open spec fn daemon_lines(info: DaemonInfo) -> Seq<Seq<char>> {
    seq![
        "Version: "@ + info.version@,
        "Uptime: "@ + text::signed_decimal(info.uptime_seconds as int) + "s"@,
        "Config: "@ + info.config_file@,
        "Processes: "@ + text::signed_decimal(info.total_processes as int) + " total, "@
            + text::signed_decimal(info.running_processes as int) + " running, "@
            + text::signed_decimal(info.stopped_processes as int) + " stopped"@,
        Seq::<char>::empty(),
    ]
}

/// What is shown of one process: its name in a column of 20 characters, its state, and
/// its identifier if that is known.
pub open spec fn process_lines(process: ProcessStatus) -> Seq<Seq<char>> {
    let first = "  "@ + text::padded(process.name@, 20) + " "@ + state_text(process.state);
    match process.pid {
        Some(pid) => seq![first, "    PID: "@ + text::signed_decimal(pid as int)],
        None => seq![first],
    }
}

/// What is shown of a list of processes.
pub open spec fn all_process_lines(processes: Seq<ProcessStatus>) -> Seq<Seq<char>>
    decreases processes.len(),
{
    if processes.len() == 0 {
        Seq::empty()
    } else {
        all_process_lines(processes.drop_last()) + process_lines(processes.last())
    }
}

/// The lines that are shown before anything else.
pub open spec fn header_lines() -> Seq<Seq<char>> {
    seq!["Cirond Status"@, "─────────────────────────────────────────"@]
}

/// The lines that an answer is shown with.
pub open spec fn shown(response: GetStatusResponse) -> Seq<Seq<char>> {
    header_lines() + (match response.daemon_info {
        Some(info) => daemon_lines(info),
        None => Seq::empty(),
    }) + seq!["Processes:"@] + all_process_lines(response.processes@)
}

/// Appends what is shown of the daemon.
fn push_daemon_lines(lines: &mut Vec<String>, info: &DaemonInfo)
    ensures
        text::texts(final(lines)@) == text::texts(old(lines)@) + daemon_lines(*info),
{
    let mut version: String = "Version: ".to_owned();
    version.append(info.version.as_str());
    let mut uptime: String = "Uptime: ".to_owned();
    let secs: String = text::to_signed_decimal(info.uptime_seconds);
    uptime.append(secs.as_str());
    uptime.append("s");
    let mut config: String = "Config: ".to_owned();
    config.append(info.config_file.as_str());
    let mut counts: String = "Processes: ".to_owned();
    let total: String = text::to_signed_decimal(info.total_processes);
    let running: String = text::to_signed_decimal(info.running_processes);
    let stopped: String = text::to_signed_decimal(info.stopped_processes);
    counts.append(total.as_str());
    counts.append(" total, ");
    counts.append(running.as_str());
    counts.append(" running, ");
    counts.append(stopped.as_str());
    counts.append(" stopped");
    lines.push(version);
    lines.push(uptime);
    lines.push(config);
    lines.push(counts);
    lines.push(String::new());
    assert(text::texts(lines@) =~= text::texts(old(lines)@) + daemon_lines(*info));
}

/// Appends what is shown of one process.
fn push_process_lines(lines: &mut Vec<String>, process: &ProcessStatus)
    ensures
        text::texts(final(lines)@) == text::texts(old(lines)@) + process_lines(*process),
{
    let mut first: String = "  ".to_owned();
    let column: String = text::pad(process.name.as_str(), 20);
    first.append(column.as_str());
    first.append(" ");
    first.append(state_name(process.state));
    lines.push(first);
    if let Some(pid) = process.pid {
        let mut second: String = "    PID: ".to_owned();
        let number: String = text::to_signed_decimal(pid);
        second.append(number.as_str());
        lines.push(second);
    }
    assert(text::texts(lines@) =~= text::texts(old(lines)@) + process_lines(*process));
}

/// Shows how the daemon and its processes stand, line by line.
pub fn status_lines(response: &GetStatusResponse) -> (lines: Vec<String>)
    ensures
        text::texts(lines@) == shown(*response),
{
    let mut lines: Vec<String> = Vec::new();
    lines.push("Cirond Status".to_owned());
    lines.push("─────────────────────────────────────────".to_owned());
    assert(text::texts(lines@) =~= header_lines());
    if let Some(info) = &response.daemon_info {
        push_daemon_lines(&mut lines, info);
    } else {
        assert(text::texts(lines@) =~= header_lines() + Seq::empty());
    }
    let ghost before = text::texts(lines@);
    lines.push("Processes:".to_owned());
    let ghost above = before + seq!["Processes:"@];
    assert(text::texts(lines@) =~= above);
    let ghost processes = response.processes@;
    let mut i: usize = 0;
    assert(above =~= above + all_process_lines(processes.take(0)));
    while i < response.processes.len()
        invariant
            processes == response.processes@,
            i <= response.processes.len(),
            text::texts(lines@) == above + all_process_lines(processes.take(i as int)),
        decreases response.processes.len() - i,
    {
        push_process_lines(&mut lines, &response.processes[i]);
        proof {
            assert(processes.take(i + 1).drop_last() =~= processes.take(i as int));
            assert(text::texts(lines@) =~= above + all_process_lines(processes.take(i + 1)));
        }
        i = i + 1;
    }
    assert(processes.take(processes.len() as int) =~= processes);
    lines
}

/// Shows what came of a request.
pub fn outcome_line(success: bool, message: &str) -> (line: String)
    ensures
        line@ == (if success {
            "Success: "@
        } else {
            "Failed: "@
        }) + message@,
{
    let mut line: String = if success {
        "Success: ".to_owned()
    } else {
        "Failed: ".to_owned()
    };
    line.append(message);
    line
}

/// Shows a line that a process printed.
pub fn log_line(source: &str, message: &str) -> (line: String)
    ensures
        line@ == "["@ + source@ + "] "@ + message@,
{
    let mut line: String = "[".to_owned();
    line.append(source);
    line.append("] ");
    line.append(message);
    line
}

/// Where a daemon on a TCP socket is reached.
pub fn inet_uri(host: &str, port: u16) -> (uri: String)
    ensures
        uri@ == "http://"@ + (host@.push(':') + text::decimal(port as nat)),
{
    let mut uri: String = "http://".to_owned();
    let address: String = transport::socket_address(host, port);
    uri.append(address.as_str());
    uri
}

/// Every process of an answer is shown, with its name and its state, in the order of the
/// answer.
pub proof fn law_every_process_is_shown(processes: Seq<ProcessStatus>, i: int)
    requires
        0 <= i < processes.len(),
    ensures
        all_process_lines(processes).contains(
            "  "@ + text::padded(processes[i].name@, 20) + " "@ + state_text(processes[i].state),
        ),
        all_process_lines(processes.take(i)).is_prefix_of(all_process_lines(processes)),
    decreases processes.len(),
{
    let front = processes.drop_last();
    let above = all_process_lines(front);
    let own = process_lines(processes.last());
    let all = all_process_lines(processes);
    if i == front.len() {
        assert(all[above.len() as int] == own[0]);
        assert(processes.take(i) =~= front);
        assert(above =~= all.subrange(0, above.len() as int));
    } else {
        law_every_process_is_shown(front, i);
        let line = "  "@ + text::padded(processes[i].name@, 20) + " "@ + state_text(
            processes[i].state,
        );
        assert(front[i] == processes[i]);
        let k = above.index_of(line);
        assert(all[k] == line);
        assert(front.take(i) =~= processes.take(i));
        let some = all_process_lines(processes.take(i));
        assert(some =~= all.subrange(0, some.len() as int)) by {
            assert(some =~= above.subrange(0, some.len() as int));
        }
    }
}

} // verus!
