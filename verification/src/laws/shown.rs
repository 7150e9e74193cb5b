//! What the control utility shows.

use crate::ctl;
use crate::service::{GetStatusResponse, ProcessStatus};
use crate::text;
use vstd::prelude::*;

verus! {

/// The numbers of the states are shown by name; other numbers are unknown.
pub proof fn law_states_are_shown_by_name(state: i32, name: &'static str)
    requires
        call_ensures(ctl::state_name, (state,), name),
    ensures
        state == 1 ==> name@ == "STOPPED"@,
        state == 2 ==> name@ == "STARTING"@,
        state == 3 ==> name@ == "RUNNING"@,
        state == 4 ==> name@ == "STOPPING"@,
        state == 5 ==> name@ == "FAILED"@,
        state == 6 ==> name@ == "EXITED"@,
        state < 1 || state > 6 ==> name@ == "UNKNOWN"@,
{
}

/// The line of that text is among those.
pub open spec fn shows(lines: Seq<String>, line: Seq<char>) -> bool {
    exists|k: int| 0 <= k < lines.len() && (#[trigger] lines[k])@ == line
}

/// Every process is shown on a line of its own, indented, with its whole name, filled up
/// with spaces to 20 characters, and its state; and its identifier on the next, if it is
/// known.
pub proof fn law_every_process_has_its_line(
    response: GetStatusResponse,
    lines: Vec<String>,
    i: int,
    state: &'static str,
    k: nat,
)
    requires
        call_ensures(ctl::status_lines, (&response,), lines),
        0 <= i < response.processes@.len(),
        call_ensures(ctl::state_name, (response.processes@[i].state,), state),
        k == (if response.processes@[i].name@.len() < 20 {
            20 - response.processes@[i].name@.len()
        } else {
            0
        }),
    ensures
        shows(
            lines@,
            "  "@ + response.processes@[i].name@ + Seq::new(k, |j: int| ' ') + " "@ + state@,
        ),
        response.processes@[i].pid matches Some(pid) ==> shows(
            lines@,
            "    PID: "@ + text::signed_decimal(pid as int),
        ),
{
    let process = response.processes@[i];
    let texts = text::texts(lines@);
    let own = ctl::all_process_lines(response.processes@);
    let first = "  "@ + text::padded(process.name@, 20) + " "@ + ctl::state_text(process.state);
    let wanted = "  "@ + process.name@ + Seq::new(k, |j: int| ' ') + " "@ + state@;
    assert(first =~= wanted) by {
        assert(text::padded(process.name@, 20) =~= process.name@ + Seq::new(k, |j: int| ' '));
    }
    ctl::law_every_process_is_shown(response.processes@, i);
    lemma_shown(response, lines@, first);
    if let Some(pid) = process.pid {
        let second = "    PID: "@ + text::signed_decimal(pid as int);
        lemma_second_line(response.processes@, i);
        lemma_shown(response, lines@, second);
    }
}

/// What is shown of the processes is shown.
proof fn lemma_shown(response: GetStatusResponse, lines: Seq<String>, line: Seq<char>)
    requires
        text::texts(lines) == ctl::shown(response),
        ctl::all_process_lines(response.processes@).contains(line),
    ensures
        shows(lines, line),
{
    let texts = text::texts(lines);
    let own = ctl::all_process_lines(response.processes@);
    let above = texts.len() - own.len();
    let at = own.index_of(line);
    assert(texts[above + at] == own[at]);
    assert(lines[above + at]@ == line);
}

/// A known identifier is shown.
proof fn lemma_second_line(processes: Seq<ProcessStatus>, i: int)
    requires
        0 <= i < processes.len(),
        processes[i].pid is Some,
    ensures
        ctl::all_process_lines(processes).contains(
            "    PID: "@ + text::signed_decimal(processes[i].pid->0 as int),
        ),
    decreases processes.len(),
{
    let front = processes.drop_last();
    let above = ctl::all_process_lines(front);
    let own = ctl::process_lines(processes.last());
    let all = ctl::all_process_lines(processes);
    let line = "    PID: "@ + text::signed_decimal(processes[i].pid->0 as int);
    if i < front.len() {
        assert(front[i] == processes[i]);
        lemma_second_line(front, i);
        let k = above.index_of(line);
        assert(all[k] == line);
    } else {
        assert(own[1] == line);
        assert(all[(above.len() + 1) as int] == own[1]);
    }
}

/// What is known of the daemon is shown above the processes: version, uptime,
/// configuration file and the three counts.
pub proof fn law_daemon_is_shown(response: GetStatusResponse, lines: Vec<String>)
    requires
        call_ensures(ctl::status_lines, (&response,), lines),
        response.daemon_info is Some,
    ensures
        lines@.len() > 7,
        ({
            let info = response.daemon_info->0;
            &&& lines@[2]@ == "Version: "@ + info.version@
            &&& lines@[3]@ == "Uptime: "@ + text::signed_decimal(info.uptime_seconds as int) + "s"@
            &&& lines@[4]@ == "Config: "@ + info.config_file@
            &&& lines@[5]@ == "Processes: "@ + text::signed_decimal(info.total_processes as int)
                + " total, "@ + text::signed_decimal(info.running_processes as int)
                + " running, "@ + text::signed_decimal(info.stopped_processes as int)
                + " stopped"@
        }),
{
    let texts = text::texts(lines@);
    let shown = ctl::shown(response);
    let info = ctl::daemon_lines(response.daemon_info->0);
    assert(texts.len() == lines@.len());
    assert(shown[2] == info[0] && shown[3] == info[1] && shown[4] == info[2] && shown[5] == info[3]);
    assert(texts[2] == lines@[2]@ && texts[3] == lines@[3]@ && texts[4] == lines@[4]@ && texts[5]
        == lines@[5]@);
}

/// Success and failure are told apart, with the whole message; lines are shown with their
/// stream; and a daemon on the network is reached at its host and port.
pub proof fn law_lines_of_the_utility(
    success: bool,
    message: &str,
    outcome: String,
    source: &str,
    log: String,
    host: &str,
    port: u16,
    uri: String,
)
    requires
        call_ensures(ctl::outcome_line, (success, message), outcome),
        call_ensures(ctl::log_line, (source, message), log),
        call_ensures(ctl::inet_uri, (host, port), uri),
    ensures
        success ==> outcome@ == "Success: "@ + message@,
        !success ==> outcome@ == "Failed: "@ + message@,
        log@ == "["@ + source@ + "] "@ + message@,
        uri@ == "http://"@ + host@ + (seq![':'] + text::decimal(port as nat)),
{
    assert(uri@ =~= "http://"@ + host@ + (seq![':'] + text::decimal(port as nat)));
}

} // verus!
