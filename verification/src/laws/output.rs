//! What processes print.

use crate::config::GlobalConfig;
use crate::error::ProcessError;
use crate::lifecycle;
use crate::logs::{self, LogBuffer, LogLine, LogSource, ReadOutcome, ReaderMode, ReaderStep};
use crate::process::{self, ProcessManager};
use vstd::prelude::*;

verus! {

/// A line that a forwarded process printed is handed out behind all lines that were handed
/// out before, of which only the oldest is given up, and that only where 1000 are kept.
pub proof fn law_recorded_line_is_handed_out_last(
    manager: &mut ProcessManager,
    name: &str,
    generation: u64,
    line: LogLine,
    before: Result<Vec<LogLine>, ProcessError>,
    after: Result<Vec<LogLine>, ProcessError>,
)
    requires
        call_ensures(ProcessManager::record_log, (manager, name, generation, line), ()),
        call_ensures(ProcessManager::get_recent_logs, (&*old(manager), name, 0), before),
        call_ensures(ProcessManager::get_recent_logs, (&*final(manager), name, 0), after),
        before is Ok,
        old(manager)@[name@].generation == generation,
    ensures
        after is Ok,
        before->Ok_0@.len() <= 1000,
        before->Ok_0@.len() < 1000 ==> after->Ok_0@ == before->Ok_0@.push(line),
        before->Ok_0@.len() == 1000 ==> after->Ok_0@ == before->Ok_0@.drop_first().push(line),
{
    let old_lines = before->Ok_0@;
    let new_lines = after->Ok_0@;
    if old_lines.len() == 1000 {
        assert(new_lines =~= old_lines.drop_first().push(line));
    } else {
        assert(new_lines =~= old_lines.push(line));
    }
}

/// Keeping a line of one program changes nothing of another, and nothing but the lines of
/// that program. A line is not kept if the output is not forwarded, or if the process
/// belongs to an earlier loading of the program.
pub proof fn law_lines_are_kept_apart(
    manager: &mut ProcessManager,
    name: &str,
    generation: u64,
    line: LogLine,
    other: Seq<char>,
)
    requires
        call_ensures(ProcessManager::record_log, (manager, name, generation, line), ()),
        old(manager)@.contains_key(other),
    ensures
        final(manager)@.contains_key(other),
        other != name@ ==> final(manager)@[other] == old(manager)@[other],
        final(manager)@[other].config == old(manager)@[other].config,
        final(manager)@[other].running == old(manager)@[other].running,
        final(manager)@[other].pid == old(manager)@[other].pid,
        final(manager)@[other].monitored == old(manager)@[other].monitored,
        final(manager)@[other].generation == old(manager)@[other].generation,
        !old(manager)@[other].config.log_forward ==> final(manager)@[other] == old(manager)@[other],
        old(manager)@[other].generation != generation ==> final(manager)@[other]
            == old(manager)@[other],
{
}

/// A program that is loaded anew is told apart from the one it replaces: what a process of
/// the old one prints is not kept for the new one, of which nothing has been printed.
pub proof fn law_reloaded_programs_keep_no_old_lines(
    manager: &mut ProcessManager,
    first: GlobalConfig,
    i: int,
    later: &mut ProcessManager,
    second: GlobalConfig,
    j: int,
    last: &mut ProcessManager,
    name: &str,
    line: LogLine,
    lines: Result<Vec<LogLine>, ProcessError>,
)
    requires
        call_ensures(ProcessManager::load_from_config, (manager, first), ()),
        *old(later) == *final(manager),
        call_ensures(ProcessManager::load_from_config, (later, second), ()),
        process::program_names(first.program@).no_duplicates(),
        process::program_names(second.program@).no_duplicates(),
        first.program@.len() + second.program@.len() < 0x1_0000_0000_0000_0000,
        0 <= i < first.program@.len(),
        0 <= j < second.program@.len(),
        first.program@[i].0@ == name@,
        second.program@[j].0@ == name@,
        second.program@[j].1.log_forward,
        *old(last) == *final(later),
        call_ensures(
            ProcessManager::record_log,
            (last, name, old(later)@[name@].generation, line),
            (),
        ),
        call_ensures(ProcessManager::get_recent_logs, (&*final(last), name, 0), lines),
    ensures
        final(later)@[name@].generation != old(later)@[name@].generation,
        lines matches Ok(l) && l@.len() == 0,
{
    let start = old(manager).loads() as nat;
    let middle = old(later).loads() as nat;
    lifecycle::law_load(old(manager)@, first.program@, old(manager).loads());
    lifecycle::law_load(old(later)@, second.program@, old(later).loads());
    assert(old(later)@[first.program@[i].0@].generation == process::loading((start + i) as nat));
    assert(final(later)@[second.program@[j].0@].generation == process::loading(
        (middle + j) as nat,
    ));
    assert(middle == process::loading((start + first.program@.len()) as nat));
    lemma_loadings_differ(start, first.program@.len(), i as nat, j as nat);
}

/// The numbers of two loadings that are close to each other differ.
proof fn lemma_loadings_differ(start: nat, count: nat, i: nat, j: nat)
    requires
        i < count,
        count + j < 0x1_0000_0000_0000_0000,
    ensures
        process::loading(process::loading(start + count) as nat + j) != process::loading(start + i),
{
    let m: nat = 0x1_0000_0000_0000_0000;
    let near = start + i;
    let gap = (count - i) + j;
    assert(process::loading(start + count) as nat == (start + count) % m);
    assert(((start + count) % m + j) % m == (near + gap) % (m as int));
    assert((near + gap) % (m as int) != near % m);
}

/// A request for some lines is answered with the end of what a request for all is answered
/// with: as many as asked for, or all if there are fewer.
pub proof fn law_some_lines_are_the_last_of_all(
    manager: ProcessManager,
    name: &str,
    count: usize,
    all: Result<Vec<LogLine>, ProcessError>,
    some: Result<Vec<LogLine>, ProcessError>,
)
    requires
        count > 0,
        call_ensures(ProcessManager::get_recent_logs, (&manager, name, 0), all),
        call_ensures(ProcessManager::get_recent_logs, (&manager, name, count), some),
    ensures
        some is Ok <==> all is Ok,
        all is Ok ==> {
            let a = all->Ok_0@;
            let s = some->Ok_0@;
            &&& a == manager@[name@].logs
            &&& s.len() == (if count < a.len() { count as int } else { a.len() as int })
            &&& forall|j: int| 0 <= j < s.len() ==> #[trigger] s[j] == a[a.len() - s.len() + j]
        },
{
}

/// Lines are handed out and can be followed for exactly the programs whose output is
/// forwarded. Otherwise both requests are refused for the same reason: the program is
/// unknown, or its output is not forwarded.
pub proof fn law_lines_of_forwarded_programs_only(
    manager: ProcessManager,
    name: &str,
    count: usize,
    recent: Result<Vec<LogLine>, ProcessError>,
    followed: Result<(), ProcessError>,
)
    requires
        call_ensures(ProcessManager::get_recent_logs, (&manager, name, count), recent),
        call_ensures(ProcessManager::subscribe_logs, (&manager, name), followed),
    ensures
        recent is Ok <==> manager@.contains_key(name@) && manager@[name@].config.log_forward,
        followed is Ok <==> recent is Ok,
        !manager@.contains_key(name@) ==> (recent matches Err(ProcessError::NotFound(n)) && n@
            == name@) && (followed matches Err(ProcessError::NotFound(n)) && n@ == name@),
        manager@.contains_key(name@) && !manager@[name@].config.log_forward ==> (recent matches Err(
            ProcessError::LogForwardDisabled(n),
        ) && n@ == name@) && (followed matches Err(ProcessError::LogForwardDisabled(n)) && n@
            == name@),
{
}

/// A buffer hands its last recorded line out last, and everything it held before unless
/// it was full.
pub proof fn law_buffer_hands_out_what_it_recorded(
    buffer: &mut LogBuffer,
    line: LogLine,
    before: Vec<LogLine>,
    after: Vec<LogLine>,
    latest: Vec<LogLine>,
)
    requires
        old(buffer).wf(),
        call_ensures(LogBuffer::record, (buffer, line), ()),
        call_ensures(LogBuffer::recent, (&*old(buffer), 0), before),
        call_ensures(LogBuffer::recent, (&*final(buffer), 0), after),
        call_ensures(LogBuffer::recent, (&*final(buffer), 1), latest),
    ensures
        before@.len() < 1000 ==> after@ == before@.push(line),
        before@.len() >= 1000 ==> after@ == before@.drop_first().push(line),
        latest@ == seq![line],
{
    if before@.len() < 1000 {
        assert(after@ =~= before@.push(line));
    } else {
        assert(after@ =~= before@.drop_first().push(line));
    }
    assert(latest@ =~= seq![line]);
}

/// A line is forwarded as it was read, with its stream and time; the end stops the reader;
/// a failure is warned about with stream, program and reason, and the rest is drained.
pub proof fn law_reader(
    name: &str,
    source: LogSource,
    read: ReadOutcome,
    time: u128,
    step: ReaderStep,
    mode: Option<ReaderMode>,
)
    requires
        call_ensures(logs::reader_step, (name, source, read, time), step),
        call_ensures(logs::next_mode, (&step,), mode),
    ensures
        read matches ReadOutcome::Line(text) ==> {
            &&& step matches ReaderStep::Forward(line)
            &&& line.message@ == text@
            &&& line.source == source
            &&& line.timestamp_ms == time
            &&& mode matches Some(ReaderMode::Lines)
        },
        read is Closed <==> mode is None,
        read is Closed ==> step is Stop,
        read matches ReadOutcome::Failed(reason) ==> {
            let stream = if source is Stdout { "stdout"@ } else { "stderr"@ };
            &&& step matches ReaderStep::DrainWithWarning(warning)
            &&& warning@ == "Error reading "@ + stream + " log stream for "@ + name@ + ": "@
                + reason@
            &&& mode matches Some(ReaderMode::Drain)
        },
{
}

/// Output is looked at exactly if it is forwarded.
pub proof fn law_only_forwarded_output_is_looked_at(log_forward: bool, mode: ReaderMode)
    requires
        call_ensures(logs::reader_mode, (log_forward,), mode),
    ensures
        mode is Lines <==> log_forward,
        mode is Drain <==> !log_forward,
{
}

/// The time stamp is the time of the clock, where that is not before the epoch.
pub proof fn law_time_stamp(since_epoch: Option<u128>, millis: u128)
    requires
        call_ensures(logs::now_millis, (since_epoch,), millis),
    ensures
        since_epoch matches Some(m) ==> millis == m,
        since_epoch is None ==> millis == 0,
{
}

/// The two streams have their names.
pub proof fn law_stream_names(source: LogSource, name: &'static str)
    requires
        call_ensures(LogSource::as_str, (&source,), name),
    ensures
        source is Stdout ==> name@ == "stdout"@,
        source is Stderr ==> name@ == "stderr"@,
{
}

} // verus!
