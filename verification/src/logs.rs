//! What supervised programs print, kept for later requests.

use std::collections::VecDeque;
use vstd::prelude::*;
use vstd::string::*;

verus! {

/// Number of lines kept in memory for each process.
pub const LOG_BUFFER_CAPACITY: usize = 1000;

/// The stream of a process that a line came from.
#[derive(Debug, Clone, Copy, PartialEq, Eq, Structural)]
pub enum LogSource {
    Stdout,
    Stderr,
}

impl LogSource {
    /// The name of the stream.
    pub open spec fn text(self) -> Seq<char> {
        match self {
            LogSource::Stdout => "stdout"@,
            LogSource::Stderr => "stderr"@,
        }
    }

    /// The name of the stream.
    pub fn as_str(&self) -> (name: &'static str)
        ensures
            name@ == self.text(),
    {
        match self {
            LogSource::Stdout => "stdout",
            LogSource::Stderr => "stderr",
        }
    }
}

/// One line of output.
#[derive(Debug)]
pub struct LogLine {
    /// Milliseconds since the Unix epoch.
    pub timestamp_ms: u128,
    pub source: LogSource,
    pub message: String,
}

impl Clone for LogLine {
    fn clone(&self) -> (copy: Self)
        ensures
            copy == *self,
    {
        LogLine {
            timestamp_ms: self.timestamp_ms,
            source: self.source,
            message: self.message.clone(),
        }
    }
}

/// The last `count` of `lines`, or all of them where there are fewer.
pub open spec fn last_lines(lines: Seq<LogLine>, count: nat) -> Seq<LogLine> {
    if count >= lines.len() {
        lines
    } else {
        lines.skip(lines.len() - count)
    }
}

/// What a request for `count` lines is answered with: the most recent ones, or
/// everything if `count` is 0.
pub open spec fn requested_lines(lines: Seq<LogLine>, count: nat) -> Seq<LogLine> {
    if count == 0 {
        lines
    } else {
        last_lines(lines, count)
    }
}

/// What a buffer holds once it has recorded `more`, line by line.
pub open spec fn recorded(lines: Seq<LogLine>, more: Seq<LogLine>) -> Seq<LogLine>
    decreases more.len(),
{
    if more.len() == 0 {
        lines
    } else {
        last_lines(
            recorded(lines, more.drop_last()).push(more.last()),
            LOG_BUFFER_CAPACITY as nat,
        )
    }
}

/// The most recent lines of one process.
#[derive(Debug)]
pub struct LogBuffer {
    lines: VecDeque<LogLine>,
}

impl View for LogBuffer {
    type V = Seq<LogLine>;

    closed spec fn view(&self) -> Seq<LogLine> {
        self.lines@
    }
}

impl LogBuffer {
    /// No more lines are kept than the capacity allows.
    pub open spec fn wf(self) -> bool {
        self@.len() <= LOG_BUFFER_CAPACITY
    }

    /// An empty buffer.
    pub fn new() -> (buffer: Self)
        ensures
            buffer.wf(),
            buffer@ == Seq::<LogLine>::empty(),
    {
        LogBuffer { lines: VecDeque::with_capacity(LOG_BUFFER_CAPACITY) }
    }

    /// Records a line. A full buffer gives up its oldest line.
    pub fn record(&mut self, line: LogLine)
        requires
            old(self).wf(),
        ensures
            final(self).wf(),
            final(self)@ == last_lines(old(self)@.push(line), LOG_BUFFER_CAPACITY as nat),
    {
        if self.lines.len() >= LOG_BUFFER_CAPACITY {
            self.lines.pop_front();
        }
        self.lines.push_back(line);
        assert(self@ =~= last_lines(old(self)@.push(line), LOG_BUFFER_CAPACITY as nat));
    }

    /// Up to `lines` most recent lines, oldest first; all of them if `lines` is 0.
    pub fn recent(&self, lines: usize) -> (recent: Vec<LogLine>)
        ensures
            recent@ == requested_lines(self@, lines as nat),
    {
        let total: usize = self.lines.len();
        let start: usize = if lines == 0 || lines >= total {
            0
        } else {
            total - lines
        };
        let mut recent: Vec<LogLine> = Vec::new();
        let mut i: usize = start;
        while i < total
            invariant
                total == self.lines.len(),
                start <= i <= total,
                recent@ == self.lines@.subrange(start as int, i as int),
            decreases total - i,
        {
            recent.push(self.lines[i].clone());
            i = i + 1;
            assert(recent@ =~= self.lines@.subrange(start as int, i as int));
        }
        assert(recent@ =~= requested_lines(self@, lines as nat));
        recent
    }
}

/// A buffer holds the most recent lines of all that were recorded, as many as its
/// capacity allows.
pub proof fn law_buffer_holds_the_most_recent_lines(lines: Seq<LogLine>, more: Seq<LogLine>)
    requires
        lines.len() <= LOG_BUFFER_CAPACITY,
    ensures
        recorded(lines, more) == last_lines(lines + more, LOG_BUFFER_CAPACITY as nat),
    decreases more.len(),
{
    let cap = LOG_BUFFER_CAPACITY as nat;
    if more.len() == 0 {
        assert(lines + more =~= lines);
    } else {
        let front = more.drop_last();
        law_buffer_holds_the_most_recent_lines(lines, front);
        assert(lines + more =~= (lines + front).push(more.last()));
        assert(recorded(lines, more) =~= last_lines(lines + more, cap));
    }
}

/// A request for some lines of a buffer gives what a request for more lines ends with.
pub proof fn law_fewer_lines_are_a_suffix(lines: Seq<LogLine>, fewer: nat, more: nat)
    requires
        0 < fewer <= more,
    ensures
        requested_lines(lines, fewer).is_suffix_of(requested_lines(lines, more)),
        requested_lines(lines, fewer).is_suffix_of(requested_lines(lines, 0)),
        requested_lines(lines, fewer).len() == (if fewer < lines.len() {
            fewer
        } else {
            lines.len()
        }),
{
    let all = requested_lines(lines, 0);
    let many = requested_lines(lines, more);
    let few = requested_lines(lines, fewer);
    assert(few =~= all.subrange(all.len() - few.len(), all.len() as int));
    assert(few =~= many.subrange(many.len() - few.len(), many.len() as int));
}

/// What became of an attempt to read one more line from a process.
#[derive(Debug)]
pub enum ReadOutcome {
    /// A line, without its end.
    Line(String),
    /// The process closed the stream.
    Closed,
    /// Reading failed, with the reason.
    Failed(String),
}

/// What the reader of a stream does next.
#[derive(Debug)]
pub enum ReaderStep {
    /// Record the line, hand it to whoever follows, and read on.
    Forward(LogLine),
    /// There is nothing more to read.
    Stop,
    /// Warn, and read the rest to its end without keeping it.
    DrainWithWarning(String),
}

/// How the output of a process is read. It is read to its end in any case, so that the
/// process never blocks on a full pipe.
#[derive(Debug, Clone, Copy, PartialEq, Eq, Structural)]
pub enum ReaderMode {
    /// Line by line, to forward the lines.
    Lines,
    /// Without looking at it.
    Drain,
}

/// How the output of a process is read at first: only output that is forwarded is looked at.
pub open spec fn mode_for(log_forward: bool) -> ReaderMode {
    if log_forward {
        ReaderMode::Lines
    } else {
        ReaderMode::Drain
    }
}

/// How the output of a process is read at first.
pub fn reader_mode(log_forward: bool) -> (mode: ReaderMode)
    ensures
        mode == mode_for(log_forward),
{
    if log_forward {
        ReaderMode::Lines
    } else {
        ReaderMode::Drain
    }
}

/// How a stream is read on after a step, unless it is at its end.
pub open spec fn mode_after(step: ReaderStep) -> Option<ReaderMode> {
    match step {
        ReaderStep::Forward(_) => Some(ReaderMode::Lines),
        ReaderStep::Stop => None,
        ReaderStep::DrainWithWarning(_) => Some(ReaderMode::Drain),
    }
}

/// How a stream is read on after a step, unless it is at its end.
pub fn next_mode(step: &ReaderStep) -> (mode: Option<ReaderMode>)
    ensures
        mode == mode_after(*step),
{
    match step {
        ReaderStep::Forward(_) => Some(ReaderMode::Lines),
        ReaderStep::Stop => None,
        ReaderStep::DrainWithWarning(_) => Some(ReaderMode::Drain),
    }
}

/// The warning about a stream that can no longer be read.
pub open spec fn read_warning(
    name: Seq<char>,
    source: LogSource,
    reason: Seq<char>,
) -> Seq<char> {
    "Error reading "@ + source.text() + " log stream for "@ + name + ": "@ + reason
}

/// The step that follows an attempt to read a line of `source` of the process `name`.
pub open spec fn is_reader_step(
    name: Seq<char>,
    source: LogSource,
    read: ReadOutcome,
    timestamp_ms: u128,
    step: ReaderStep,
) -> bool {
    match read {
        ReadOutcome::Line(message) => step == ReaderStep::Forward(
            LogLine { timestamp_ms, source, message },
        ),
        ReadOutcome::Closed => step == ReaderStep::Stop,
        ReadOutcome::Failed(reason) => step matches ReaderStep::DrainWithWarning(warning)
            && warning@ == read_warning(name, source, reason@),
    }
}

/// Decides what follows an attempt to read a line of `source` of the process `name`.
pub fn reader_step(
    name: &str,
    source: LogSource,
    read: ReadOutcome,
    timestamp_ms: u128,
) -> (step: ReaderStep)
    ensures
        is_reader_step(name@, source, read, timestamp_ms, step),
{
    match read {
        ReadOutcome::Line(message) => ReaderStep::Forward(LogLine { timestamp_ms, source, message }),
        ReadOutcome::Closed => ReaderStep::Stop,
        ReadOutcome::Failed(reason) => {
            let mut warning: String = "Error reading ".to_owned();
            warning.append(source.as_str());
            warning.append(" log stream for ");
            warning.append(name);
            warning.append(": ");
            warning.append(reason.as_str());
            ReaderStep::DrainWithWarning(warning)
        },
    }
}

/// A stream of which lines are forwarded, read attempt by attempt: the step that follows
/// each attempt, up to the first that does not lead to another line.
pub open spec fn is_reading(
    name: Seq<char>,
    source: LogSource,
    reads: Seq<ReadOutcome>,
    times: Seq<u128>,
    steps: Seq<ReaderStep>,
) -> bool {
    &&& reads.len() == steps.len()
    &&& times.len() == steps.len()
    &&& forall|i: int|
        0 <= i < steps.len() ==> is_reader_step(
            name,
            source,
            reads[i],
            times[i],
            #[trigger] steps[i],
        )
    &&& forall|i: int|
        0 <= i < steps.len() - 1 ==> mode_after(#[trigger] steps[i]) == Some(ReaderMode::Lines)
}

/// The lines that were forwarded.
pub open spec fn forwarded(steps: Seq<ReaderStep>) -> Seq<LogLine>
    decreases steps.len(),
{
    if steps.len() == 0 {
        Seq::empty()
    } else {
        match steps.last() {
            ReaderStep::Forward(line) => forwarded(steps.drop_last()).push(line),
            _ => forwarded(steps.drop_last()),
        }
    }
}

/// Steps that each forward a line forward one line each.
proof fn lemma_forwarded(steps: Seq<ReaderStep>)
    requires
        forall|i: int|
            0 <= i < steps.len() ==> mode_after(#[trigger] steps[i]) == Some(ReaderMode::Lines),
    ensures
        forwarded(steps).len() == steps.len(),
        forall|i: int|
            0 <= i < steps.len() ==> steps[i] == ReaderStep::Forward(#[trigger] forwarded(steps)[i]),
    decreases steps.len(),
{
    if steps.len() > 0 {
        let front = steps.drop_last();
        assert forall|i: int| 0 <= i < front.len() implies mode_after(#[trigger] front[i]) == Some(
            ReaderMode::Lines,
        ) by {
            assert(front[i] == steps[i]);
        }
        lemma_forwarded(front);
        assert(mode_after(steps[steps.len() - 1]) == Some(ReaderMode::Lines));
        assert forall|i: int| 0 <= i < steps.len() implies steps[i] == ReaderStep::Forward(
            #[trigger] forwarded(steps)[i],
        ) by {
            if i < front.len() {
                assert(front[i] == steps[i]);
                assert(forwarded(front)[i] == forwarded(steps)[i]);
            }
        }
    }
}

/// A stream is read to its end: only its end stops the reader. Where an attempt fails, be
/// it on bytes that are no text, all lines before it have been forwarded in their order,
/// and the rest is drained.
pub proof fn law_streams_are_read_to_their_end(
    name: Seq<char>,
    source: LogSource,
    reads: Seq<ReadOutcome>,
    times: Seq<u128>,
    steps: Seq<ReaderStep>,
)
    requires
        is_reading(name, source, reads, times, steps),
        steps.len() > 0,
    ensures
        mode_after(steps.last()) is None <==> reads.last() is Closed,
        mode_after(steps.last()) == Some(ReaderMode::Drain) <==> reads.last() is Failed,
        !(reads.last() is Line) ==> forwarded(steps).len() == reads.len() - 1,
        reads.last() is Line ==> forwarded(steps).len() == reads.len(),
        forall|i: int|
            0 <= i < forwarded(steps).len() ==> reads[i] == ReadOutcome::Line(
                (#[trigger] forwarded(steps)[i]).message,
            ) && forwarded(steps)[i].source == source && forwarded(steps)[i].timestamp_ms
                == times[i],
{
    let front = steps.drop_last();
    assert forall|i: int| 0 <= i < front.len() implies mode_after(#[trigger] front[i]) == Some(
        ReaderMode::Lines,
    ) by {
        assert(front[i] == steps[i]);
    }
    lemma_forwarded(front);
    let last = steps.len() - 1;
    assert(is_reader_step(name, source, reads[last], times[last], steps[last]));
    assert forall|i: int| 0 <= i < forwarded(steps).len() implies reads[i] == ReadOutcome::Line(
        (#[trigger] forwarded(steps)[i]).message,
    ) && forwarded(steps)[i].source == source && forwarded(steps)[i].timestamp_ms == times[i] by {
        assert(is_reader_step(name, source, reads[i], times[i], steps[i]));
        if i < front.len() {
            assert(front[i] == steps[i]);
            assert(forwarded(front)[i] == forwarded(steps)[i]);
        }
    }
}

/// The time stamp of a line: the milliseconds since the Unix epoch, or 0 where the
/// clock stands before it.
pub fn now_millis(since_epoch: Option<u128>) -> (millis: u128)
    ensures
        millis == (match since_epoch {
            Some(m) => m,
            None => 0,
        }),
{
    match since_epoch {
        Some(m) => m,
        None => 0,
    }
}

} // verus!
