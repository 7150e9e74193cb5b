//! How the daemon writes its own log.

use crate::text;
use vstd::prelude::*;
use vstd::string::*;

verus! {

/// How much an event matters.
#[derive(Debug, Clone, Copy, PartialEq, Eq, Structural)]
pub enum Level {
    Trace,
    Debug,
    Info,
    Warn,
    Error,
}

impl Level {
    /// The name of the level.
    pub open spec fn text(self) -> Seq<char> {
        match self {
            Level::Trace => "TRACE"@,
            Level::Debug => "DEBUG"@,
            Level::Info => "INFO"@,
            Level::Warn => "WARN"@,
            Level::Error => "ERROR"@,
        }
    }

    /// The number of the terminal color of the level.
    pub open spec fn color_code(self) -> Seq<char> {
        match self {
            Level::Trace => "35"@,
            Level::Debug => "34"@,
            Level::Info => "32"@,
            Level::Warn => "33"@,
            Level::Error => "31"@,
        }
    }

    /// The name of the level.
    pub fn as_str(&self) -> (name: &'static str)
        ensures
            name@ == self.text(),
    {
        match self {
            Level::Trace => "TRACE",
            Level::Debug => "DEBUG",
            Level::Info => "INFO",
            Level::Warn => "WARN",
            Level::Error => "ERROR",
        }
    }

    /// The number of the terminal color of the level.
    pub fn color(&self) -> (code: &'static str)
        ensures
            code@ == self.color_code(),
    {
        match self {
            Level::Trace => "35",
            Level::Debug => "34",
            Level::Info => "32",
            Level::Warn => "33",
            Level::Error => "31",
        }
    }
}

/// The text that `{:?}` makes of a string: quoted, and escaped where necessary.
pub uninterp spec fn debug_text(value: Seq<char>) -> Seq<char>;

/// `std::fmt::Debug` for `str`, by way of `format!`. The text it returns depends on the
/// string alone; which characters are escaped, and how, is not stated.
#[verifier::external_body]
fn debug_str(value: &str) -> (quoted: String)
    ensures
        quoted@ == debug_text(value@),
{
    format!("{:?}", value)
}

/// What has been collected of an event.
pub struct EventModel {
    /// The name of the program that the event is about.
    pub process: Option<Seq<char>>,
    pub message: Seq<char>,
    /// The other fields, each as ` name=value`.
    pub fields: Seq<char>,
}

/// Collects the fields of an event.
#[derive(Debug)]
pub struct EventVisitor {
    process: Option<String>,
    message: String,
    fields: String,
}

impl View for EventVisitor {
    type V = EventModel;

    closed spec fn view(&self) -> EventModel {
        EventModel {
            process: text::optional_text(self.process),
            message: self.message@,
            fields: self.fields@,
        }
    }
}

/// An event of which nothing has been collected.
pub open spec fn no_fields() -> EventModel {
    EventModel { process: None, message: Seq::empty(), fields: Seq::empty() }
}

/// One more field, as it stands behind the message.
pub open spec fn field_text(field: Seq<char>, rendered: Seq<char>) -> Seq<char> {
    " "@ + field + "="@ + rendered
}

/// One more field has been collected, whose value is rendered as that.
pub open spec fn with_debug(
    event: EventModel,
    field: Seq<char>,
    rendered: Seq<char>,
) -> EventModel {
    if field == "message"@ {
        EventModel { message: event.message + rendered, ..event }
    } else if field == "process"@ {
        EventModel { process: Some(rendered), ..event }
    } else {
        EventModel { fields: event.fields + field_text(field, rendered), ..event }
    }
}

/// One more field has been collected, whose value is a string. Only the name of a
/// program is taken as it is.
pub open spec fn with_str(
    event: EventModel,
    field: Seq<char>,
    value: Seq<char>,
    quoted: Seq<char>,
) -> EventModel {
    if field == "process"@ {
        EventModel { process: Some(value), ..event }
    } else {
        EventModel { fields: event.fields + field_text(field, quoted), ..event }
    }
}

impl Default for EventVisitor {
    fn default() -> (visitor: Self)
        ensures
            visitor@ == no_fields(),
    {
        EventVisitor { process: None, message: String::new(), fields: String::new() }
    }
}

impl EventVisitor {
    /// Takes note of a field whose value has been rendered.
    pub fn record_debug(&mut self, field: &str, rendered: &str)
        ensures
            final(self)@ == with_debug(old(self)@, field@, rendered@),
    {
        if text::same_text(field, "message") {
            self.message.append(rendered);
        } else if text::same_text(field, "process") {
            self.process = Some(rendered.to_owned());
        } else {
            self.append_field(field, rendered);
        }
    }

    /// Takes note of a field whose value is a string.
    pub fn record_str(&mut self, field: &str, value: &str)
        ensures
            final(self)@ == with_str(old(self)@, field@, value@, debug_text(value@)),
    {
        let quoted: String = debug_str(value);
        self.record_quoted(field, value, quoted.as_str());
    }

    /// Takes note of a field whose value is a string that reads `quoted` in quotes.
    pub fn record_quoted(&mut self, field: &str, value: &str, quoted: &str)
        ensures
            final(self)@ == with_str(old(self)@, field@, value@, quoted@),
    {
        if text::same_text(field, "process") {
            self.process = Some(value.to_owned());
        } else {
            self.append_field(field, quoted);
        }
    }

    /// Appends ` name=value` to the other fields.
    fn append_field(&mut self, field: &str, rendered: &str)
        ensures
            final(self)@ == (EventModel {
                fields: old(self)@.fields + field_text(field@, rendered@),
                ..old(self)@
            }),
    {
        self.fields.append(" ");
        self.fields.append(field);
        self.fields.append("=");
        self.fields.append(rendered);
        assert(self.fields@ =~= old(self)@.fields + field_text(field@, rendered@));
    }
}

/// The level as it stands in a line, in color if the terminal has colors.
pub open spec fn level_text(level: Level, ansi: bool) -> Seq<char> {
    if ansi {
        "\x1b["@ + level.color_code() + "m"@ + level.text() + "\x1b[0m"@
    } else {
        level.text()
    }
}

/// Who the event is said to come from: the program it is about, or else its target.
pub open spec fn origin(target: Seq<char>, event: EventModel) -> Seq<char> {
    match event.process {
        Some(name) => name,
        None => target,
    }
}

/// The line that is written for an event.
pub open spec fn event_line(
    time: Seq<char>,
    ansi: bool,
    level: Level,
    target: Seq<char>,
    event: EventModel,
) -> Seq<char> {
    time + " "@ + level_text(level, ansi) + "\t"@ + origin(target, event) + ": "@ + event.message
        + event.fields + "\n"@
}

/// Writes the events of the daemon.
///
/// The level is followed by a tab, so that what follows lines up in any font. An event
/// that carries a `process` field, as forwarded output does, shows the name of that
/// program in place of its target.
#[derive(Debug, Clone, Copy)]
pub struct CironFormatter;

impl CironFormatter {
    /// The line for an event.
    pub fn format_event(
        &self,
        time: &str,
        ansi: bool,
        level: Level,
        target: &str,
        visitor: &EventVisitor,
    ) -> (line: String)
        ensures
            line@ == event_line(time@, ansi, level, target@, visitor@),
    {
        let mut line: String = time.to_owned();
        line.append(" ");
        let ghost before = line@;
        if ansi {
            line.append("\x1b[");
            line.append(level.color());
            line.append("m");
            line.append(level.as_str());
            line.append("\x1b[0m");
        } else {
            line.append(level.as_str());
        }
        assert(line@ =~= before + level_text(level, ansi));
        line.append("\t");
        match &visitor.process {
            Some(name) => line.append(name.as_str()),
            None => line.append(target),
        }
        line.append(": ");
        line.append(visitor.message.as_str());
        line.append(visitor.fields.as_str());
        line.append("\n");
        line
    }
}

/// The line of an event that carries the name of a program shows that name, and not
/// the target; without one it shows the target.
pub proof fn law_process_name_replaces_target(
    time: Seq<char>,
    ansi: bool,
    level: Level,
    target: Seq<char>,
    other: Seq<char>,
    event: EventModel,
)
    ensures
        event.process matches Some(name) ==> event_line(time, ansi, level, target, event)
            == event_line(time, ansi, level, other, event) && origin(target, event) == name,
        event.process is None ==> origin(target, event) == target,
{
}

/// The name of a program is recognized whether its field holds a string or a value that
/// was rendered.
pub proof fn law_process_is_recognized_either_way(
    event: EventModel,
    name: Seq<char>,
    quoted: Seq<char>,
)
    ensures
        with_str(event, "process"@, name, quoted) == with_debug(event, "process"@, name),
        with_debug(event, "process"@, name).process == Some(name),
{
    reveal_strlit("process");
    reveal_strlit("message");
    assert("process"@[0] != "message"@[0]);
}

/// A field that is neither the message nor the name of a program is appended to the line.
pub proof fn law_other_fields_follow_the_message(
    time: Seq<char>,
    ansi: bool,
    level: Level,
    target: Seq<char>,
    event: EventModel,
    field: Seq<char>,
    rendered: Seq<char>,
)
    requires
        field != "message"@,
        field != "process"@,
    ensures
        event_line(time, ansi, level, target, with_debug(event, field, rendered)) == event_line(
            time,
            ansi,
            level,
            target,
            event,
        ).drop_last() + field_text(field, rendered) + "\n"@,
{
    reveal_strlit("\n");
    let with = event_line(time, ansi, level, target, with_debug(event, field, rendered));
    let without = event_line(time, ansi, level, target, event);
    assert(without =~= without.drop_last() + "\n"@);
    assert(with =~= without.drop_last() + field_text(field, rendered) + "\n"@);
}

/// It makes no difference whether the message is collected before or after another field.
pub proof fn law_message_may_come_late(
    event: EventModel,
    message: Seq<char>,
    field: Seq<char>,
    rendered: Seq<char>,
)
    requires
        field != "message"@,
    ensures
        with_debug(with_debug(event, "message"@, message), field, rendered) == with_debug(
            with_debug(event, field, rendered),
            "message"@,
            message,
        ),
{
}

/// The level is written without padding and followed by a tab.
pub proof fn law_level_is_followed_by_a_tab(
    time: Seq<char>,
    level: Level,
    target: Seq<char>,
    event: EventModel,
)
    ensures
        (time + " "@ + level.text() + "\t"@).is_prefix_of(
            event_line(time, false, level, target, event),
        ),
{
    let line = event_line(time, false, level, target, event);
    let front = time + " "@ + level.text() + "\t"@;
    assert(front =~= line.subrange(0, front.len() as int));
}

} // verus!
