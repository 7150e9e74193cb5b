//! How the daemon writes its own log.

use crate::log_format::{self, CironFormatter, EventVisitor, Level};
use vstd::prelude::*;

verus! {

/// The name of a level.
pub open spec fn level_name(level: Level) -> Seq<char> {
    match level {
        Level::Trace => "TRACE"@,
        Level::Debug => "DEBUG"@,
        Level::Info => "INFO"@,
        Level::Warn => "WARN"@,
        Level::Error => "ERROR"@,
    }
}

/// A message without fields is written behind time, level and target.
pub proof fn law_message_is_written(
    time: &str,
    level: Level,
    target: &str,
    message: &str,
    fresh: EventVisitor,
    visitor: &mut EventVisitor,
    line: String,
)
    requires
        call_ensures(<EventVisitor as Default>::default, (), fresh),
        *old(visitor) == fresh,
        call_ensures(EventVisitor::record_debug, (visitor, "message", message), ()),
        call_ensures(
            CironFormatter::format_event,
            (&CironFormatter, time, false, level, target, &*final(visitor)),
            line,
        ),
    ensures
        line@ == time@ + " "@ + level_name(level) + "\t"@ + target@ + ": "@ + message@ + "\n"@,
{
    assert(line@ =~= time@ + " "@ + level_name(level) + "\t"@ + target@ + ": "@ + message@ + "\n"@);
}

/// Where the name of a program was recorded, rendered or as a string, the line shows it
/// where the target would stand, and is otherwise the same.
pub proof fn law_program_stands_in_place_of_the_target(
    time: &str,
    ansi: bool,
    level: Level,
    target: &str,
    name: &str,
    visitor: &mut EventVisitor,
    line: String,
    twin: &mut EventVisitor,
    twin_line: String,
    plain: String,
)
    requires
        call_ensures(EventVisitor::record_debug, (visitor, "process", name), ()),
        *old(twin) == *old(visitor),
        call_ensures(EventVisitor::record_str, (twin, "process", name), ()),
        call_ensures(
            CironFormatter::format_event,
            (&CironFormatter, time, ansi, level, target, &*final(visitor)),
            line,
        ),
        call_ensures(
            CironFormatter::format_event,
            (&CironFormatter, time, ansi, level, target, &*final(twin)),
            twin_line,
        ),
        old(visitor)@.process is None,
        call_ensures(
            CironFormatter::format_event,
            (&CironFormatter, time, ansi, level, name, &*old(visitor)),
            plain,
        ),
    ensures
        line@ == plain@,
        twin_line@ == plain@,
{
    reveal_strlit("process");
    reveal_strlit("message");
    assert("process"@[0] != "message"@[0]);
}

/// A field that is neither the message nor the name of a program is appended to the line,
/// as ` name=value`; a string is put in quotes for that.
pub proof fn law_fields_are_appended(
    time: &str,
    ansi: bool,
    level: Level,
    target: &str,
    field: &str,
    value: &str,
    quoted: &str,
    visitor: &mut EventVisitor,
    before: String,
    after: String,
    twin: &mut EventVisitor,
    twin_after: String,
)
    requires
        field@ != "message"@,
        field@ != "process"@,
        call_ensures(EventVisitor::record_debug, (visitor, field, value), ()),
        *old(twin) == *old(visitor),
        call_ensures(EventVisitor::record_quoted, (twin, field, value, quoted), ()),
        call_ensures(
            CironFormatter::format_event,
            (&CironFormatter, time, ansi, level, target, &*old(visitor)),
            before,
        ),
        call_ensures(
            CironFormatter::format_event,
            (&CironFormatter, time, ansi, level, target, &*final(visitor)),
            after,
        ),
        call_ensures(
            CironFormatter::format_event,
            (&CironFormatter, time, ansi, level, target, &*final(twin)),
            twin_after,
        ),
    ensures
        before@.len() > 0,
        before@.last() == '\n',
        after@ == before@.drop_last() + " "@ + field@ + "="@ + value@ + "\n"@,
        twin_after@ == before@.drop_last() + " "@ + field@ + "="@ + quoted@ + "\n"@,
{
    reveal_strlit("\n");
    assert(before@.drop_last() + "\n"@ =~= before@);
    assert(after@ =~= before@.drop_last() + " "@ + field@ + "="@ + value@ + "\n"@);
    assert(twin_after@ =~= before@.drop_last() + " "@ + field@ + "="@ + quoted@ + "\n"@);
}

/// Recording a string is recording it with the quotes that it gets.
pub proof fn law_strings_are_quoted(
    field: &str,
    value: &str,
    quoted: &str,
    visitor: &mut EventVisitor,
    twin: &mut EventVisitor,
)
    requires
        call_ensures(EventVisitor::record_str, (visitor, field, value), ()),
        *old(twin) == *old(visitor),
        quoted@ == log_format::debug_text(value@),
        call_ensures(EventVisitor::record_quoted, (twin, field, value, quoted), ()),
    ensures
        final(visitor)@ == final(twin)@,
{
}

/// A string that is not the name of a program is a field like any other, even under the
/// name `message`: it is appended to the fields in its quotes, and touches nothing else.
pub proof fn law_strings_are_fields(
    field: &str,
    value: &str,
    quoted: &str,
    visitor: &mut EventVisitor,
)
    requires
        field@ != "process"@,
        call_ensures(EventVisitor::record_quoted, (visitor, field, value, quoted), ()),
    ensures
        final(visitor)@.fields == old(visitor)@.fields + (" "@ + field@ + "="@ + quoted@),
        final(visitor)@.message == old(visitor)@.message,
        final(visitor)@.process == old(visitor)@.process,
{
}

/// The message is appended to what was there of it, and touches nothing else.
pub proof fn law_message_is_appended(more: &str, visitor: &mut EventVisitor)
    requires
        call_ensures(EventVisitor::record_debug, (visitor, "message", more), ()),
    ensures
        final(visitor)@.message == old(visitor)@.message + more@,
        final(visitor)@.process == old(visitor)@.process,
        final(visitor)@.fields == old(visitor)@.fields,
{
}

/// Colors surround the level and change nothing else; each level has its own.
pub proof fn law_colors(
    time: &str,
    level: Level,
    target: &str,
    visitor: EventVisitor,
    plain: String,
    colored: String,
    code: &'static str,
    name: &'static str,
)
    requires
        call_ensures(
            CironFormatter::format_event,
            (&CironFormatter, time, false, level, target, &visitor),
            plain,
        ),
        call_ensures(
            CironFormatter::format_event,
            (&CironFormatter, time, true, level, target, &visitor),
            colored,
        ),
        call_ensures(Level::color, (&level,), code),
        call_ensures(Level::as_str, (&level,), name),
    ensures
        name@ == level_name(level),
        code@ == (match level {
            Level::Trace => "35"@,
            Level::Debug => "34"@,
            Level::Info => "32"@,
            Level::Warn => "33"@,
            Level::Error => "31"@,
        }),
        ({
            let head = time@ + " "@;
            let rest = plain@.skip((head.len() + name@.len()) as int);
            &&& plain@ == head + name@ + rest
            &&& colored@ == head + "\x1b["@ + code@ + "m"@ + name@ + "\x1b[0m"@ + rest
        }),
{
    let head = time@ + " "@;
    let rest = plain@.skip((head.len() + name@.len()) as int);
    let event = visitor@;
    let tail = "\t"@ + log_format::origin(target@, event) + ": "@ + event.message + event.fields
        + "\n"@;
    assert(plain@ =~= head + name@ + tail);
    assert(rest =~= tail);
    assert(colored@ =~= head + "\x1b["@ + code@ + "m"@ + name@ + "\x1b[0m"@ + tail);
}

} // verus!
