//! Log levels and the form of a log line.
use vstd::prelude::*;

use crate::text::same_text;

verus! {

/// Which messages are logged: those of this level and of the more severe ones.
#[derive(Clone, Copy, PartialEq, Eq, Structural, Debug)]
pub enum LogLevelFilter {
    Error,
    Warn,
    Info,
    Debug,
}

/// The filter that a text names, if it names one.
pub open spec fn named_filter(level: Seq<char>) -> Option<LogLevelFilter> {
    if level == "error"@ {
        Some(LogLevelFilter::Error)
    } else if level == "warn"@ {
        Some(LogLevelFilter::Warn)
    } else if level == "info"@ {
        Some(LogLevelFilter::Info)
    } else if level == "debug"@ {
        Some(LogLevelFilter::Debug)
    } else {
        None
    }
}

/// The filter that a text names, if it names one.
pub fn level_filter(level: &str) -> (filter: Option<LogLevelFilter>)
    ensures
        filter == named_filter(level@),
{
    if same_text(level, "error") {
        Some(LogLevelFilter::Error)
    } else if same_text(level, "warn") {
        Some(LogLevelFilter::Warn)
    } else if same_text(level, "info") {
        Some(LogLevelFilter::Info)
    } else if same_text(level, "debug") {
        Some(LogLevelFilter::Debug)
    } else {
        None
    }
}

/// The filter to log with. The level has to be a known one, as [`level_filter`] tells.
pub fn init(level: &str) -> (filter: LogLevelFilter)
    requires
        named_filter(level@) is Some,
    ensures
        Some(filter) == named_filter(level@),
{
    level_filter(level).unwrap()
}

/// The line that is logged for a message.
pub fn log_line(level: &str, message: &str) -> (line: String)
    ensures
        line@ == level@ + " - "@ + message@,
{
    let mut line = level.to_owned();
    line.append(" - ");
    line.append(message);
    line
}

/// Four texts name a filter, each its own, and no other text does.
pub proof fn law_four_levels_are_known(level: Seq<char>)
    ensures
        named_filter(level) == Some(LogLevelFilter::Error) <==> level == "error"@,
        named_filter(level) == Some(LogLevelFilter::Warn) <==> level == "warn"@,
        named_filter(level) == Some(LogLevelFilter::Info) <==> level == "info"@,
        named_filter(level) == Some(LogLevelFilter::Debug) <==> level == "debug"@,
        named_filter(level) is None <==> level != "error"@ && level != "warn"@ && level != "info"@
            && level != "debug"@,
{
    reveal_strlit("error");
    reveal_strlit("warn");
    reveal_strlit("info");
    reveal_strlit("debug");
    assert("error"@[0] == 'e' && "warn"@[0] == 'w' && "info"@[0] == 'i' && "debug"@[0] == 'd');
}

} // verus!
