//! The colours of the log.
use vstd::prelude::*;
use crate::log::filter::LogLevel;

verus! {

/// Ends a coloured text.
pub const RESET: &'static str = "\u{1b}[0m";

/// The colour of what matters less: module, place, time and text.
pub const GRAY: &'static str = "\u{1b}[90m";

/// The colour and the label of a level.
pub open spec fn style(level: LogLevel) -> (&'static str, &'static str) {
    match level {
        LogLevel::Error => ("\u{1b}[1;31m", "ERROR"),
        LogLevel::Warn => ("\u{1b}[1;33m", "WARN"),
        LogLevel::Info => ("\u{1b}[32m", "INFO"),
        LogLevel::Debug => ("\u{1b}[36m", "DEBUG"),
        LogLevel::Trace => ("\u{1b}[35m", "TRACE"),
    }
}

/// The colour and the label of a level.
pub fn level_style(level: LogLevel) -> (r: (&'static str, &'static str))
    ensures
        r == style(level),
{
    match level {
        LogLevel::Error => ("\u{1b}[1;31m", "ERROR"),
        LogLevel::Warn => ("\u{1b}[1;33m", "WARN"),
        LogLevel::Info => ("\u{1b}[32m", "INFO"),
        LogLevel::Debug => ("\u{1b}[36m", "DEBUG"),
        LogLevel::Trace => ("\u{1b}[35m", "TRACE"),
    }
}

/// The label of a level.
pub fn label_str(level: LogLevel) -> (r: &'static str)
    ensures
        r == style(level).1,
{
    level_style(level).1
}

/// The labels of the levels, and their colours: red and yellow in bold for what needs attention, green,
/// cyan and magenta for the rest.
pub proof fn law_styles()
    ensures
        style(LogLevel::Error) == ("\u{1b}[1;31m", "ERROR"),
        style(LogLevel::Warn) == ("\u{1b}[1;33m", "WARN"),
        style(LogLevel::Info) == ("\u{1b}[32m", "INFO"),
        style(LogLevel::Debug) == ("\u{1b}[36m", "DEBUG"),
        style(LogLevel::Trace) == ("\u{1b}[35m", "TRACE"),
{
}

} // verus!
