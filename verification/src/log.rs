//! Log levels: which messages the kernel lets through.

use vstd::prelude::*;

verus! {

/// How much a message matters; the lower, the more.
#[derive(Debug, Clone, Copy, PartialEq, Eq, Structural)]
pub enum LogLevel {
    Error,
    Warn,
    Info,
    Debug,
    Trace,
}

/// The number of a level: 1 for errors up to 5 for traces.
pub open spec fn level_number(level: LogLevel) -> u8 {
    match level {
        LogLevel::Error => 1,
        LogLevel::Warn => 2,
        LogLevel::Info => 3,
        LogLevel::Debug => 4,
        LogLevel::Trace => 5,
    }
}

/// Computes the number of a level.
pub fn level_as_u8(level: LogLevel) -> (n: u8)
    ensures
        n == level_number(level),
{
    match level {
        LogLevel::Error => 1,
        LogLevel::Warn => 2,
        LogLevel::Info => 3,
        LogLevel::Debug => 4,
        LogLevel::Trace => 5,
    }
}

/// The level up to which messages are let through.
#[derive(Debug, Clone, Copy, PartialEq, Eq, Structural)]
pub struct LogFilter {
    pub level: LogLevel,
}

impl LogFilter {
    /// The filter that the kernel starts with: it lets through what matters
    /// as much as information, or more.
    pub fn new() -> (f: LogFilter)
        ensures
            f.level == LogLevel::Info,
    {
        LogFilter { level: LogLevel::Info }
    }
}

/// Sets the level up to which messages are let through.
pub fn set_log_level(filter: &mut LogFilter, level: LogLevel)
    ensures
        final(filter).level == level,
{
    filter.level = level;
}

/// Whether a message of the level `level` is let through.
pub fn log_enabled(filter: &LogFilter, level: LogLevel) -> (r: bool)
    ensures
        r == (level_number(level) <= level_number(filter.level)),
{
    level_as_u8(level) <= level_as_u8(filter.level)
}

/// The name of a level, as it stands in a message.
pub fn level_str(level: LogLevel) -> (s: &'static str)
    ensures
        s@ == match level {
            LogLevel::Error => "ERROR"@,
            LogLevel::Warn => "WARN"@,
            LogLevel::Info => "INFO"@,
            LogLevel::Debug => "DEBUG"@,
            LogLevel::Trace => "TRACE"@,
        },
{
    match level {
        LogLevel::Error => "ERROR",
        LogLevel::Warn => "WARN",
        LogLevel::Info => "INFO",
        LogLevel::Debug => "DEBUG",
        LogLevel::Trace => "TRACE",
    }
}

} // verus!
