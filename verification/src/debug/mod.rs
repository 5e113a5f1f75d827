//! Log levels, and which messages the kernel log lets through.

pub mod logger;

use vstd::prelude::*;

verus! {

/// The levels of log messages, from the least to the most severe.
#[derive(Copy, Clone, Debug, PartialEq, Eq, Structural)]
pub enum Level {
    /// Step-by-step detail.
    Trace,
    /// Detail for debugging.
    Debug,
    /// Information.
    Info,
    /// Something may be wrong.
    Warn,
    /// A milestone.
    Major,
    /// Something is wrong.
    Error,
    /// Something is wrong beyond recovery.
    Fatal,
}

/// The place of a level in the order of severity.
pub open spec fn level_rank(level: Level) -> int {
    match level {
        Level::Trace => 0,
        Level::Debug => 1,
        Level::Info => 2,
        Level::Warn => 3,
        Level::Major => 4,
        Level::Error => 5,
        Level::Fatal => 6,
    }
}

/// The name a level is logged under.
pub open spec fn level_name(level: Level) -> Seq<char> {
    match level {
        Level::Trace => "TRACE"@,
        Level::Debug => "DEBUG"@,
        Level::Info => "INFO"@,
        Level::Warn => "WARN"@,
        Level::Major => "MAJOR"@,
        Level::Error => "ERROR"@,
        Level::Fatal => "FATAL"@,
    }
}

impl Level {
    /// The place of the level in the order of severity.
    pub fn rank(self) -> (r: u8)
        ensures
            r == level_rank(self),
    {
        match self {
            Level::Trace => 0,
            Level::Debug => 1,
            Level::Info => 2,
            Level::Warn => 3,
            Level::Major => 4,
            Level::Error => 5,
            Level::Fatal => 6,
        }
    }

    /// The name the level is logged under.
    pub fn into(self) -> (r: &'static str)
        ensures
            r@ == level_name(self),
    {
        match self {
            Level::Trace => "TRACE",
            Level::Debug => "DEBUG",
            Level::Info => "INFO",
            Level::Warn => "WARN",
            Level::Major => "MAJOR",
            Level::Error => "ERROR",
            Level::Fatal => "FATAL",
        }
    }
}

} // verus!
