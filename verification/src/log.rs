//! The verbosity levels of the serial log.

use vstd::prelude::*;

verus! {

/// The available verbosity levels of the serial log.
#[derive(Copy, Clone, Debug, PartialEq, Eq, Structural)]
pub enum LogLevel {
    /// Designates very serious errors.
    Error,
    /// Designates hazardous situations.
    Warn,
    /// Designates useful information.
    Info,
    /// Designates lower priority information.
    Debug,
    /// Designates very low priority, often extremely verbose, information.
    Trace,
}

impl LogLevel {
    /// The level's number: 1 for errors up to 5 for traces.
    pub fn value(self) -> (r: usize)
        ensures
            r == match self {
                LogLevel::Error => 1usize,
                LogLevel::Warn => 2,
                LogLevel::Info => 3,
                LogLevel::Debug => 4,
                LogLevel::Trace => 5,
            },
    {
        match self {
            LogLevel::Error => 1,
            LogLevel::Warn => 2,
            LogLevel::Info => 3,
            LogLevel::Debug => 4,
            LogLevel::Trace => 5,
        }
    }

    /// The level's label in the log, five characters wide.
    pub fn label(self) -> (r: &'static str)
        ensures
            r@ == match self {
                LogLevel::Error => "ERROR"@,
                LogLevel::Warn => "WARN "@,
                LogLevel::Info => "Info "@,
                LogLevel::Debug => "Debug"@,
                LogLevel::Trace => "Trace"@,
            },
    {
        match self {
            LogLevel::Error => "ERROR",
            LogLevel::Warn => "WARN ",
            LogLevel::Info => "Info ",
            LogLevel::Debug => "Debug",
            LogLevel::Trace => "Trace",
        }
    }
}

} // verus!
