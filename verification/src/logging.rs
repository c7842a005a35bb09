//! Which messages are logged where nothing else is asked for.

use vstd::prelude::*;

verus! {

/// How much is logged.
#[derive(Debug, Clone, Copy, PartialEq, Eq, Structural)]
pub enum LogLevel {
    Off,
    Error,
    Warn,
    Info,
    Debug,
    Trace,
}

/// The levels that a build asks for.
#[derive(Debug, Clone, Copy, PartialEq, Eq, Structural)]
pub struct LogFeatures {
    pub trace: bool,
    pub debug: bool,
    pub info: bool,
    pub warn: bool,
    pub error: bool,
}

/// The level of a build: the most talkative one that it asks for, and nothing
/// at all where it asks for none.
pub fn default_level(features: LogFeatures) -> (level: LogLevel)
    ensures
        level == if features.trace {
            LogLevel::Trace
        } else if features.debug {
            LogLevel::Debug
        } else if features.info {
            LogLevel::Info
        } else if features.warn {
            LogLevel::Warn
        } else if features.error {
            LogLevel::Error
        } else {
            LogLevel::Off
        },
{
    if features.trace {
        LogLevel::Trace
    } else if features.debug {
        LogLevel::Debug
    } else if features.info {
        LogLevel::Info
    } else if features.warn {
        LogLevel::Warn
    } else if features.error {
        LogLevel::Error
    } else {
        LogLevel::Off
    }
}

} // verus!
