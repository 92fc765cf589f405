//! How much to log, chosen by how often verbosity was asked for.

use vstd::prelude::*;

verus! {

/// The most detailed level of message that is still logged.
#[derive(Clone, Copy, Debug, PartialEq, Eq, Structural)]
pub enum LevelFilter {
    Off,
    Error,
    Warn,
    Info,
    Debug,
    Trace,
}

/// The level for a verbosity count: nothing is logged at 0, each step up to 4
/// admits one more level, and every other count admits all.
pub open spec fn level_for(verbosity: int) -> LevelFilter {
    if verbosity == 0 {
        LevelFilter::Off
    } else if verbosity == 1 {
        LevelFilter::Error
    } else if verbosity == 2 {
        LevelFilter::Warn
    } else if verbosity == 3 {
        LevelFilter::Info
    } else if verbosity == 4 {
        LevelFilter::Debug
    } else {
        LevelFilter::Trace
    }
}

/// Chooses the log level for a verbosity count.
pub fn select_log_level_filter(verbosity: i32) -> (level: LevelFilter)
    ensures
        level == level_for(verbosity as int),
{
    match verbosity {
        0 => LevelFilter::Off,
        1 => LevelFilter::Error,
        2 => LevelFilter::Warn,
        3 => LevelFilter::Info,
        4 => LevelFilter::Debug,
        _ => LevelFilter::Trace,
    }
}

} // verus!
