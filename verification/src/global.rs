use vstd::prelude::*;

use crate::levels::{LogLevel, level_of_value, level_value, lemma_level_value_roundtrip};

verus! {

/// The process-wide logging state that the level rules fall back on: the
/// global level, kept as its numeric value, and whether any per-path rule is
/// registered.
pub struct Global {
    level: isize,
    loggers: bool,
}

impl Global {
    /// The numeric value of the global level.
    pub closed spec fn level_value(&self) -> isize {
        self.level
    }

    /// The global level.
    pub open spec fn level(&self) -> LogLevel {
        level_of_value(self.level_value() as int)
    }

    /// Whether per-path rules are registered.
    pub closed spec fn loggers(&self) -> bool {
        self.loggers
    }

    /// The state before anything is set: value 0 (`INFO`), no rules.
    pub fn new() -> (r: Global)
        ensures
            r.level_value() == 0,
            r.level() == LogLevel::INFO,
            !r.loggers(),
    {
        Global { level: 0, loggers: false }
    }

    /// The global level.
    pub fn get_level(&self) -> (r: LogLevel)
        ensures
            r == self.level(),
    {
        LogLevel::from_value(self.level)
    }

    /// Sets the global level.
    pub fn set_level(&mut self, level: LogLevel)
        ensures
            final(self).level_value() == level_value(level),
            final(self).level() == level,
            final(self).loggers() == old(self).loggers(),
    {
        proof {
            lemma_level_value_roundtrip(level);
        }
        self.level = level.value();
    }

    /// Whether per-path rules are registered.
    pub fn has_loggers(&self) -> (r: bool)
        ensures
            r == self.loggers(),
    {
        self.loggers
    }

    /// Records whether per-path rules are registered.
    pub fn set_loggers(&mut self, value: bool)
        ensures
            final(self).loggers() == value,
            final(self).level_value() == old(self).level_value(),
    {
        self.loggers = value;
    }
}

} // verus!
