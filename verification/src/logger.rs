//! Log levels.

use vstd::prelude::*;
use vstd::string::StringExecFns;

use crate::text::{ascii_upper, same_text, upper};

verus! {

/// How much is logged, from the least severe level on.
#[derive(Debug, Clone, Copy, PartialEq, Eq, PartialOrd, Ord, Structural)]
pub enum LogLevel {
    Debug,
    Info,
    Warning,
    Error,
}

impl LogLevel {
    /// All levels, from the least severe on.
    pub const VARIANTS: [LogLevel; 4] = [
        LogLevel::Debug,
        LogLevel::Info,
        LogLevel::Warning,
        LogLevel::Error,
    ];

    /// The name of the level.
    pub open spec fn name(self) -> Seq<char> {
        match self {
            LogLevel::Debug => "DEBUG"@,
            LogLevel::Info => "INFO"@,
            LogLevel::Warning => "WARNING"@,
            LogLevel::Error => "ERROR"@,
        }
    }

    /// The name of the level.
    pub fn as_str(self) -> (r: &'static str)
        ensures
            r@ == self.name(),
    {
        match self {
            LogLevel::Debug => "DEBUG",
            LogLevel::Info => "INFO",
            LogLevel::Warning => "WARNING",
            LogLevel::Error => "ERROR",
        }
    }
}

/// A text that names no log level.
#[derive(Debug)]
pub struct ParseLogLevelError {
    pub value: String,
}

impl ParseLogLevelError {
    /// The error in words.
    pub fn message(&self) -> (r: String)
        ensures
            r@ == "Invalid log level \""@ + self.value@
                + "\". Must be one of: DEBUG, INFO, WARNING, ERROR."@,
    {
        let mut out: String = "Invalid log level \"".to_owned();
        out.append(&self.value);
        out.append("\". Must be one of: DEBUG, INFO, WARNING, ERROR.");
        out
    }
}

/// The level that a text names, in any letter case.
pub open spec fn level_named(value: Seq<char>) -> Option<LogLevel> {
    let name = upper(value);
    if name == "DEBUG"@ {
        Some(LogLevel::Debug)
    } else if name == "INFO"@ {
        Some(LogLevel::Info)
    } else if name == "WARNING"@ {
        Some(LogLevel::Warning)
    } else if name == "ERROR"@ {
        Some(LogLevel::Error)
    } else {
        None
    }
}

/// The level that a text names, in any letter case.
pub fn parse_log_level(value: &str) -> (r: Result<LogLevel, ParseLogLevelError>)
    ensures
        match r {
            Ok(l) => level_named(value@) == Some(l),
            Err(e) => level_named(value@) is None && e.value@ == value@,
        },
{
    let name = ascii_upper(value);
    if same_text(&name, "DEBUG") {
        Ok(LogLevel::Debug)
    } else if same_text(&name, "INFO") {
        Ok(LogLevel::Info)
    } else if same_text(&name, "WARNING") {
        Ok(LogLevel::Warning)
    } else if same_text(&name, "ERROR") {
        Ok(LogLevel::Error)
    } else {
        Err(ParseLogLevelError { value: value.to_owned() })
    }
}

/// Every level is found by its name, in any letter case.
pub proof fn law_level_is_found_by_name(level: LogLevel, value: Seq<char>)
    requires
        upper(value) == level.name(),
    ensures
        level_named(value) == Some(level),
{
    reveal_strlit("DEBUG");
    reveal_strlit("INFO");
    reveal_strlit("WARNING");
    reveal_strlit("ERROR");
    assert("DEBUG"@[0] != "ERROR"@[0]);
    assert("DEBUG"@.len() != "INFO"@.len());
    assert("WARNING"@.len() != "INFO"@.len());
}

/// A level's own name is in upper case, so that it names the level.
pub proof fn law_level_name_reads_back(level: LogLevel)
    ensures
        level_named(level.name()) == Some(level),
{
    reveal_strlit("DEBUG");
    reveal_strlit("INFO");
    reveal_strlit("WARNING");
    reveal_strlit("ERROR");
    assert(upper(level.name()) =~= level.name());
    law_level_is_found_by_name(level, level.name());
}

} // verus!
