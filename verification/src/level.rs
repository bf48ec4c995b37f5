use tracing::Level;
use vstd::prelude::*;

verus! {

/// The level type of `tracing`: carried here, its contents unread.
#[verifier::external_type_specification]
#[verifier::external_body]
pub struct ExLevel(Level);

/// What `tracing` parses `name` into as a `Level` (its `FromStr` impl).
pub uninterp spec fn spec_tracing_level_parse(name: Seq<char>) -> Level;

/// Calls `<tracing::Level as FromStr>::from_str`. Its source maps the names
/// `trace`, `debug`, `info`, `warn` and `error` (in any case) to the level of
/// that name, and fails on other text that is not a number from 1 to 5; the
/// `requires` keeps to the five lower-case names, on which it does not fail.
/// The five levels are five distinct constants, so another of the five names
/// gives another level.
#[verifier::external_body]
fn parse_tracing_level(name: &str) -> (level: Level)
    requires
        spec_level_from_name(name@) is Some,
    ensures
        level == spec_tracing_level_parse(name@),
        forall|other: Seq<char>|
            spec_level_from_name(other) is Some && other != name@ ==> spec_tracing_level_parse(
                other,
            ) != level,
{
    name.parse::<Level>().unwrap()
}

/// The five levels a datapack log can carry.
#[derive(Debug, Clone, Copy, PartialEq, Eq, Structural)]
pub enum LogLevel {
    Trace,
    Debug,
    Info,
    Warn,
    Error,
}

/// The `tracing` level that corresponds to a log level.
pub open spec fn spec_tracing_level(l: LogLevel) -> Level {
    match l {
        LogLevel::Trace => spec_tracing_level_parse("trace"@),
        LogLevel::Debug => spec_tracing_level_parse("debug"@),
        LogLevel::Info => spec_tracing_level_parse("info"@),
        LogLevel::Warn => spec_tracing_level_parse("warn"@),
        LogLevel::Error => spec_tracing_level_parse("error"@),
    }
}

impl LogLevel {
    /// Maps the lower-case names `trace`, `debug`, `info`, `warn` and `error`
    /// to their level; any other text gives `None`.
    pub fn from_str(v: &str) -> (r: Option<Self>)
        ensures
            r == spec_level_from_name(v@),
    {
        proof {
            reveal_strlit("trace");
            reveal_strlit("debug");
            reveal_strlit("info");
            reveal_strlit("warn");
            reveal_strlit("error");
        }
        let s = String::from_str(v);
        if s == String::from_str("trace") {
            Some(Self::Trace)
        } else if s == String::from_str("debug") {
            Some(Self::Debug)
        } else if s == String::from_str("info") {
            Some(Self::Info)
        } else if s == String::from_str("warn") {
            Some(Self::Warn)
        } else if s == String::from_str("error") {
            Some(Self::Error)
        } else {
            None
        }
    }

    /// The `tracing` level this log level is reported at.
    pub fn to_tracing(&self) -> (r: Level)
        ensures
            r == spec_tracing_level(*self),
            forall|other: LogLevel| other != *self ==> spec_tracing_level(other) != r,
    {
        proof {
            law_level_names_round_trip(*self, spec_level_name(*self));
            assert forall|other: LogLevel| other != *self implies spec_level_from_name(
                spec_level_name(other),
            ) is Some && spec_level_name(other) != spec_level_name(*self) by {
                law_level_names_round_trip(other, spec_level_name(*self));
            }
            reveal_strlit("trace");
            reveal_strlit("debug");
            reveal_strlit("info");
            reveal_strlit("warn");
            reveal_strlit("error");
        }
        let r = match self {
            Self::Trace => parse_tracing_level("trace"),
            Self::Debug => parse_tracing_level("debug"),
            Self::Info => parse_tracing_level("info"),
            Self::Warn => parse_tracing_level("warn"),
            Self::Error => parse_tracing_level("error"),
        };
        proof {
            assert forall|other: LogLevel| other != *self implies spec_tracing_level(other) != r by {
                assert(spec_tracing_level(other) == spec_tracing_level_parse(spec_level_name(other)));
                assert(spec_tracing_level_parse(spec_level_name(other)) != r);
            }
        }
        r
    }
}

/// The level whose lower-case name is `name`, if any.
pub open spec fn spec_level_from_name(name: Seq<char>) -> Option<LogLevel> {
    if name == "trace"@ {
        Some(LogLevel::Trace)
    } else if name == "debug"@ {
        Some(LogLevel::Debug)
    } else if name == "info"@ {
        Some(LogLevel::Info)
    } else if name == "warn"@ {
        Some(LogLevel::Warn)
    } else if name == "error"@ {
        Some(LogLevel::Error)
    } else {
        None
    }
}

/// The lower-case name a level is logged under.
pub open spec fn spec_level_name(l: LogLevel) -> Seq<char> {
    match l {
        LogLevel::Trace => "trace"@,
        LogLevel::Debug => "debug"@,
        LogLevel::Info => "info"@,
        LogLevel::Warn => "warn"@,
        LogLevel::Error => "error"@,
    }
}

/// Each level is read back from its name, and a name that is read as a
/// level is that level's name: the five names and the five levels match one
/// to one.
pub proof fn law_level_names_round_trip(l: LogLevel, name: Seq<char>)
    ensures
        spec_level_from_name(spec_level_name(l)) == Some(l),
        spec_level_from_name(name) == Some(l) ==> name == spec_level_name(l),
{
    reveal_strlit("trace");
    reveal_strlit("debug");
    reveal_strlit("info");
    reveal_strlit("warn");
    reveal_strlit("error");
    assert("trace"@[0] != "debug"@[0]);
    assert("trace"@[0] != "info"@[0]);
    assert("trace"@[0] != "warn"@[0]);
    assert("trace"@[0] != "error"@[0]);
    assert("debug"@[0] != "info"@[0]);
    assert("debug"@[0] != "warn"@[0]);
    assert("debug"@[0] != "error"@[0]);
    assert("info"@[0] != "warn"@[0]);
    assert("info"@[0] != "error"@[0]);
    assert("warn"@[0] != "error"@[0]);
}

} // verus!
