use vstd::prelude::*;

use crate::text::{chars_of, upper_case, spec_upper, text_is, is_ascii_text, ascii_upper, ascii_lower};

verus! {

/// The logging levels, from the least to the most severe.
#[derive(Clone, Copy, Debug, PartialEq, Eq, Structural, PartialOrd, Ord, Hash)]
pub enum LogLevel {
    /// Not a level that can be asked for.
    UNSUPPORTED,
    /// Log all messages.
    TRACE,
    /// Log only debug messages and above.
    DEBUG,
    /// Log only verbose messages and above.
    VERBOSE,
    /// Log only info messages and above.
    INFO,
    /// Log only notice messages and above.
    NOTICE,
    /// Log only warn messages and above.
    WARN,
    /// Log only error messages and above.
    ERROR,
    /// Log only critical messages.
    CRITICAL,
    /// Unconditional messages.
    LOG,
}

/// The numeric value of a level; the levels are ordered by it.
pub open spec fn level_value(l: LogLevel) -> int {
    match l {
        LogLevel::UNSUPPORTED => -10000,
        LogLevel::TRACE => -30,
        LogLevel::DEBUG => -20,
        LogLevel::VERBOSE => -10,
        LogLevel::INFO => 0,
        LogLevel::NOTICE => 10,
        LogLevel::WARN => 20,
        LogLevel::ERROR => 30,
        LogLevel::CRITICAL => 40,
        LogLevel::LOG => 50,
    }
}

/// The level that a numeric value stands for.
pub open spec fn level_of_value(v: int) -> LogLevel {
    if v == -30 {
        LogLevel::TRACE
    } else if v == -20 {
        LogLevel::DEBUG
    } else if v == -10 {
        LogLevel::VERBOSE
    } else if v == 0 {
        LogLevel::INFO
    } else if v == 10 {
        LogLevel::NOTICE
    } else if v == 20 {
        LogLevel::WARN
    } else if v == 30 {
        LogLevel::ERROR
    } else if v == 40 {
        LogLevel::CRITICAL
    } else if v == 50 {
        LogLevel::LOG
    } else {
        LogLevel::UNSUPPORTED
    }
}

/// `a` is at most as severe as `b`.
pub open spec fn level_le(a: LogLevel, b: LogLevel) -> bool {
    level_value(a) <= level_value(b)
}

/// The name of a level, as it is printed.
pub open spec fn level_name(l: LogLevel) -> Seq<char> {
    match l {
        LogLevel::UNSUPPORTED => "UNSUPPORTED"@,
        LogLevel::TRACE => "TRACE"@,
        LogLevel::DEBUG => "DEBUG"@,
        LogLevel::VERBOSE => "VERBOSE"@,
        LogLevel::INFO => "INFO"@,
        LogLevel::NOTICE => "NOTICE"@,
        LogLevel::WARN => "WARN"@,
        LogLevel::ERROR => "ERROR"@,
        LogLevel::CRITICAL => "CRITICAL"@,
        LogLevel::LOG => "LOG"@,
    }
}

/// The levels that a configuration can name: `TRACE` to `CRITICAL`.
pub open spec fn is_named_level(l: LogLevel) -> bool {
    l != LogLevel::UNSUPPORTED && l != LogLevel::LOG
}

/// The level whose name is exactly `s` among the nameable levels.
pub open spec fn level_with_name(s: Seq<char>) -> Option<LogLevel> {
    if s == "TRACE"@ {
        Some(LogLevel::TRACE)
    } else if s == "DEBUG"@ {
        Some(LogLevel::DEBUG)
    } else if s == "VERBOSE"@ {
        Some(LogLevel::VERBOSE)
    } else if s == "INFO"@ {
        Some(LogLevel::INFO)
    } else if s == "NOTICE"@ {
        Some(LogLevel::NOTICE)
    } else if s == "WARN"@ {
        Some(LogLevel::WARN)
    } else if s == "ERROR"@ {
        Some(LogLevel::ERROR)
    } else if s == "CRITICAL"@ {
        Some(LogLevel::CRITICAL)
    } else {
        None
    }
}

/// What parsing `s` as a level gives: the level named by `s` in upper case.
pub open spec fn spec_parse_level(s: Seq<char>) -> Result<LogLevel, ()> {
    match level_with_name(spec_upper(s)) {
        Some(l) => Ok(l),
        None => Err(()),
    }
}

/// What parsing an ASCII text as a level gives: the level named by the text
/// with its letters `a` to `z` made upper case.
pub open spec fn ascii_parse_level(s: Seq<char>) -> Result<LogLevel, ()> {
    match level_with_name(s.map_values(|c: char| ascii_upper(c))) {
        Some(l) => Ok(l),
        None => Err(()),
    }
}

impl LogLevel {
    /// The numeric value of the level.
    pub fn value(self) -> (r: isize)
        ensures
            r == level_value(self),
    {
        match self {
            LogLevel::UNSUPPORTED => -10000,
            LogLevel::TRACE => -30,
            LogLevel::DEBUG => -20,
            LogLevel::VERBOSE => -10,
            LogLevel::INFO => 0,
            LogLevel::NOTICE => 10,
            LogLevel::WARN => 20,
            LogLevel::ERROR => 30,
            LogLevel::CRITICAL => 40,
            LogLevel::LOG => 50,
        }
    }

    /// The level that a numeric value stands for; any other value is `UNSUPPORTED`.
    pub fn from_value(v: isize) -> (r: LogLevel)
        ensures
            r == level_of_value(v as int),
    {
        if v == -30 {
            LogLevel::TRACE
        } else if v == -20 {
            LogLevel::DEBUG
        } else if v == -10 {
            LogLevel::VERBOSE
        } else if v == 0 {
            LogLevel::INFO
        } else if v == 10 {
            LogLevel::NOTICE
        } else if v == 20 {
            LogLevel::WARN
        } else if v == 30 {
            LogLevel::ERROR
        } else if v == 40 {
            LogLevel::CRITICAL
        } else if v == 50 {
            LogLevel::LOG
        } else {
            LogLevel::UNSUPPORTED
        }
    }

    /// `self` is at most as severe as `other`.
    pub fn le(self, other: LogLevel) -> (r: bool)
        ensures
            r == level_le(self, other),
    {
        self.value() <= other.value()
    }

    /// The printed name of the level.
    pub fn to_string(&self) -> (r: String)
        ensures
            r@ == level_name(*self),
    {
        let s = match self {
            LogLevel::UNSUPPORTED => "UNSUPPORTED",
            LogLevel::TRACE => "TRACE",
            LogLevel::DEBUG => "DEBUG",
            LogLevel::VERBOSE => "VERBOSE",
            LogLevel::INFO => "INFO",
            LogLevel::NOTICE => "NOTICE",
            LogLevel::WARN => "WARN",
            LogLevel::ERROR => "ERROR",
            LogLevel::CRITICAL => "CRITICAL",
            LogLevel::LOG => "LOG",
        };
        String::from_str(s)
    }

    /// Parses a level by its name, whatever its case.
    pub fn parse(s: &str) -> (r: Result<LogLevel, ()>)
        ensures
            r == spec_parse_level(s@),
            is_ascii_text(s@) ==> r == ascii_parse_level(s@),
    {
        let up = upper_case(s);
        let c = chars_of(up.as_str());
        level_named(&c)
    }
}

impl From<LogLevel> for isize {
    fn from(orig: LogLevel) -> (r: isize) {
        orig.value()
    }
}

impl vstd::std_specs::convert::FromSpecImpl<LogLevel> for isize {
    open spec fn obeys_from_spec() -> bool {
        true
    }

    open spec fn from_spec(v: LogLevel) -> isize {
        level_value(v) as isize
    }
}

impl From<isize> for LogLevel {
    fn from(orig: isize) -> (r: LogLevel) {
        LogLevel::from_value(orig)
    }
}

impl vstd::std_specs::convert::FromSpecImpl<isize> for LogLevel {
    open spec fn obeys_from_spec() -> bool {
        true
    }

    open spec fn from_spec(v: isize) -> LogLevel {
        level_of_value(v as int)
    }
}

impl std::str::FromStr for LogLevel {
    type Err = ();

    fn from_str(s: &str) -> (r: Result<LogLevel, ()>)
        ensures
            r == spec_parse_level(s@),
    {
        LogLevel::parse(s)
    }
}

/// A level survives the trip through its numeric value.
pub proof fn lemma_level_value_roundtrip(l: LogLevel)
    ensures
        level_of_value(level_value(l)) == l,
{
}

/// The printed name of a level names it back exactly for `TRACE` to
/// `CRITICAL`; `UNSUPPORTED` and `LOG` cannot be named.
pub proof fn lemma_level_names(l: LogLevel)
    ensures
        is_named_level(l) ==> level_with_name(level_name(l)) == Some(l),
        !is_named_level(l) ==> level_with_name(level_name(l)) is None,
{
    reveal_strlit("UNSUPPORTED");
    reveal_strlit("TRACE");
    reveal_strlit("DEBUG");
    reveal_strlit("VERBOSE");
    reveal_strlit("INFO");
    reveal_strlit("NOTICE");
    reveal_strlit("WARN");
    reveal_strlit("ERROR");
    reveal_strlit("CRITICAL");
    reveal_strlit("LOG");
    assert("UNSUPPORTED"@.len() == 11 && "UNSUPPORTED"@[0] == 'U');
    assert("TRACE"@.len() == 5 && "TRACE"@[0] == 'T');
    assert("DEBUG"@.len() == 5 && "DEBUG"@[0] == 'D');
    assert("VERBOSE"@.len() == 7 && "VERBOSE"@[0] == 'V');
    assert("INFO"@.len() == 4 && "INFO"@[0] == 'I');
    assert("NOTICE"@.len() == 6 && "NOTICE"@[0] == 'N');
    assert("WARN"@.len() == 4 && "WARN"@[0] == 'W');
    assert("ERROR"@.len() == 5 && "ERROR"@[0] == 'E');
    assert("CRITICAL"@.len() == 8 && "CRITICAL"@[0] == 'C');
    assert("LOG"@.len() == 3 && "LOG"@[0] == 'L');
}

proof fn lemma_upper_letters_stay(s: Seq<char>)
    requires
        forall|i: int| 0 <= i < s.len() ==> 65 <= (#[trigger] s[i] as int) <= 90,
    ensures
        is_ascii_text(s),
        s.map_values(|c: char| ascii_upper(c)) == s,
        is_ascii_text(s.map_values(|c: char| ascii_lower(c))),
        s.map_values(|c: char| ascii_lower(c)).map_values(|c: char| ascii_upper(c)) == s,
{
    let low = s.map_values(|c: char| ascii_lower(c));
    assert forall|i: int| 0 <= i < low.len() implies (#[trigger] low[i] as int) < 128 by {
        assert(low[i] == ascii_lower(s[i]));
    }
    assert(s.map_values(|c: char| ascii_upper(c)) =~= s);
    assert(low.map_values(|c: char| ascii_upper(c)) =~= s);
}

/// A level that can be named is read back from its printed name, and from
/// that name in lower case.
pub proof fn lemma_printed_name_parses(l: LogLevel)
    requires
        is_named_level(l),
    ensures
        is_ascii_text(level_name(l)),
        ascii_parse_level(level_name(l)) == Ok::<LogLevel, ()>(l),
        is_ascii_text(level_name(l).map_values(|c: char| ascii_lower(c))),
        ascii_parse_level(level_name(l).map_values(|c: char| ascii_lower(c))) == Ok::<LogLevel, ()>(l),
{
    lemma_level_names(l);
    reveal_strlit("TRACE");
    reveal_strlit("DEBUG");
    reveal_strlit("VERBOSE");
    reveal_strlit("INFO");
    reveal_strlit("NOTICE");
    reveal_strlit("WARN");
    reveal_strlit("ERROR");
    reveal_strlit("CRITICAL");
    let n = level_name(l);
    assert forall|i: int| 0 <= i < n.len() implies 65 <= (#[trigger] n[i] as int) <= 90 by {}
    lemma_upper_letters_stay(n);
}

/// The levels are ordered as declared, from `UNSUPPORTED` through `TRACE`,
/// `DEBUG`, `VERBOSE`, `INFO`, `NOTICE`, `WARN`, `ERROR` and `CRITICAL` to
/// `LOG`, each strictly more severe than the one before, with the documented
/// values -10000, -30, -20, -10, 0, 10, 20, 30, 40 and 50; so a record is
/// let through by a level exactly when it is at least as severe.
pub proof fn lemma_level_order()
    ensures
        level_value(LogLevel::UNSUPPORTED) == -10000,
        level_value(LogLevel::TRACE) == -30,
        level_value(LogLevel::DEBUG) == -20,
        level_value(LogLevel::VERBOSE) == -10,
        level_value(LogLevel::INFO) == 0,
        level_value(LogLevel::NOTICE) == 10,
        level_value(LogLevel::WARN) == 20,
        level_value(LogLevel::ERROR) == 30,
        level_value(LogLevel::CRITICAL) == 40,
        level_value(LogLevel::LOG) == 50,
        level_value(LogLevel::UNSUPPORTED) < level_value(LogLevel::TRACE) < level_value(LogLevel::DEBUG)
            < level_value(LogLevel::VERBOSE) < level_value(LogLevel::INFO) < level_value(LogLevel::NOTICE)
            < level_value(LogLevel::WARN) < level_value(LogLevel::ERROR) < level_value(LogLevel::CRITICAL)
            < level_value(LogLevel::LOG),
        forall|a: LogLevel, b: LogLevel| level_le(a, b) && level_le(b, a) ==> a == b,
        forall|a: LogLevel, b: LogLevel| level_le(a, b) || level_le(b, a),
        forall|a: LogLevel, b: LogLevel, c: LogLevel|
            level_le(a, b) && level_le(b, c) ==> level_le(a, c),
        level_le(LogLevel::VERBOSE, LogLevel::INFO) && !level_le(LogLevel::INFO, LogLevel::VERBOSE),
        level_le(LogLevel::INFO, LogLevel::NOTICE) && !level_le(LogLevel::NOTICE, LogLevel::INFO),
{
    assert forall|a: LogLevel, b: LogLevel| level_le(a, b) && level_le(b, a) implies a == b by {
        lemma_level_value_roundtrip(a);
        lemma_level_value_roundtrip(b);
    }
}

/// Every level prints as its own name, and no two levels share a name.
pub proof fn lemma_level_name_distinct()
    ensures
        level_name(LogLevel::UNSUPPORTED) == "UNSUPPORTED"@,
        level_name(LogLevel::TRACE) == "TRACE"@,
        level_name(LogLevel::DEBUG) == "DEBUG"@,
        level_name(LogLevel::VERBOSE) == "VERBOSE"@,
        level_name(LogLevel::INFO) == "INFO"@,
        level_name(LogLevel::NOTICE) == "NOTICE"@,
        level_name(LogLevel::WARN) == "WARN"@,
        level_name(LogLevel::ERROR) == "ERROR"@,
        level_name(LogLevel::CRITICAL) == "CRITICAL"@,
        level_name(LogLevel::LOG) == "LOG"@,
        forall|a: LogLevel, b: LogLevel| #[trigger] level_name(a) == #[trigger] level_name(b) ==> a == b,
{
    reveal_strlit("UNSUPPORTED");
    reveal_strlit("TRACE");
    reveal_strlit("DEBUG");
    reveal_strlit("VERBOSE");
    reveal_strlit("INFO");
    reveal_strlit("NOTICE");
    reveal_strlit("WARN");
    reveal_strlit("ERROR");
    reveal_strlit("CRITICAL");
    reveal_strlit("LOG");
    assert forall|a: LogLevel, b: LogLevel| #[trigger] level_name(a) == #[trigger] level_name(b) implies a == b by {
        let na = level_name(a);
        let nb = level_name(b);
        if na == nb {
            assert(na.len() == nb.len());
            assert(na[0] == nb[0]);
            if na.len() > 1 {
                assert(na[1] == nb[1]);
            }
        }
    }
}

/// The nameable level whose name is `c`.
fn level_named(c: &Vec<char>) -> (r: Result<LogLevel, ()>)
    ensures
        r == (match level_with_name(c@) {
            Some(l) => Ok(l),
            None => Err::<LogLevel, ()>(()),
        }),
{
    if text_is(c, "TRACE") {
        Ok(LogLevel::TRACE)
    } else if text_is(c, "DEBUG") {
        Ok(LogLevel::DEBUG)
    } else if text_is(c, "VERBOSE") {
        Ok(LogLevel::VERBOSE)
    } else if text_is(c, "INFO") {
        Ok(LogLevel::INFO)
    } else if text_is(c, "NOTICE") {
        Ok(LogLevel::NOTICE)
    } else if text_is(c, "WARN") {
        Ok(LogLevel::WARN)
    } else if text_is(c, "ERROR") {
        Ok(LogLevel::ERROR)
    } else if text_is(c, "CRITICAL") {
        Ok(LogLevel::CRITICAL)
    } else {
        Err(())
    }
}

} // verus!
