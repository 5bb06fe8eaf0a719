//! The default layout of a log line.
use vstd::prelude::*;

use crate::levels::{LogLevel, level_name};
use crate::text::{decimal, decimal_text};

verus! {

/// The text that `chrono` gives for the UTC date and time of a UNIX time stamp
/// (seconds, and nanoseconds since the last second), or `None` where the time
/// stamp is not one that `chrono::DateTime::from_timestamp` accepts.
pub uninterp spec fn utc_text(secs: i64, nsecs: u32) -> Option<Seq<char>>;

/// Writes the UTC date and time of a UNIX time stamp with
/// `chrono::DateTime::from_timestamp` and the `Display` of `DateTime<Utc>`.
///
/// Claims that the text depends on the time stamp alone.
#[verifier::external_body]
fn utc_time_text(secs: i64, nsecs: u32) -> (r: Option<String>)
    ensures
        match r {
            Some(t) => utc_text(secs, nsecs) == Some(t@),
            None => utc_text(secs, nsecs) is None,
        },
{
    match chrono::DateTime::from_timestamp(secs, nsecs) {
        Some(t) => Some(t.to_string()),
        None => None,
    }
}

/// The default log line: `|<level>| <time> <module>@<file>:<line> <message>`
/// and a line break.
pub open spec fn line_text(
    level: LogLevel,
    time: Seq<char>,
    module: Seq<char>,
    file: Seq<char>,
    line: u32,
    msg: Seq<char>,
) -> Seq<char> {
    "|"@ + level_name(level) + "| "@ + time + " "@ + module + "@"@ + file + ":"@ + decimal(
        line as nat,
    ) + " "@ + msg + "\n"@
}

/// Lays out a log line from its parts, the time already written.
pub fn format_line(
    level: LogLevel,
    time: &str,
    module: &str,
    file: &str,
    line: u32,
    msg: &str,
) -> (r: String)
    ensures
        r@ == line_text(level, time@, module@, file@, line, msg@),
{
    let mut out = String::from_str("|");
    let name = level.to_string();
    out.append(name.as_str());
    out.append("| ");
    out.append(time);
    out.append(" ");
    out.append(module);
    out.append("@");
    out.append(file);
    out.append(":");
    let num = decimal_text(line as u64);
    out.append(num.as_str());
    out.append(" ");
    out.append(msg);
    out.append("\n");
    out
}

/// The default formatter: the log line of a record whose time stamp is
/// `secs` seconds and `nsecs` nanoseconds after the UNIX epoch.
pub fn formatter(
    level: LogLevel,
    secs: i64,
    nsecs: u32,
    module: &str,
    file: &str,
    line: u32,
    msg: &str,
) -> (r: String)
    requires
        utc_text(secs, nsecs) is Some,
    ensures
        r@ == line_text(level, utc_text(secs, nsecs).unwrap(), module@, file@, line, msg@),
{
    match utc_time_text(secs, nsecs) {
        Some(t) => format_line(level, t.as_str(), module, file, line, msg),
        None => {
            assert(false);
            String::new()
        },
    }
}

/// The default log line of a record, or `None` where its time stamp has no
/// UTC date and time.
pub fn try_formatter(
    level: LogLevel,
    secs: i64,
    nsecs: u32,
    module: &str,
    file: &str,
    line: u32,
    msg: &str,
) -> (r: Option<String>)
    ensures
        match utc_text(secs, nsecs) {
            Some(t) => r matches Some(s) && s@ == line_text(level, t, module@, file@, line, msg@),
            None => r is None,
        },
{
    match utc_time_text(secs, nsecs) {
        Some(_) => Some(formatter(level, secs, nsecs, module, file, line, msg)),
        None => None,
    }
}

} // verus!
