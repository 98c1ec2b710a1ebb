//! Structured log lines: levels, ISO-8601 timestamps, JSON escaping and
//! the JSON and plain-text line formats.

use vstd::prelude::*;

use crate::clock::since_unix_epoch;
use crate::text::{dec_padded, push_dec_padded, str_eq};

verus! {

/// Log levels in order of severity.
#[derive(Debug, Clone, Copy, PartialEq, Eq, Structural)]
pub enum Level {
    /// Fatal or blocking errors (0).
    Error,
    /// Recoverable problems worth operator attention (1).
    Warn,
    /// Normal operational information (2).
    Info,
    /// Verbose diagnostics for developers (3).
    Debug,
    /// Extremely verbose per-message detail (4).
    Trace,
}

/// The current time as an ISO-8601 UTC timestamp: the clock's whole
/// seconds rendered by [`spec_timestamp`], or the epoch itself when the
/// clock reads earlier than the epoch.
pub fn timestamp() -> (s: String)
    ensures
        exists|secs: u64| s@ == spec_timestamp(secs as nat),
{
    match since_unix_epoch() {
        Some((secs, _)) => format_timestamp(secs),
        None => format_timestamp(0),
    }
}

/// JSON escaping of one character.
pub open spec fn json_escape_char(c: char) -> Seq<char> {
    if c == '"' {
        seq!['\\', '"']
    } else if c == '\\' {
        seq!['\\', '\\']
    } else if c == '\n' {
        seq!['\\', 'n']
    } else if c == '\r' {
        seq!['\\', 'r']
    } else if c == '\t' {
        seq!['\\', 't']
    } else {
        seq![c]
    }
}

/// JSON escaping of a character sequence: each character escaped in turn.
pub open spec fn json_escaped(cs: Seq<char>) -> Seq<char>
    decreases cs.len(),
{
    if cs.len() == 0 {
        Seq::empty()
    } else {
        json_escaped(cs.drop_last()) + json_escape_char(cs.last())
    }
}

/// Escape a string for a JSON string literal (quote, backslash, newline,
/// carriage return and tab).
pub fn json_escape(s: &str) -> (out: String)
    ensures
        out@ == json_escaped(s@),
{
    let mut out = String::new();
    let n: usize = s.unicode_len();
    let mut i: usize = 0;
    while i < n
        invariant
            n == s@.len(),
            i <= n,
            out@ == json_escaped(s@.subrange(0, i as int)),
        decreases n - i,
    {
        let c: char = s.get_char(i);
        if c == '"' {
            out.push('\\');
            out.push('"');
        } else if c == '\\' {
            out.push('\\');
            out.push('\\');
        } else if c == '\n' {
            out.push('\\');
            out.push('n');
        } else if c == '\r' {
            out.push('\\');
            out.push('r');
        } else if c == '\t' {
            out.push('\\');
            out.push('t');
        } else {
            out.push(c);
        }
        proof {
            let t = s@.subrange(0, i + 1);
            assert(t.drop_last() =~= s@.subrange(0, i as int));
            assert(t.last() == c);
        }
        i = i + 1;
        assert(out@ =~= json_escaped(s@.subrange(0, i as int)));
    }
    assert(s@.subrange(0, n as int) =~= s@);
    out
}

/// The lowercase form of a string, as `str::to_lowercase` computes it.
pub uninterp spec fn spec_to_lowercase(s: Seq<char>) -> Seq<char>;

/// An ASCII letter `A`..`Z` made lowercase; any other character as it is.
pub open spec fn ascii_lower(c: char) -> char {
    if 65 <= (c as u32) <= 90 {
        ((c as u32) + 32) as char
    } else {
        c
    }
}

/// Lowercase a string.
///
/// Trusted: calls `str::to_lowercase`; the contract claims that the result
/// is a function of the characters alone (named `spec_to_lowercase`), and
/// that a string of ASCII characters is lowercased letter by letter, as
/// `str::to_ascii_lowercase` would do it (the documentation of that method
/// points to `to_lowercase` as the one that also covers non-ASCII letters).
/// What it does to other characters is left unsaid.
#[verifier::external_body]
fn to_lowercase(s: &str) -> (r: String)
    ensures
        r@ == spec_to_lowercase(s@),
        (forall|i: int| 0 <= i < s@.len() ==> (s@[i] as u32) < 128) ==> r@ == s@.map_values(
            |c: char| ascii_lower(c),
        ),
{
    s.to_lowercase()
}

impl Level {
    /// The numeric code of each level (Error 0 .. Trace 4).
    pub open spec fn spec_code(self) -> u8 {
        match self {
            Level::Error => 0,
            Level::Warn => 1,
            Level::Info => 2,
            Level::Debug => 3,
            Level::Trace => 4,
        }
    }

    /// The numeric code of this level.
    pub fn code(&self) -> (c: u8)
        ensures
            c == self.spec_code(),
    {
        match self {
            Level::Error => 0,
            Level::Warn => 1,
            Level::Info => 2,
            Level::Debug => 3,
            Level::Trace => 4,
        }
    }

    /// The label of each level.
    pub open spec fn spec_as_str(self) -> Seq<char> {
        match self {
            Level::Error => "ERROR"@,
            Level::Warn => "WARN"@,
            Level::Info => "INFO"@,
            Level::Debug => "DEBUG"@,
            Level::Trace => "TRACE"@,
        }
    }

    /// The label of this level.
    pub fn as_str(self) -> (s: &'static str)
        ensures
            s@ == self.spec_as_str(),
    {
        match self {
            Level::Error => "ERROR",
            Level::Warn => "WARN",
            Level::Info => "INFO",
            Level::Debug => "DEBUG",
            Level::Trace => "TRACE",
        }
    }

    /// The level a lowercased setting names; `Info` for anything unrecognised.
    pub open spec fn spec_from_lower(s: Seq<char>) -> Level {
        if s == "error"@ {
            Level::Error
        } else if s == "warn"@ || s == "warning"@ {
            Level::Warn
        } else if s == "info"@ {
            Level::Info
        } else if s == "debug"@ {
            Level::Debug
        } else if s == "trace"@ {
            Level::Trace
        } else {
            Level::Info
        }
    }

    /// Parse a level setting, ignoring case; unrecognised settings mean `Info`.
    pub fn from_env(s: &str) -> (l: Level)
        ensures
            l == Level::spec_from_lower(spec_to_lowercase(s@)),
            (forall|i: int| 0 <= i < s@.len() ==> (s@[i] as u32) < 128) ==> l
                == Level::spec_from_lower(s@.map_values(|c: char| ascii_lower(c))),
    {
        let lower = to_lowercase(s);
        let t = lower.as_str();
        if str_eq(t, "error") {
            Level::Error
        } else if str_eq(t, "warn") || str_eq(t, "warning") {
            Level::Warn
        } else if str_eq(t, "info") {
            Level::Info
        } else if str_eq(t, "debug") {
            Level::Debug
        } else if str_eq(t, "trace") {
            Level::Trace
        } else {
            Level::Info
        }
    }

    /// Decode a numeric level code; unknown codes mean `Info`.
    pub fn from_u8(v: u8) -> (l: Level)
        ensures
            v <= 4 ==> l.spec_code() == v,
            v > 4 ==> l == Level::Info,
    {
        match v {
            0 => Level::Error,
            1 => Level::Warn,
            2 => Level::Info,
            3 => Level::Debug,
            4 => Level::Trace,
            _ => Level::Info,
        }
    }
}

/// Whether the JSON-format override turns JSON lines off: exactly `"0"`
/// or `"false"`.
pub fn json_disabled(v: &str) -> (off: bool)
    ensures
        off == (v@ == "0"@ || v@ == "false"@),
{
    str_eq(v, "0") || str_eq(v, "false")
}

/// Whether a message at `level` is emitted under the filter code `filter`:
/// exactly when it is no more verbose than the level the filter names.
pub fn level_enabled(level: Level, filter: u8) -> (b: bool)
    ensures
        b == (level.spec_code() <= Level::from_u8_spec(filter).spec_code()),
{
    level.code() <= Level::from_u8(filter).code()
}

impl Level {
    /// The level a filter code names (unknown codes mean `Info`).
    pub open spec fn from_u8_spec(v: u8) -> Level {
        if v == 0 {
            Level::Error
        } else if v == 1 {
            Level::Warn
        } else if v == 3 {
            Level::Debug
        } else if v == 4 {
            Level::Trace
        } else {
            Level::Info
        }
    }
}

/// Whether `y` is a Gregorian leap year.
pub open spec fn spec_is_leap(y: int) -> bool {
    (y % 4 == 0 && y % 100 != 0) || y % 400 == 0
}

/// Whether `y` is a Gregorian leap year.
pub fn is_leap(y: i64) -> (b: bool)
    ensures
        b == spec_is_leap(y as int),
{
    (y % 4 == 0 && y % 100 != 0) || y % 400 == 0
}

/// Days in year `y`.
pub open spec fn days_in_year(y: int) -> int {
    if spec_is_leap(y) {
        366
    } else {
        365
    }
}

/// Days in month `m` (1..=12) of a year that is (or is not) leap.
pub open spec fn days_in_month(m: int, leap: bool) -> int {
    if m == 2 {
        if leap {
            29
        } else {
            28
        }
    } else if m == 4 || m == 6 || m == 9 || m == 11 {
        30
    } else {
        31
    }
}

/// Starting in year `y` with `rem` days left to place, the year the day
/// falls in and the day's index within that year.
pub open spec fn year_and_day(y: int, rem: int) -> (int, int)
    decreases rem,
{
    if rem < days_in_year(y) || rem < 0 {
        (y, rem)
    } else {
        year_and_day(y + 1, rem - days_in_year(y))
    }
}

/// Starting at month `m` with `rem` days left to place, the month the day
/// falls in and the day's index within that month.
pub open spec fn month_and_day(m: int, rem: int, leap: bool) -> (int, int)
    decreases 13 - m,
{
    if m > 12 || rem < days_in_month(m, leap) {
        (m, rem)
    } else {
        month_and_day(m + 1, rem - days_in_month(m, leap), leap)
    }
}

/// ISO-8601 UTC rendering (`YYYY-MM-DDTHH:MM:SSZ`) of `secs` seconds after
/// the UNIX epoch (no leap seconds).
pub open spec fn spec_timestamp(secs: nat) -> Seq<char> {
    let days = secs / 86400;
    let tod = secs % 86400;
    let (y, day_of_year) = year_and_day(1970, days as int);
    let (m, day_of_month) = month_and_day(1, day_of_year, spec_is_leap(y));
    dec_padded(y as nat, 4) + "-"@ + dec_padded(m as nat, 2) + "-"@ + dec_padded(
        (day_of_month + 1) as nat,
        2,
    ) + "T"@ + dec_padded(tod / 3600, 2) + ":"@ + dec_padded((tod % 3600) / 60, 2) + ":"@
        + dec_padded(tod % 60, 2) + "Z"@
}

proof fn lemma_year_and_day_bounds(y: int, rem: int)
    requires
        y >= 1970,
        rem >= 0,
    ensures
        year_and_day(y, rem).0 >= y,
        year_and_day(y, rem).0 <= y + rem,
        0 <= year_and_day(y, rem).1 < days_in_year(year_and_day(y, rem).0),
    decreases rem,
{
    if rem >= days_in_year(y) {
        lemma_year_and_day_bounds(y + 1, rem - days_in_year(y));
    }
}

proof fn lemma_month_and_day_bounds(m: int, rem: int, leap: bool)
    requires
        1 <= m <= 13,
        0 <= rem,
        rem < 400,
    ensures
        month_and_day(m, rem, leap).0 >= m,
        month_and_day(m, rem, leap).0 <= 13,
        0 <= month_and_day(m, rem, leap).1 <= rem,
    decreases 13 - m,
{
    if m <= 12 && rem >= days_in_month(m, leap) {
        lemma_month_and_day_bounds(m + 1, rem - days_in_month(m, leap), leap);
    }
}

/// Render `secs` seconds after the UNIX epoch as an ISO-8601 UTC timestamp.
pub fn format_timestamp(secs: u64) -> (s: String)
    ensures
        s@ == spec_timestamp(secs as nat),
{
    let days: u64 = secs / 86400;
    let time_of_day: u64 = secs % 86400;
    let hours: u64 = time_of_day / 3600;
    let minutes: u64 = (time_of_day % 3600) / 60;
    let seconds: u64 = time_of_day % 60;
    let mut y: i64 = 1970;
    let mut remaining: i64 = days as i64;
    proof {
        lemma_year_and_day_bounds(1970, days as int);
    }
    loop
        invariant
            1970 <= y,
            0 <= remaining <= days,
            y + remaining <= 1970 + days,
            days <= u64::MAX / 86400,
            year_and_day(y as int, remaining as int) == year_and_day(1970, days as int),
        ensures
            0 <= remaining < 366,
            year_and_day(1970, days as int) == (y as int, remaining as int),
        decreases remaining,
    {
        let days_in_year: i64 = if is_leap(y) { 366 } else { 365 };
        if remaining < days_in_year {
            break;
        }
        remaining = remaining - days_in_year;
        y = y + 1;
    }
    let leap: bool = is_leap(y);
    let mut m: u64 = 1;
    proof {
        lemma_month_and_day_bounds(1, remaining as int, leap);
    }
    loop
        invariant
            1 <= m <= 13,
            0 <= remaining < 366,
            month_and_day(m as int, remaining as int, leap) == month_and_day(
                1,
                year_and_day(1970, days as int).1,
                leap,
            ),
        ensures
            1 <= m <= 13,
            0 <= remaining < 366,
            month_and_day(1, year_and_day(1970, days as int).1, leap) == (m as int, remaining as int),
        decreases 13 - m,
    {
        if m > 12 {
            break;
        }
        let md: i64 = if m == 2 {
            if leap { 29 } else { 28 }
        } else if m == 4 || m == 6 || m == 9 || m == 11 {
            30
        } else {
            31
        };
        if remaining < md {
            break;
        }
        remaining = remaining - md;
        m = m + 1;
    }
    let d: u64 = (remaining + 1) as u64;
    let mut s = String::new();
    push_dec_padded(&mut s, y as u64, 4);
    s.append("-");
    push_dec_padded(&mut s, m, 2);
    s.append("-");
    push_dec_padded(&mut s, d, 2);
    s.append("T");
    push_dec_padded(&mut s, hours, 2);
    s.append(":");
    push_dec_padded(&mut s, minutes, 2);
    s.append(":");
    push_dec_padded(&mut s, seconds, 2);
    s.append("Z");
    assert(s@ =~= spec_timestamp(secs as nat));
    s
}

/// `,"key":"escaped value"` when a value is present, nothing otherwise.
pub open spec fn json_opt_field(key: Seq<char>, v: Option<Seq<char>>) -> Seq<char> {
    match v {
        Some(t) => ",\""@ + key + "\":\""@ + json_escaped(t) + "\""@,
        None => Seq::empty(),
    }
}

/// The view of an optional string.
pub open spec fn opt_view(v: Option<&str>) -> Option<Seq<char>> {
    match v {
        Some(t) => Some(t@),
        None => None,
    }
}

/// One JSON log line (newline-terminated).
pub open spec fn spec_json_line(
    ts: Seq<char>,
    level: Level,
    module: Seq<char>,
    msg: Seq<char>,
    peer: Option<Seq<char>>,
    event: Option<Seq<char>>,
    extra: Option<Seq<char>>,
) -> Seq<char> {
    "{\"ts\":\""@ + ts + "\",\"level\":\""@ + level.spec_as_str() + "\",\"module\":\""@
        + json_escaped(module) + "\",\"msg\":\""@ + json_escaped(msg) + "\""@ + json_opt_field(
        "peer"@,
        peer,
    ) + json_opt_field("event"@, event) + json_opt_field("extra"@, extra) + "}\n"@
}

fn push_json_opt_field(line: &mut String, key: &str, v: Option<&str>)
    ensures
        final(line)@ == old(line)@ + json_opt_field(key@, opt_view(v)),
{
    match v {
        Some(t) => {
            line.append(",\"");
            line.append(key);
            line.append("\":\"");
            let e = json_escape(t);
            line.append(e.as_str());
            line.append("\"");
        },
        None => {},
    }
    assert(line@ =~= old(line)@ + json_opt_field(key@, opt_view(v)));
}

/// Build one JSON log line.
pub fn format_json_line(
    ts: &str,
    level: Level,
    module: &str,
    msg: &str,
    peer: Option<&str>,
    event: Option<&str>,
    extra: Option<&str>,
) -> (line: String)
    ensures
        line@ == spec_json_line(
            ts@,
            level,
            module@,
            msg@,
            opt_view(peer),
            opt_view(event),
            opt_view(extra),
        ),
{
    let mut line = String::new();
    line.append("{\"ts\":\"");
    line.append(ts);
    line.append("\",\"level\":\"");
    line.append(level.as_str());
    line.append("\",\"module\":\"");
    let m = json_escape(module);
    line.append(m.as_str());
    line.append("\",\"msg\":\"");
    let g = json_escape(msg);
    line.append(g.as_str());
    line.append("\"");
    push_json_opt_field(&mut line, "peer", peer);
    push_json_opt_field(&mut line, "event", event);
    push_json_opt_field(&mut line, "extra", extra);
    line.append("}\n");
    assert(line@ =~= spec_json_line(
        ts@,
        level,
        module@,
        msg@,
        opt_view(peer),
        opt_view(event),
        opt_view(extra),
    ));
    line
}

impl Level {
    /// The colored label each level carries in plain-text lines.
    pub open spec fn spec_plain_prefix(self) -> Seq<char> {
        match self {
            Level::Error => "\x1b[31mERROR\x1b[0m"@,
            Level::Warn => "\x1b[33mWARN\x1b[0m"@,
            Level::Info => "\x1b[32mINFO\x1b[0m"@,
            Level::Debug => "\x1b[36mDEBUG\x1b[0m"@,
            Level::Trace => "\x1b[90mTRACE\x1b[0m"@,
        }
    }

    /// The colored label of this level in plain-text lines.
    pub fn plain_prefix(self) -> (s: &'static str)
        ensures
            s@ == self.spec_plain_prefix(),
    {
        match self {
            Level::Error => "\x1b[31mERROR\x1b[0m",
            Level::Warn => "\x1b[33mWARN\x1b[0m",
            Level::Info => "\x1b[32mINFO\x1b[0m",
            Level::Debug => "\x1b[36mDEBUG\x1b[0m",
            Level::Trace => "\x1b[90mTRACE\x1b[0m",
        }
    }
}

/// One plain-text log line: `[ts] LEVEL module [peer] (event) msg`, the
/// peer and event parts only when present (no trailing newline).
pub open spec fn spec_plain_line(
    ts: Seq<char>,
    level: Level,
    module: Seq<char>,
    msg: Seq<char>,
    peer: Option<Seq<char>>,
    event: Option<Seq<char>>,
) -> Seq<char> {
    "["@ + ts + "] "@ + level.spec_plain_prefix() + " "@ + module + match peer {
        Some(p) => " ["@ + p + "]"@,
        None => Seq::empty(),
    } + match event {
        Some(e) => " ("@ + e + ")"@,
        None => Seq::empty(),
    } + " "@ + msg
}

/// Build one plain-text log line.
pub fn format_plain_line(
    ts: &str,
    level: Level,
    module: &str,
    msg: &str,
    peer: Option<&str>,
    event: Option<&str>,
) -> (line: String)
    ensures
        line@ == spec_plain_line(ts@, level, module@, msg@, opt_view(peer), opt_view(event)),
{
    let mut line = String::new();
    line.append("[");
    line.append(ts);
    line.append("] ");
    line.append(level.plain_prefix());
    line.append(" ");
    line.append(module);
    match peer {
        Some(p) => {
            line.append(" [");
            line.append(p);
            line.append("]");
        },
        None => {},
    }
    match event {
        Some(e) => {
            line.append(" (");
            line.append(e);
            line.append(")");
        },
        None => {},
    }
    line.append(" ");
    line.append(msg);
    assert(line@ =~= spec_plain_line(ts@, level, module@, msg@, opt_view(peer), opt_view(event)));
    line
}

} // verus!
