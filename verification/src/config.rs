//! The policy a project commits in `[package.metadata.depcheck]` (or its
//! workspace's): a threshold, a fail-on level, and crates to ignore, each possibly
//! until a date. The table is read into a `RawConfig` by the caller; this
//! module checks and resolves it.

use vstd::prelude::*;
use chrono::Datelike;
use crate::cli::FailOn;

verus! {

/// A calendar date.
#[derive(Clone, Copy, Debug, PartialEq, Eq, Structural)]
pub struct Date {
    pub year: i32,
    pub month: u32,
    pub day: u32,
}

/// Dates in calendar order.
pub open spec fn date_before(a: Date, b: Date) -> bool {
    a.year < b.year || (a.year == b.year && (a.month < b.month || (a.month == b.month && a.day < b.day)))
}

/// A date's place on a calendar of twelve 31-day months: whole days since
/// the first day of year 0.
pub open spec fn day_index(d: Date) -> int {
    d.year * 372 + (d.month - 1) * 31 + (d.day - 1)
}

/// Calendar order: on real dates (month 1 to 12, day 1 to 31), one date is
/// before another exactly when it comes earlier on the calendar.
pub proof fn law_date_before_is_calendar_order(a: Date, b: Date)
    requires
        1 <= a.month <= 12,
        1 <= b.month <= 12,
        1 <= a.day <= 31,
        1 <= b.day <= 31,
    ensures
        date_before(a, b) <==> day_index(a) < day_index(b),
{
}

/// Calendar order is a strict total order: never both ways, never a date
/// before itself, any two different dates ordered, and it carries over.
/// An earlier year, or the same year and an earlier month, or the same
/// month and an earlier day, comes first.
pub proof fn law_date_before_total_order(a: Date, b: Date, c: Date)
    ensures
        !date_before(a, a),
        date_before(a, b) ==> !date_before(b, a),
        a != b ==> date_before(a, b) || date_before(b, a),
        date_before(a, b) && date_before(b, c) ==> date_before(a, c),
        a.year < b.year ==> date_before(a, b),
        a.year == b.year && a.month < b.month ==> date_before(a, b),
        a.year == b.year && a.month == b.month && a.day < b.day ==> date_before(a, b),
{
}

/// What `chrono::NaiveDate::parse_from_str(text, "%Y-%m-%d")` makes of a
/// text, as year, month and day: `None` where it refuses it.
pub uninterp spec fn parsed_date(text: Seq<char>) -> Option<(int, int, int)>;

/// `NaiveDate::parse_from_str(text, "%Y-%m-%d")`: the result is named by
/// `parsed_date`; a date it gives is a real calendar date, so its month is
/// 1 to 12 and its day 1 to 31.
#[verifier::external_body]
fn parse_date(text: &str) -> (r: Option<Date>)
    ensures
        parsed_date(text@) == (match r {
            Some(d) => Some((d.year as int, d.month as int, d.day as int)),
            None => None,
        }),
        r matches Some(d) ==> 1 <= d.month <= 12 && 1 <= d.day <= 31,
{
    match chrono::NaiveDate::parse_from_str(text, "%Y-%m-%d") {
        Ok(d) => Some(Date { year: d.year(), month: d.month(), day: d.day() }),
        Err(_) => None,
    }
}

/// What `format!("{:?}", text)` writes: the text quoted, with quotes,
/// backslashes and control characters escaped.
pub uninterp spec fn debug_text(text: Seq<char>) -> Seq<char>;

/// Printable ASCII other than a quote or a backslash.
pub open spec fn plain_debug_char(c: char) -> bool {
    ' ' <= c <= '~' && c != '"' && c != '\\'
}

/// `format!("{:?}", text)`: named by `debug_text`; a text of printable
/// ASCII without quotes or backslashes comes out between two quotes.
#[verifier::external_body]
pub(crate) fn debug_quoted(text: &str) -> (r: String)
    ensures
        r@ == debug_text(text@),
        (forall|i: int| 0 <= i < text@.len() ==> plain_debug_char(#[trigger] text@[i])) ==> r@ == seq!['"'] + text@
            + seq!['"'],
{
    format!("{text:?}")
}

/// The table as read from the manifest. The threshold is in millipoints.
pub struct RawConfig {
    pub threshold: Option<u32>,
    pub fail_on: Option<String>,
    pub ignore: Vec<RawIgnoreEntry>,
}

pub struct RawIgnoreEntry {
    pub crate_name: String,
    pub reason: Option<String>,
    /// `YYYY-MM-DD`.
    pub expires: Option<String>,
}

/// An ignore rule, with whether its date has passed.
pub struct IgnoreEntry {
    pub crate_name: String,
    pub reason: Option<String>,
    pub expires: Option<Date>,
    pub is_expired: bool,
}

/// The checked policy. The threshold is in millipoints.
pub struct Config {
    pub threshold: Option<u32>,
    pub fail_on: Option<FailOn>,
    pub ignores: Vec<IgnoreEntry>,
}

impl Config {
    /// No policy: every setting falls back to the command line or default.
    pub fn empty() -> (c: Config)
        ensures
            c.threshold is None,
            c.fail_on is None,
            c.ignores@.len() == 0,
    {
        Config { threshold: None, fail_on: None, ignores: Vec::new() }
    }
}

/// A table the tool cannot act on.
pub enum ConfigError {
    /// `fail_on` is not one of the three levels.
    InvalidFailOn { value: String },
    /// An ignore rule's `expires` is not a `YYYY-MM-DD` date.
    InvalidExpires { value: String, crate_name: String },
}

/// What each error says.
pub open spec fn config_error_text(e: ConfigError) -> Seq<char> {
    match e {
        ConfigError::InvalidFailOn { value } => "invalid fail_on value "@ + debug_text(value@)
            + " in [package.metadata.depcheck] — expected \"none\", \"warn\", or \"critical\""@,
        ConfigError::InvalidExpires { value, crate_name } => "invalid `expires` date "@ + debug_text(value@)
            + " for ignored crate "@ + debug_text(crate_name@) + " in [package.metadata.depcheck] — expected YYYY-MM-DD"@,
    }
}

impl ConfigError {
    pub fn message(&self) -> (r: String)
        ensures
            r@ == config_error_text(*self),
    {
        match self {
            ConfigError::InvalidFailOn { value } => {
                let mut s = "invalid fail_on value ".to_owned();
                s.append(debug_quoted(value.as_str()).as_str());
                s.append(" in [package.metadata.depcheck] — expected \"none\", \"warn\", or \"critical\"");
                s
            },
            ConfigError::InvalidExpires { value, crate_name } => {
                let mut s = "invalid `expires` date ".to_owned();
                s.append(debug_quoted(value.as_str()).as_str());
                s.append(" for ignored crate ");
                s.append(debug_quoted(crate_name.as_str()).as_str());
                s.append(" in [package.metadata.depcheck] — expected YYYY-MM-DD");
                s
            },
        }
    }
}

/// The fail-on level a `fail_on` text names.
pub open spec fn fail_on_of(t: Seq<char>) -> Option<FailOn> {
    if t == "none"@ {
        Some(FailOn::Off)
    } else if t == "warn"@ {
        Some(FailOn::Warn)
    } else if t == "critical"@ {
        Some(FailOn::Critical)
    } else {
        None
    }
}

/// Reads a `fail_on` value: `none`, `warn` or `critical`.
pub fn parse_fail_on(s: &str) -> (r: Result<FailOn, ConfigError>)
    ensures
        fail_on_of(s@) matches Some(f) ==> r == Ok::<FailOn, ConfigError>(f),
        fail_on_of(s@) is None ==> (r matches Err(ConfigError::InvalidFailOn { value }) && value@ == s@),
{
    if crate::text::str_eq(s, "none") {
        Ok(FailOn::Off)
    } else if crate::text::str_eq(s, "warn") {
        Ok(FailOn::Warn)
    } else if crate::text::str_eq(s, "critical") {
        Ok(FailOn::Critical)
    } else {
        Err(ConfigError::InvalidFailOn { value: s.to_owned() })
    }
}

/// The date of a parsed `expires` value.
pub open spec fn as_date(d: (int, int, int)) -> Date {
    Date { year: d.0 as i32, month: d.1 as u32, day: d.2 as u32 }
}

/// An ignore rule's `expires` that does not parse.
pub open spec fn bad_expiry(e: RawIgnoreEntry) -> bool {
    e.expires matches Some(s) && parsed_date(s@) is None
}

/// `r` is the checked form of `e` on `today`: the same crate and reason,
/// the parsed date, and whether it is before today.
pub open spec fn entry_ok(e: RawIgnoreEntry, today: Date, r: IgnoreEntry) -> bool {
    &&& r.crate_name@ == e.crate_name@
    &&& r.reason == e.reason
    &&& match e.expires {
        Some(s) => parsed_date(s@) matches Some(d) && r.expires == Some(as_date(d)) && r.is_expired == date_before(
            as_date(d),
            today,
        ),
        None => r.expires is None && !r.is_expired,
    }
}

/// Checks one ignore rule: its `expires`, when given, must be a
/// `YYYY-MM-DD` date, and the rule has expired when that date is before
/// `today`.
pub fn parse_ignore_entry(entry: &RawIgnoreEntry, today: Date) -> (r: Result<IgnoreEntry, ConfigError>)
    ensures
        !bad_expiry(*entry) ==> (r matches Ok(e) && entry_ok(*entry, today, e)),
        bad_expiry(*entry) ==> (r matches Err(ConfigError::InvalidExpires { value, crate_name }) && Some(value)
            == entry.expires && crate_name@ == entry.crate_name@),
{
    let expires = match &entry.expires {
        Some(s) => match parse_date(s.as_str()) {
            Some(d) => Some(d),
            None => {
                return Err(ConfigError::InvalidExpires { value: s.clone(), crate_name: entry.crate_name.clone() });
            },
        },
        None => None,
    };
    let is_expired = match expires {
        Some(d) => d.year < today.year || (d.year == today.year && (d.month < today.month || (d.month == today.month
            && d.day < today.day))),
        None => false,
    };
    Ok(IgnoreEntry { crate_name: entry.crate_name.clone(), reason: entry.reason.clone(), expires, is_expired })
}

/// The first ignore rule whose `expires` does not parse.
pub open spec fn first_bad(es: Seq<RawIgnoreEntry>, i: int) -> bool {
    &&& 0 <= i < es.len()
    &&& bad_expiry(es[i])
    &&& forall|k: int| 0 <= k < i ==> !bad_expiry(#[trigger] es[k])
}

/// The `fail_on` value is given and names no level.
pub open spec fn bad_fail_on(raw: RawConfig) -> bool {
    raw.fail_on matches Some(s) && fail_on_of(s@) is None
}

/// `c` is the checked table: its threshold, its fail-on level, and each ignore rule
/// checked on `today`.
pub open spec fn config_ok(raw: RawConfig, today: Date, c: Config) -> bool {
    &&& c.threshold == raw.threshold
    &&& c.fail_on == (match raw.fail_on {
        Some(s) => fail_on_of(s@),
        None => None,
    })
    &&& c.ignores@.len() == raw.ignore@.len()
    &&& forall|i: int| 0 <= i < raw.ignore@.len() ==> entry_ok(raw.ignore@[i], today, #[trigger] c.ignores@[i])
}

/// Checks the table read from the manifest: `fail_on` first, then each
/// ignore rule in order; the first problem is the error.
pub fn resolve(raw: &RawConfig, today: Date) -> (r: Result<Config, ConfigError>)
    ensures
        bad_fail_on(*raw) ==> (r matches Err(ConfigError::InvalidFailOn { value }) && raw.fail_on matches Some(s) && value@ == s@),
        !bad_fail_on(*raw) ==> forall|i: int|
            #[trigger] first_bad(raw.ignore@, i) ==> (r matches Err(ConfigError::InvalidExpires { value, crate_name })
                && raw.ignore@[i].expires == Some(value) && crate_name@ == raw.ignore@[i].crate_name@),
        !bad_fail_on(*raw) && (forall|i: int| 0 <= i < raw.ignore@.len() ==> !bad_expiry(#[trigger] raw.ignore@[i]))
            ==> (r matches Ok(c) && config_ok(*raw, today, c)),
{
    let fail_on = match &raw.fail_on {
        Some(s) => match parse_fail_on(s.as_str()) {
            Ok(f) => Some(f),
            Err(e) => {
                return Err(e);
            },
        },
        None => None,
    };
    let mut ignores: Vec<IgnoreEntry> = Vec::new();
    let mut i: usize = 0;
    while i < raw.ignore.len()
        invariant
            i <= raw.ignore@.len(),
            !bad_fail_on(*raw),
            ignores@.len() == i,
            forall|k: int| 0 <= k < i ==> !bad_expiry(#[trigger] raw.ignore@[k]),
            forall|k: int| 0 <= k < i ==> entry_ok(raw.ignore@[k], today, #[trigger] ignores@[k]),
        decreases raw.ignore@.len() - i,
    {
        match parse_ignore_entry(&raw.ignore[i], today) {
            Ok(e) => ignores.push(e),
            Err(err) => {
                proof {
                    assert(first_bad(raw.ignore@, i as int));
                    assert forall|j: int| #[trigger] first_bad(raw.ignore@, j) implies j == i by {
                        if j < i {
                        } else if j > i {
                            assert(!bad_expiry(raw.ignore@[i as int]));
                        }
                    }
                }
                return Err(err);
            },
        }
        i = i + 1;
    }
    proof {
        assert forall|j: int| !first_bad(raw.ignore@, j) by {
            if 0 <= j < raw.ignore@.len() {
                assert(!bad_expiry(raw.ignore@[j]));
            }
        }
    }
    Ok(Config { threshold: raw.threshold, fail_on, ignores })
}


/// The config table a run reads: the package's own, whenever it has one
/// (even one that turns out invalid), else the workspace's.
pub fn chosen_table<T>(package: Option<T>, workspace: Option<T>) -> (r: Option<T>)
    ensures
        r == (match package {
            Some(p) => Some(p),
            None => workspace,
        }),
{
    match package {
        Some(p) => Some(p),
        None => workspace,
    }
}

} // verus!
