use vstd::prelude::*;
use vstd::string::StrSliceExecFns;

verus! {

/// Longest duration text handed to the parser. The parser accumulates its
/// numbers in `i64` without overflow checks; up to this many characters
/// every number-unit sum stays below `i64::MAX`.
pub const MAX_DURATION_TEXT: usize = 7;

/// Nanoseconds in a day.
pub const NANOS_PER_DAY: i64 = 86_400_000_000_000;

/// Nanoseconds in a week.
pub const NANOS_PER_WEEK: i64 = 604_800_000_000_000;

/// What `polars_time::Duration::try_parse` reads from a duration text such
/// as `"500ms"`, `"-1w2d"` or `"1h30m"`: whether it is negative, and its
/// months, weeks, days and sub-day nanoseconds (as magnitudes); `None`
/// where it refuses the text.
pub uninterp spec fn duration_parts_of(text: Seq<char>) -> Option<(bool, i64, i64, i64, i64)>;

/// Relies on `polars_time::Duration::try_parse`, which reads an optional
/// leading sign and number-unit pairs (`ns`, `us`, `ms`, `s`, `m`, `h`, `d`,
/// `w`, `mo`, `q`, `y`, `i`) and fails on anything else, and on the getters
/// `negative`, `months`, `weeks`, `days` and `nanoseconds` of the result.
/// The parser stores each part as `abs()` of its sum, so none is negative.
#[verifier::external_body]
fn parse_duration_parts(text: &str) -> (r: Option<(bool, i64, i64, i64, i64)>)
    requires
        text@.len() <= MAX_DURATION_TEXT,
    ensures
        r == duration_parts_of(text@),
        r matches Some((_, months, weeks, days, nanos)) ==> months >= 0 && weeks >= 0 && days
            >= 0 && nanos >= 0,
{
    polars_time::Duration::try_parse(text).ok().map(
        |d| (d.negative(), d.months(), d.weeks(), d.days(), d.nanoseconds()),
    )
}

/// Why a duration text was not accepted.
#[derive(PartialEq, Eq, Structural, Clone, Copy, Debug)]
pub enum DurationError {
    /// Longer than `MAX_DURATION_TEXT` characters.
    TooLong,
    /// The parser refused the text.
    Invalid,
    /// The text names months, quarters or years, which have no fixed length.
    Calendar,
    /// The duration does not fit in `i64` nanoseconds.
    OutOfRange,
}

/// The length of weeks, days and nanoseconds together, in nanoseconds.
pub open spec fn fixed_nanos(weeks: int, days: int, nanos: int) -> int {
    weeks * NANOS_PER_WEEK + days * NANOS_PER_DAY + nanos
}

/// What a duration text reads as: its signed nanoseconds, or why it is
/// refused.
pub open spec fn parsed_duration(text: Seq<char>) -> Result<i64, DurationError> {
    if text.len() > MAX_DURATION_TEXT {
        Err(DurationError::TooLong)
    } else {
        match duration_parts_of(text) {
            None => Err(DurationError::Invalid),
            Some((negative, months, weeks, days, nanos)) => if months != 0 {
                Err(DurationError::Calendar)
            } else {
                let total = fixed_nanos(weeks as int, days as int, nanos as int);
                if total > i64::MAX {
                    Err(DurationError::OutOfRange)
                } else if negative {
                    Ok((-total) as i64)
                } else {
                    Ok(total as i64)
                }
            },
        }
    }
}

/// Reads a duration text (`"1m"`, `"500ms"`, `"-2s"`, ...) as signed
/// nanoseconds.
pub fn parse_duration(text: &str) -> (r: Result<i64, DurationError>)
    ensures
        r == parsed_duration(text@),
{
    if text.unicode_len() > MAX_DURATION_TEXT {
        return Err(DurationError::TooLong);
    }
    match parse_duration_parts(text) {
        None => Err(DurationError::Invalid),
        Some((negative, months, weeks, days, nanos)) => {
            if months != 0 {
                return Err(DurationError::Calendar);
            }
            let total: i128 = weeks as i128 * NANOS_PER_WEEK as i128 + days as i128
                * NANOS_PER_DAY as i128 + nanos as i128;
            if total > i64::MAX as i128 {
                return Err(DurationError::OutOfRange);
            }
            if negative {
                Ok((-total) as i64)
            } else {
                Ok(total as i64)
            }
        },
    }
}

} // verus!
