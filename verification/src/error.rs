//! The library's error type.  Every fallible function of the library
//! returns one of these variants; each carries the context a caller needs
//! to locate the offending ledger line or value.

use vstd::prelude::*;
use crate::model::{Date, TimeRange};

verus! {

/// A fatal error: parsing or reporting stops and the error is handed to
/// the caller.  Non-fatal anomalies are returned as warning strings
/// instead.
#[derive(Debug, Clone)]
pub enum Error {
    /// A time value failed validation (hour over 23 or minute over 59).
    InvalidTime,
    /// A date triple is not a valid calendar date in the supported years.
    InvalidDate { year: u16, month: u8, day: u8 },
    /// A time range whose start does not precede its end.
    OutOfOrderTimeRange,
    /// Two time ranges for one project on one day overlap; `conflicts`
    /// lists every range that takes part in some overlap, in ascending
    /// order without duplicates.
    ConflictingTimeRanges { client: String, code: String, conflicts: Vec<TimeRange> },
    /// No `HHMM` group was found in the text handed to the time parser.
    InvalidTimeText { text: String },
    /// No `MM/DD/YYYY` group was found in the text handed to the date
    /// parser.
    InvalidDateText { text: String },
    /// No `HHMM-HHMM` group was found where one time range was expected.
    InvalidTimeRange { text: String },
    /// The time list of an allocation line does not match the grammar.
    InvalidTimeRanges { text: String },
    /// A line recognized as a time-allocation line could not be parsed.
    InvalidTimeLine { text: String },
    /// A line handed to the date-line parser is not a date line.
    InvalidDateLine { text: String },
    /// A time-allocation line appeared before any date line.
    TimeLineWithNoDate { line_number: u32, line: String },
    /// The report referenced a week bucket that was never created.
    MissingWeekData,
    /// The date to append is already present in the ledger.
    DuplicateDate { date: Date },
    /// A menu cannot be built from an empty item list.
    NoMenuItems,
}

} // verus!
