//! Verified core of a binding to the C runtime's civil-time formatter.
//!
//! The C runtime does the formatting itself; what it is handed and what is
//! read back from it is decided here:
//!
//! * [`encoding`] turns a format specifier into the NUL-terminated byte
//!   string that the formatter takes, and refuses one with an embedded NUL;
//! * [`output`] turns the formatter's fixed-capacity buffer and the count of
//!   bytes it reports into text, reading no byte beyond that count;
//! * [`calendar`] models the broken-down calendar record and says when its
//!   fields agree with one another under the Gregorian calendar.
use vstd::prelude::*;

pub mod calendar;
pub mod encoding;
pub mod output;

pub use calendar::CalendarRecord;
pub use encoding::{EncodedSpec, EncodingError};
pub use output::{decode_output, OUTPUT_CAPACITY};
