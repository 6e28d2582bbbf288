//! Command-line arguments and the refresh-interval parser.
use vstd::prelude::*;

use crate::config::{MAX_INTERVAL_MS, MIN_INTERVAL_MS};
use crate::text::{decimal, lemma_parse_decimal, push_decimal, spec_parse_u64};

verus! {

/// The arguments of the monitor.
#[derive(Debug)]
pub struct Args {
    /// Process name (exact, case-insensitive) or PID to monitor; without one,
    /// an interactive picker is shown to search the running processes.
    pub target: Option<String>,
    /// Refresh interval in milliseconds.
    pub interval: u64,
}

/// The message for an interval that is not a whole number.
pub open spec fn not_a_number_message() -> Seq<char> {
    "enter a whole number between "@ + decimal(MIN_INTERVAL_MS as nat) + " and "@ + decimal(
        MAX_INTERVAL_MS as nat,
    ) + " milliseconds"@
}

/// The message for a whole number outside the accepted range.
pub open spec fn out_of_range_message() -> Seq<char> {
    "enter a number between "@ + decimal(MIN_INTERVAL_MS as nat) + " and "@ + decimal(
        MAX_INTERVAL_MS as nat,
    ) + " milliseconds"@
}

/// What the interval parser gives for the text `s`.
pub open spec fn interval_outcome(s: Seq<char>) -> Result<u64, Seq<char>> {
    match spec_parse_u64(s) {
        None => Err(not_a_number_message()),
        Some(v) => if MIN_INTERVAL_MS <= v && v <= MAX_INTERVAL_MS {
            Ok(v)
        } else {
            Err(out_of_range_message())
        },
    }
}

/// Parses a refresh interval: a whole number of milliseconds within
/// `MIN_INTERVAL_MS..=MAX_INTERVAL_MS`, else a message saying what is expected.
pub fn parse_interval_ms(value: &str) -> (r: Result<u64, String>)
    ensures
        match r {
            Ok(v) => interval_outcome(value@) == Ok::<u64, Seq<char>>(v),
            Err(m) => interval_outcome(value@) == Err::<u64, Seq<char>>(m@),
        },
{
    match crate::text::parse_u64(value) {
        None => {
            let mut m = String::new();
            m.append("enter a whole number between ");
            push_decimal(&mut m, MIN_INTERVAL_MS);
            m.append(" and ");
            push_decimal(&mut m, MAX_INTERVAL_MS);
            m.append(" milliseconds");
            assert(m@ =~= not_a_number_message());
            Err(m)
        },
        Some(interval) => {
            if MIN_INTERVAL_MS <= interval && interval <= MAX_INTERVAL_MS {
                Ok(interval)
            } else {
                let mut m = String::new();
                m.append("enter a number between ");
                push_decimal(&mut m, MIN_INTERVAL_MS);
                m.append(" and ");
                push_decimal(&mut m, MAX_INTERVAL_MS);
                m.append(" milliseconds");
                assert(m@ =~= out_of_range_message());
                Err(m)
            }
        },
    }
}

/// Any whole number written in decimal is accepted exactly when it lies in
/// the supported range, and is then read back as itself.
pub proof fn lemma_interval_accepts_exactly_the_range(n: u64)
    ensures
        interval_outcome(decimal(n as nat)) == (if MIN_INTERVAL_MS <= n && n <= MAX_INTERVAL_MS {
            Ok::<u64, Seq<char>>(n)
        } else {
            Err::<u64, Seq<char>>(out_of_range_message())
        }),
{
    lemma_parse_decimal(n as nat, u64::MAX as nat);
}

} // verus!
