//! The measurement window: from when the first request was issued to when
//! the last one completed, in input order.

use crate::record::{Instant, ReportError};
use vstd::arithmetic::div_mod::{lemma_div_is_ordered, lemma_fundamental_div_mod, lemma_hoist_over_denominator};
use vstd::prelude::*;

verus! {

const NANOS_PER_SEC: u128 = 1_000_000_000;

const NANOS_PER_MILLI: u128 = 1_000_000;

/// Added before dividing so that the dividend is positive; a whole number of
/// seconds (10^20 of them), taken off again afterwards.
const OFFSET_NANOS: i128 = 100_000_000_000_000_000_000_000_000_000;

const OFFSET_SECS: u128 = 100_000_000_000_000_000_000;

/// Length of the window in nanoseconds: it starts at the first record's
/// completion less its latency (in milliseconds) and ends at the last
/// record's completion.
pub open spec fn window_nanos(first: Instant, first_latency: u128, last: Instant) -> int {
    last.total_nanos() - (first.total_nanos() - first_latency * 1_000_000)
}

/// The window in whole seconds, truncated; `None` where that is not positive.
pub open spec fn window_seconds_of(nanos: int) -> Option<int> {
    if nanos >= 1_000_000_000 {
        Some(nanos / 1_000_000_000)
    } else {
        None
    }
}

/// The window between the first record (completed at `first`, with latency
/// `first_latency` milliseconds) and the last one (completed at `last`), in
/// whole seconds with the fraction dropped. A window under one second, zero
/// or negative, is degenerate.
pub fn window_seconds(first: Instant, first_latency: u128, last: Instant) -> (r: Result<
    u128,
    ReportError,
>)
    ensures
        match window_seconds_of(window_nanos(first, first_latency, last)) {
            Some(s) => r == Ok::<u128, ReportError>(s as u128),
            None => r == Err::<u128, ReportError>(ReportError::DegenerateWindow),
        },
{
    let ghost w = window_nanos(first, first_latency, last);
    assert(-9_300_000_000_000_000_000_000_000_000 <= first.secs * 1_000_000_000
        <= 9_300_000_000_000_000_000_000_000_000) by (nonlinear_arith)
        requires
            i64::MIN <= first.secs <= i64::MAX,
    ;
    assert(-9_300_000_000_000_000_000_000_000_000 <= last.secs * 1_000_000_000
        <= 9_300_000_000_000_000_000_000_000_000) by (nonlinear_arith)
        requires
            i64::MIN <= last.secs <= i64::MAX,
    ;
    let first_ns: i128 = first.secs as i128 * NANOS_PER_SEC as i128 + first.nanos as i128;
    let last_ns: i128 = last.secs as i128 * NANOS_PER_SEC as i128 + last.nanos as i128;
    let lat_secs: u128 = first_latency / 1000;
    let lat_millis: u128 = first_latency % 1000;
    let shifted: i128 = last_ns - first_ns + lat_millis as i128 * NANOS_PER_MILLI as i128
        + OFFSET_NANOS;
    assert(lat_secs <= 0xffff_ffff_ffff_ffff_ffff_ffff_ffff_ffffu128 / 1000);
    let q: u128 = lat_secs + shifted as u128 / NANOS_PER_SEC;
    proof {
        lemma_fundamental_div_mod(first_latency as int, 1000);
        assert(first_latency * 1_000_000 == lat_secs * 1_000_000_000 + lat_millis * 1_000_000)
            by (nonlinear_arith)
            requires
                first_latency == 1000 * lat_secs + lat_millis,
        ;
        let j = lat_secs - 100_000_000_000_000_000_000;
        assert(w == shifted + j * 1_000_000_000);
        lemma_hoist_over_denominator(shifted as int, j, 1_000_000_000);
        assert(w / 1_000_000_000 == q - OFFSET_SECS);
        if w >= 1_000_000_000 {
            lemma_div_is_ordered(1_000_000_000, w, 1_000_000_000);
        } else {
            lemma_div_is_ordered(w, 999_999_999, 1_000_000_000);
        }
    }
    if q <= OFFSET_SECS {
        Err(ReportError::DegenerateWindow)
    } else {
        Ok(q - OFFSET_SECS)
    }
}

} // verus!
