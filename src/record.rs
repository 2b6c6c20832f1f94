//! The request sample, its validation and the errors of a run.

use vstd::prelude::*;

verus! {

/// The field of a record that failed validation.
#[derive(Clone, Copy, Debug, PartialEq, Eq, Structural)]
pub enum RecordField {
    Timestamp,
    Name,
    Status,
    Latency,
}

/// Every way an aggregation run can fail.
#[derive(Clone, Copy, Debug, PartialEq, Eq, Structural)]
pub enum ReportError {
    /// A record holds a bad field; `position` is its index in the input.
    MalformedRecord { field: RecordField, position: usize },
    /// There are no records at all.
    EmptyInput,
    /// The measured window is not at least one whole second long.
    DegenerateWindow,
    /// A percentile was asked of an empty sequence.
    InsufficientData,
}

/// One observed request: when it completed (RFC 3339 text), which endpoint,
/// its status code and its latency in milliseconds.
#[derive(Clone, Debug)]
pub struct Stats {
    pub timestamp: String,
    pub name: String,
    pub status: u16,
    pub latency: u128,
}

/// A point in time as seconds since the Unix epoch and the nanoseconds past
/// that second (above 999,999,999 only during a leap second).
#[derive(Clone, Copy, Debug, PartialEq, Eq, Structural)]
pub struct Instant {
    pub secs: i64,
    pub nanos: u32,
}

impl Instant {
    /// Nanoseconds since the Unix epoch.
    pub open spec fn total_nanos(self) -> int {
        self.secs * 1_000_000_000 + self.nanos
    }
}

/// The instant that an RFC 3339 text denotes, as (seconds, nanoseconds), or
/// `None` where the text is not RFC 3339.
pub uninterp spec fn rfc3339_instant(s: Seq<char>) -> Option<(i64, u32)>;

/// Relies on chrono's `DateTime::parse_from_rfc3339`, read back through its
/// `timestamp` and `timestamp_subsec_nanos`: the outcome depends on the text alone.
#[verifier::external_body]
fn parse_rfc3339(s: &str) -> (r: Option<Instant>)
    ensures
        r matches Some(t) ==> rfc3339_instant(s@) == Some((t.secs, t.nanos)),
        r is None ==> rfc3339_instant(s@) is None,
{
    match chrono::DateTime::parse_from_rfc3339(s) {
        Ok(t) => Some(Instant { secs: t.timestamp(), nanos: t.timestamp_subsec_nanos() }),
        Err(_) => None,
    }
}

/// Relies on chrono's `Utc::now` and `DateTime::to_rfc3339`: the current time
/// as RFC 3339 text. Nothing is promised of the clock.
#[verifier::external_body]
fn now_rfc3339() -> (r: String) {
    chrono::Utc::now().to_rfc3339()
}

/// A status of 400 or above marks a failed request.
pub open spec fn is_error_status(status: u16) -> bool {
    status >= 400
}

pub fn is_error(status: u16) -> (r: bool)
    ensures
        r == is_error_status(status),
{
    status >= 400
}

/// The timestamp of a record parses as RFC 3339.
pub open spec fn timestamp_ok(r: Stats) -> bool {
    rfc3339_instant(r.timestamp@) is Some
}

/// A record is well formed: its timestamp parses and its name is not empty.
pub open spec fn record_ok(r: Stats) -> bool {
    timestamp_ok(r) && r.name@.len() > 0
}

/// The field that a malformed record is reported for.
pub open spec fn malformed_field(r: Stats) -> RecordField {
    if !timestamp_ok(r) {
        RecordField::Timestamp
    } else {
        RecordField::Name
    }
}

/// The instant of an RFC 3339 text, when it is one.
pub open spec fn instant_of(s: Seq<char>) -> Option<Instant> {
    match rfc3339_instant(s) {
        Some((secs, nanos)) => Some(Instant { secs, nanos }),
        None => None,
    }
}

impl Stats {
    /// A record of a request that completes now.
    pub fn new(name: &str, status: u16, latency: u128) -> (r: Stats)
        ensures
            r.name@ == name@,
            r.status == status,
            r.latency == latency,
    {
        Stats { timestamp: now_rfc3339(), name: name.to_owned(), status, latency }
    }

    /// The completion instant of this record, or `None` where its timestamp
    /// is not RFC 3339.
    pub fn instant(&self) -> (r: Option<Instant>)
        ensures
            r == instant_of(self.timestamp@),
    {
        parse_rfc3339(self.timestamp.as_str())
    }
}

/// Checks every record; the first malformed one, in input order, is reported.
pub fn validate_records(records: &Vec<Stats>) -> (r: Result<(), ReportError>)
    ensures
        r is Ok <==> forall|k: int| 0 <= k < records@.len() ==> record_ok(#[trigger] records@[k]),
        r is Err ==> (r matches Err(ReportError::MalformedRecord { field, position }) && position
            < records@.len() && !record_ok(records@[position as int]) && field == malformed_field(
            records@[position as int],
        ) && forall|k: int| 0 <= k < position ==> record_ok(#[trigger] records@[k])),
{
    let mut i: usize = 0;
    while i < records.len()
        invariant
            i <= records@.len(),
            forall|k: int| 0 <= k < i ==> record_ok(#[trigger] records@[k]),
        decreases records@.len() - i,
    {
        let rec = &records[i];
        if rec.instant().is_none() {
            return Err(ReportError::MalformedRecord { field: RecordField::Timestamp, position: i });
        }
        if rec.name.as_str().is_empty() {
            return Err(ReportError::MalformedRecord { field: RecordField::Name, position: i });
        }
        i = i + 1;
    }
    Ok(())
}

} // verus!
