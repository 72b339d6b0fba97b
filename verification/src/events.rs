//! Audit records: one for every change, with who made it and when.

use crate::calendar;
use crate::decimal;
use crate::text;
use vstd::prelude::*;

verus! {

/// A record of the audit log.
#[derive(Debug)]
pub struct Event<'a> {
    pub ts: String,
    pub op: &'a str,
    pub id: &'a str,
    pub by: &'a str,
    pub from: Option<&'a str>,
    pub to: Option<&'a str>,
    pub subject: Option<&'a str>,
    pub company: &'a str,
}

/// The last second of the year 262142.
pub const LAST_SECOND: u64 = 8_210_266_876_799;

/// A year: four digits, or a sign and more.
pub open spec fn year_text(y: nat) -> Seq<char> {
    if y <= 9_999 {
        decimal::padded(y, 4)
    } else {
        seq!['+'] + decimal::decimal(y)
    }
}

/// The fraction of a second, in as many groups of three digits as it takes.
pub open spec fn fraction_text(nanos: nat) -> Seq<char> {
    if nanos == 0 {
        Seq::empty()
    } else if nanos % 1_000_000 == 0 {
        seq!['.'] + decimal::padded(nanos / 1_000_000, 3)
    } else if nanos % 1_000 == 0 {
        seq!['.'] + decimal::padded(nanos / 1_000, 6)
    } else {
        seq!['.'] + decimal::padded(nanos, 9)
    }
}

/// A point in time in the form of RFC 3339, in UTC.
pub open spec fn rfc3339_text(secs: nat, nanos: nat) -> Seq<char> {
    let c = calendar::date_of((secs / 86_400) as int);
    year_text(c.year as nat) + seq!['-'] + decimal::padded(c.month as nat, 2) + seq!['-']
        + decimal::padded(c.day as nat, 2) + seq!['T'] + calendar::time_text(secs % 86_400)
        + fraction_text(nanos) + "+00:00"@
}

/// `chrono::DateTime::<Utc>::from_timestamp` and `DateTime::to_rfc3339`: up to
/// the last second that chrono can hold, the point in time that many seconds
/// and nanoseconds after the start of 1970, in the form of RFC 3339 with a
/// numeric offset; after it, nothing.
#[verifier::external_body]
fn rfc3339(secs: u64, nanos: u32) -> (r: Option<String>)
    requires
        secs <= i64::MAX,
        nanos < 1_000_000_000,
    ensures
        match r {
            Some(t) => secs <= LAST_SECOND && t@ == rfc3339_text(secs as nat, nanos as nat),
            None => secs > LAST_SECOND,
        },
{
    chrono::DateTime::<chrono::Utc>::from_timestamp(secs as i64, nanos).map(|t| t.to_rfc3339())
}

/// Whether a change can be attributed: the handle is set and not empty.
pub open spec fn has_handle(handle: Option<&str>) -> bool {
    handle matches Some(h) && h@.len() > 0
}

/// Whether a change can be attributed to someone.
pub fn attributed(handle: Option<&str>) -> (r: bool)
    ensures
        r == has_handle(handle),
{
    match handle {
        Some(h) => text::chars_of(h).len() > 0,
        None => false,
    }
}

/// The record of a change at the given time (seconds since the start of 1970
/// and nanoseconds). A change that nobody's handle came with is stamped
/// `UNATTRIBUTED`; no record is without a name.
pub fn record<'a>(
    op: &'a str,
    id: &'a str,
    company: &'a str,
    from: Option<&'a str>,
    to: Option<&'a str>,
    subject: Option<&'a str>,
    handle: Option<&'a str>,
    secs: u64,
    nanos: u32,
) -> (r: Event<'a>)
    requires
        secs <= LAST_SECOND,
        nanos < 1_000_000_000,
    ensures
        r.ts@ == rfc3339_text(secs as nat, nanos as nat),
        r.op == op,
        r.id == id,
        r.company == company,
        r.from == from,
        r.to == to,
        r.subject == subject,
        has_handle(handle) ==> Some(r.by) == handle,
        !has_handle(handle) ==> r.by@ == "UNATTRIBUTED"@,
        r.by@.len() > 0,
{
    proof {
        reveal_strlit("UNATTRIBUTED");
    }
    let ts: String = match rfc3339(secs, nanos) {
        Some(t) => t,
        None => String::new(),
    };
    let by: &'a str = match handle {
        Some(h) => {
            if attributed(handle) {
                h
            } else {
                "UNATTRIBUTED"
            }
        },
        None => "UNATTRIBUTED",
    };
    Event { ts, op, id, by, from, to, subject, company }
}

} // verus!
