//! Health classification of probes and the plan of one worker tick.
use vstd::prelude::*;

use crate::records::{NotificationEntry, WebsiteStreamEntry};

verus! {

/// Outcome of a health classification.
#[derive(Clone, Copy, Debug, PartialEq, Eq, Structural)]
pub enum Status {
    Up,
    Down,
}

/// How a probe request ended.
#[derive(Clone, Copy, Debug, PartialEq, Eq, Structural)]
pub enum ProbeOutcome {
    /// The target answered with this HTTP status code.
    Response(u16),
    /// No answer came within the timeout.
    TimedOut,
    /// The connection was refused or could not be opened.
    ConnectionRefused,
    /// Any other transport failure (name resolution, protocol error, ...).
    Failed,
}

/// An HTTP status code is a success when it lies in `200..=299`.
pub open spec fn is_success_code(code: u16) -> bool {
    200 <= code && code <= 299
}

/// Returns whether `code` is a success status code.
pub fn is_success(code: u16) -> (r: bool)
    ensures
        r == is_success_code(code),
{
    200 <= code && code <= 299
}

/// A successful response means Up; any other response or a failed request means Down.
pub open spec fn classify_spec(o: ProbeOutcome) -> Status {
    match o {
        ProbeOutcome::Response(code) => if is_success_code(code) {
            Status::Up
        } else {
            Status::Down
        },
        _ => Status::Down,
    }
}

/// Classifies a probe outcome.
pub fn classify(o: ProbeOutcome) -> (r: Status)
    ensures
        r == classify_spec(o),
{
    match o {
        ProbeOutcome::Response(code) => if is_success(code) {
            Status::Up
        } else {
            Status::Down
        },
        _ => Status::Down,
    }
}

pub open spec fn status_text(s: Status) -> Seq<char> {
    match s {
        Status::Up => "Up"@,
        Status::Down => "Down"@,
    }
}

impl Status {
    /// The status as text: `Up` or `Down`.
    pub fn label(&self) -> (r: String)
        ensures
            r@ == status_text(*self),
    {
        match self {
            Status::Up => String::from_str("Up"),
            Status::Down => String::from_str("Down"),
        }
    }
}

/// Milliseconds from `start` to `end`, clamped to `0..=i32::MAX`.
pub open spec fn elapsed_spec(start: i64, end: i64) -> i32 {
    if end - start <= 0 {
        0
    } else if end - start >= i32::MAX {
        i32::MAX
    } else {
        (end - start) as i32
    }
}

/// Elapsed time of a probe in milliseconds, never negative.
pub fn elapsed_ms(start: i64, end: i64) -> (r: i32)
    ensures
        r == elapsed_spec(start, end),
        r >= 0,
{
    let d: i128 = end as i128 - start as i128;
    if d <= 0 {
        0
    } else if d >= i32::MAX as i128 {
        i32::MAX
    } else {
        d as i32
    }
}

/// A millisecond timestamp in nanoseconds, or `None` when that does not fit in `i64`.
pub fn timestamp_ns(ms: i64) -> (r: Option<i64>)
    ensures
        r == (if i64::MIN <= ms * 1_000_000 <= i64::MAX {
            Some((ms * 1_000_000) as i64)
        } else {
            None::<i64>
        }),
{
    let ns: i128 = ms as i128 * 1_000_000;
    if ns >= i64::MIN as i128 && ns <= i64::MAX as i128 {
        Some(ns as i64)
    } else {
        None
    }
}

/// What a probe of one website reported, with the times taken just before and just
/// after the request.
#[derive(Clone, Copy, Debug, PartialEq, Eq, Structural)]
pub struct ProbeReport {
    pub outcome: ProbeOutcome,
    pub started_ms: i64,
    pub finished_ms: i64,
}

/// One measurement written to the time-series store.
#[derive(Clone, Debug, PartialEq, Eq)]
pub struct CheckTelemetry {
    pub website_id: String,
    pub region_id: String,
    pub status: Status,
    pub response_time_ms: i32,
    pub observed_at: i64,
}

/// The measurement for one website: its status, the elapsed time, and the time at which
/// the probe started.
pub open spec fn telemetry_spec(site: WebsiteStreamEntry, region: String, report: ProbeReport) -> CheckTelemetry {
    CheckTelemetry {
        website_id: site.id,
        region_id: region,
        status: classify_spec(report.outcome),
        response_time_ms: elapsed_spec(report.started_ms, report.finished_ms),
        observed_at: report.started_ms,
    }
}

/// Builds the measurement for one probed website.
pub fn telemetry_for(site: &WebsiteStreamEntry, region: &String, report: &ProbeReport) -> (r: CheckTelemetry)
    ensures
        r == telemetry_spec(*site, *region, *report),
{
    CheckTelemetry {
        website_id: site.id.clone(),
        region_id: region.clone(),
        status: classify(report.outcome),
        response_time_ms: elapsed_ms(report.started_ms, report.finished_ms),
        observed_at: report.started_ms,
    }
}

/// `n` is the alert raised for the measurement `t`.
pub open spec fn alerts(t: CheckTelemetry, n: NotificationEntry) -> bool {
    &&& n.website_id == t.website_id
    &&& n.region_id == t.region_id
    &&& n.status@ == status_text(t.status)
    &&& n.response_time_ms == t.response_time_ms
    &&& n.timestamp == t.observed_at
}

/// The alert for a measurement: one when the website is Down, none when it is Up.
pub fn notification_for(t: &CheckTelemetry) -> (r: Option<NotificationEntry>)
    ensures
        (t.status == Status::Down) == r.is_some(),
        r.is_some() ==> alerts(*t, r.unwrap()),
{
    match t.status {
        Status::Up => None,
        Status::Down => Some(
            NotificationEntry {
                website_id: t.website_id.clone(),
                region_id: t.region_id.clone(),
                status: t.status.label(),
                response_time_ms: t.response_time_ms,
                timestamp: t.observed_at,
            },
        ),
    }
}

/// The measurements that report Down, in order.
pub open spec fn down_only(ts: Seq<CheckTelemetry>) -> Seq<CheckTelemetry>
    decreases ts.len(),
{
    if ts.len() == 0 {
        seq![]
    } else if ts.last().status == Status::Down {
        down_only(ts.drop_last()).push(ts.last())
    } else {
        down_only(ts.drop_last())
    }
}

/// Everything one tick writes: a measurement per website and an alert per Down website.
pub struct TickPlan {
    pub telemetry: Vec<CheckTelemetry>,
    pub notifications: Vec<NotificationEntry>,
}

/// Plans one worker tick from the probe report of each website (`reports[i]` belongs to
/// `sites[i]`).
pub fn plan_tick(sites: &Vec<WebsiteStreamEntry>, region: &String, reports: &Vec<ProbeReport>) -> (r: TickPlan)
    requires
        sites.len() == reports.len(),
    ensures
        r.telemetry.len() == sites.len(),
        forall|i: int| 0 <= i < sites.len() ==> #[trigger] r.telemetry[i] == telemetry_spec(
            sites[i],
            *region,
            reports[i],
        ),
        r.notifications.len() == down_only(r.telemetry@).len(),
        forall|j: int| 0 <= j < r.notifications.len() ==> alerts(
            #[trigger] down_only(r.telemetry@)[j],
            r.notifications[j],
        ),
{
    let mut telemetry: Vec<CheckTelemetry> = Vec::new();
    let mut notifications: Vec<NotificationEntry> = Vec::new();
    let mut i: usize = 0;
    while i < sites.len()
        invariant
            i <= sites.len(),
            sites.len() == reports.len(),
            telemetry.len() == i,
            forall|k: int| 0 <= k < i ==> #[trigger] telemetry[k] == telemetry_spec(sites[k], *region, reports[k]),
            notifications.len() == down_only(telemetry@).len(),
            forall|j: int| 0 <= j < notifications.len() ==> alerts(
                #[trigger] down_only(telemetry@)[j],
                notifications[j],
            ),
        decreases sites.len() - i,
    {
        let t = telemetry_for(&sites[i], region, &reports[i]);
        let n = notification_for(&t);
        let ghost before = telemetry@;
        let ghost nb = notifications@;
        telemetry.push(t);
        assert(telemetry@.drop_last() =~= before);
        match n {
            Some(n) => {
                notifications.push(n);
                assert forall|j: int| 0 <= j < notifications.len() implies alerts(
                    #[trigger] down_only(telemetry@)[j],
                    notifications[j],
                ) by {
                    if j < nb.len() {
                        assert(notifications[j] == nb[j]);
                    }
                }
            },
            None => {},
        }
        i = i + 1;
    }
    TickPlan { telemetry, notifications }
}

} // verus!
