//! The time-series point written for each measurement.
use vstd::prelude::*;

use influxdb2::models::data_point::DataPointError;
use influxdb2::models::DataPoint;

use crate::probe::{status_text, timestamp_ns, CheckTelemetry};

verus! {

#[verifier::external_type_specification]
#[verifier::external_body]
pub struct ExDataPoint(DataPoint);

#[verifier::external_type_specification]
#[verifier::external_body]
pub struct ExDataPointError(DataPointError);

/// The point that influxdb2 builds from a measurement name, two tags, an integer field,
/// a text field and a nanosecond timestamp.
pub uninterp spec fn data_point(
    measurement: Seq<char>,
    tag_a: (Seq<char>, Seq<char>),
    tag_b: (Seq<char>, Seq<char>),
    int_field: (Seq<char>, i64),
    text_field: (Seq<char>, Seq<char>),
    timestamp_ns: i64,
) -> DataPoint;

/// Relies on influxdb2's `DataPoint::builder` with `tag`, `field`, `timestamp` and
/// `build`: `build` fails only when no field was set, and the point holds what was given.
#[verifier::external_body]
fn build_point(m: &str, ta: &str, va: &str, tb: &str, vb: &str, fi: &str, vi: i64, fs: &str, vs: &str, ns: i64) -> (r: Result<DataPoint, DataPointError>)
    ensures
        r is Ok,
        r->Ok_0 == data_point(m@, (ta@, va@), (tb@, vb@), (fi@, vi), (fs@, vs@), ns),
{
    DataPoint::builder(m).tag(ta, va).tag(tb, vb).field(fi, vi).field(fs, vs).timestamp(ns).build()
}

/// The `website_tick` point of a measurement, tagged by website and region; `None` when
/// its start time in nanoseconds does not fit in `i64`.
pub fn telemetry_point(t: &CheckTelemetry) -> (r: Option<DataPoint>)
    ensures
        r.is_none() <==> !(i64::MIN <= t.observed_at * 1_000_000 <= i64::MAX),
        r.is_some() ==> r.unwrap() == data_point(
            "website_tick"@,
            ("website_id"@, t.website_id@),
            ("region_id"@, t.region_id@),
            ("response_time_ms"@, t.response_time_ms as i64),
            ("status"@, status_text(t.status)),
            (t.observed_at * 1_000_000) as i64,
        ),
{
    let ns = match timestamp_ns(t.observed_at) {
        Some(ns) => ns,
        None => return None,
    };
    let status = t.status.label();
    let built = build_point(
        "website_tick",
        "website_id",
        t.website_id.as_str(),
        "region_id",
        t.region_id.as_str(),
        "response_time_ms",
        t.response_time_ms as i64,
        "status",
        status.as_str(),
        ns,
    );
    Some(built.unwrap())
}

} // verus!
