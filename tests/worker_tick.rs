use uptime_core::probe::{
    classify, elapsed_ms, is_success, notification_for, plan_tick, telemetry_for, timestamp_ns,
    ProbeOutcome, ProbeReport, Status,
};
use uptime_core::records::WebsiteStreamEntry;

fn site(id: &str) -> WebsiteStreamEntry {
    WebsiteStreamEntry { id: id.to_string(), url: format!("https://{}.example", id), name: None }
}

fn report(outcome: ProbeOutcome, started: i64, finished: i64) -> ProbeReport {
    ProbeReport { outcome, started_ms: started, finished_ms: finished }
}

#[test]
fn down_classification() {
    assert_eq!(classify(ProbeOutcome::Response(500)), Status::Down);
    assert_eq!(classify(ProbeOutcome::TimedOut), Status::Down);
    assert_eq!(classify(ProbeOutcome::ConnectionRefused), Status::Down);
    assert_eq!(classify(ProbeOutcome::Failed), Status::Down);
    assert_eq!(classify(ProbeOutcome::Response(200)), Status::Up);
}

#[test]
fn success_code_bounds() {
    assert!(!is_success(199));
    assert!(is_success(200));
    assert!(is_success(299));
    assert!(!is_success(300));
    assert!(!is_success(404));
}

#[test]
fn status_labels() {
    assert_eq!(Status::Up.label(), "Up");
    assert_eq!(Status::Down.label(), "Down");
}

#[test]
fn elapsed_is_clamped() {
    assert_eq!(elapsed_ms(1_000, 1_250), 250);
    assert_eq!(elapsed_ms(1_000, 900), 0);
    assert_eq!(elapsed_ms(0, i64::MAX), i32::MAX);
}

#[test]
fn timestamp_in_nanoseconds() {
    assert_eq!(timestamp_ns(1_700_000_000_123), Some(1_700_000_000_123_000_000));
    assert_eq!(timestamp_ns(-2), Some(-2_000_000));
    assert_eq!(timestamp_ns(i64::MAX / 1_000), None);
}

#[test]
fn telemetry_carries_start_time() {
    let t = telemetry_for(&site("a"), &"europe".to_string(), &report(ProbeOutcome::Response(503), 10, 42));
    assert_eq!(t.website_id, "a");
    assert_eq!(t.region_id, "europe");
    assert_eq!(t.status, Status::Down);
    assert_eq!(t.response_time_ms, 32);
    assert_eq!(t.observed_at, 10);
    let n = notification_for(&t).unwrap();
    assert_eq!(n.status, "Down");
    assert_eq!(n.timestamp, 10);
    assert_eq!(n.response_time_ms, 32);
}

#[test]
fn up_measurement_raises_no_alert() {
    let t = telemetry_for(&site("a"), &"europe".to_string(), &report(ProbeOutcome::Response(200), 0, 5));
    assert!(notification_for(&t).is_none());
}

#[test]
fn tick_with_one_up_two_down() {
    let sites = vec![site("A"), site("B"), site("C")];
    let reports = vec![
        report(ProbeOutcome::Response(200), 100, 120),
        report(ProbeOutcome::Response(500), 100, 130),
        report(ProbeOutcome::TimedOut, 100, 5_100),
    ];
    let plan = plan_tick(&sites, &"europe".to_string(), &reports);
    assert_eq!(plan.telemetry.len(), 3);
    assert_eq!(plan.notifications.len(), 2);
    assert_eq!(plan.notifications[0].website_id, "B");
    assert_eq!(plan.notifications[1].website_id, "C");
    assert_eq!(plan.notifications[1].response_time_ms, 5_000);
    assert!(plan.notifications.iter().all(|n| n.region_id == "europe" && n.status == "Down"));
}

#[test]
fn empty_tick_writes_nothing() {
    let plan = plan_tick(&vec![], &"europe".to_string(), &vec![]);
    assert!(plan.telemetry.is_empty());
    assert!(plan.notifications.is_empty());
}
