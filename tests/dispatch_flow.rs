use uptime_core::dispatch::{acks_for, render_alert};
use uptime_core::records::{Claims, NotificationEntry};
use uptime_core::stream::DurableStream;
use uptime_core::text::append_decimal;

fn entry(id: &str, ts: i64, rt: i32) -> NotificationEntry {
    NotificationEntry {
        website_id: id.to_string(),
        region_id: "europe".to_string(),
        status: "Down".to_string(),
        response_time_ms: rt,
        timestamp: ts,
    }
}

#[test]
fn alert_text() {
    let m = render_alert(&entry("w1", 1_700_000_000_000, 87), &"Monitor <m@x.io>".to_string(), &"User <u@x.io>".to_string());
    assert_eq!(m.from, "Monitor <m@x.io>");
    assert_eq!(m.to, "User <u@x.io>");
    assert_eq!(m.subject, "Website Down Alert");
    assert_eq!(m.body, "Website w1 is down in region europe at 1700000000000. Response time: 87ms");
}

#[test]
fn decimal_rendering() {
    let mut t = String::from("x=");
    append_decimal(&mut t, 0);
    assert_eq!(t, "x=0");
    let mut t = String::new();
    append_decimal(&mut t, -305);
    assert_eq!(t, "-305");
    let mut t = String::new();
    append_decimal(&mut t, i64::MIN);
    assert_eq!(t, i64::MIN.to_string());
    let mut t = String::new();
    append_decimal(&mut t, i64::MAX);
    assert_eq!(t, i64::MAX.to_string());
}

#[test]
fn only_delivered_entries_are_acked() {
    let ids = vec!["1-0".to_string(), "2-0".to_string(), "3-0".to_string()];
    assert_eq!(acks_for(&ids, &vec![true, false, true]), vec!["1-0".to_string(), "3-0".to_string()]);
    assert!(acks_for(&ids, &vec![false, false, false]).is_empty());
    assert!(acks_for(&vec![], &vec![]).is_empty());
}

#[test]
fn failed_delivery_is_retried_then_settled() {
    let group = "notifiers".to_string();
    let mut st = DurableStream::new();
    st.append("{\"website_id\":\"w1\"}".to_string()).unwrap();
    st.ensure_group(&group);
    let batch = st.read(&group, &"d1".to_string(), 100, 1_000).unwrap();
    let ids: Vec<String> = batch.iter().map(|e| e.id.to_string()).collect();
    // the gateway fails: nothing is acknowledged
    assert!(acks_for(&ids, &vec![false]).is_empty());
    assert_eq!(st.pending_ids(&group).unwrap(), vec![1]);
    // after the window the entry comes back
    let again = st.claim_idle(&group, &"d2".to_string(), 61_000, 60_000).unwrap();
    assert_eq!(again, vec![1]);
    // the gateway succeeds: the entry is acknowledged and gone for good
    let acks = acks_for(&vec!["1".to_string()], &vec![true]);
    assert_eq!(acks, vec!["1".to_string()]);
    assert_eq!(st.ack(&group, 1), 1);
    assert!(st.read(&group, &"d1".to_string(), 100, 200_000).unwrap().is_empty());
    assert!(st.claim_idle(&group, &"d1".to_string(), 500_000, 0).unwrap().is_empty());
}

#[test]
fn claims_keep_subject_and_expiry() {
    let c = Claims::new("user-1".to_string(), 1_111_111);
    assert_eq!(c.sub, "user-1");
    assert_eq!(c.exp(), 1_111_111);
}

#[test]
fn batch_settlement_keeps_failed_entries_pending() {
    let group = "notifiers".to_string();
    let mut st = DurableStream::new();
    for i in 0..3 {
        st.append(format!("alert-{}", i)).unwrap();
    }
    st.ensure_group(&group);
    let batch = st.read(&group, &"d1".to_string(), 100, 0).unwrap();
    let ids: Vec<String> = batch.iter().map(|e| e.id.to_string()).collect();
    for id in acks_for(&ids, &vec![true, false, true]) {
        assert_eq!(st.ack(&group, id.parse().unwrap()), 1);
    }
    assert_eq!(st.pending_ids(&group).unwrap(), vec![2]);
    assert_eq!(st.claim_idle(&group, &"d2".to_string(), 10, 5).unwrap(), vec![2]);
}
