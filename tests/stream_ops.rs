use uptime_core::stream::{DurableStream, StreamError};

fn s(x: &str) -> String {
    x.to_string()
}

fn filled(n: usize) -> DurableStream {
    let mut st = DurableStream::new();
    for i in 0..n {
        st.append(format!("payload-{}", i)).unwrap();
    }
    st
}

#[test]
fn append_assigns_increasing_ids() {
    let mut st = DurableStream::new();
    let a = st.append(s("a")).unwrap();
    let b = st.append(s("b")).unwrap();
    assert_eq!(a, 1);
    assert_eq!(b, 2);
    assert_eq!(st.len(), 2);
    assert_eq!(st.entry(2).unwrap().data, "b");
    assert!(st.entry(3).is_none());
}

#[test]
fn ensure_group_is_idempotent() {
    let mut st = filled(2);
    assert!(st.ensure_group(&s("g")));
    let got = st.read(&s("g"), &s("c1"), 1, 0).unwrap();
    assert_eq!(got.len(), 1);
    assert!(!st.ensure_group(&s("g")));
    // the cursor was not reset by the second call
    let got = st.read(&s("g"), &s("c1"), 10, 0).unwrap();
    assert_eq!(got.iter().map(|e| e.id).collect::<Vec<_>>(), vec![2]);
}

#[test]
fn read_without_group_fails() {
    let mut st = filled(1);
    assert_eq!(st.read(&s("none"), &s("c"), 5, 0).unwrap_err(), StreamError::NoSuchGroup);
    assert_eq!(st.claim_idle(&s("none"), &s("c"), 0, 0).unwrap_err(), StreamError::NoSuchGroup);
    assert!(st.pending_ids(&s("none")).is_none());
}

#[test]
fn ack_twice_returns_zero_second_time() {
    let mut st = filled(3);
    st.ensure_group(&s("g"));
    let got = st.read(&s("g"), &s("c"), 10, 5).unwrap();
    let id = got[1].id;
    assert_eq!(st.ack(&s("g"), id), 1);
    assert_eq!(st.ack(&s("g"), id), 0);
    assert_eq!(st.ack(&s("g"), 999), 0);
    assert_eq!(st.ack(&s("missing"), id), 0);
    assert_eq!(st.pending_ids(&s("g")).unwrap(), vec![1, 3]);
}

#[test]
fn new_group_replays_whole_backlog() {
    let mut st = filled(5);
    st.ensure_group(&s("late"));
    let got = st.read(&s("late"), &s("c"), 100, 0).unwrap();
    assert_eq!(got.len(), 5);
    for (i, e) in got.iter().enumerate() {
        assert_eq!(e.id, (i + 1) as u64);
        assert_eq!(e.data, format!("payload-{}", i));
    }
}

#[test]
fn read_respects_batch_size_and_order() {
    let mut st = filled(5);
    st.ensure_group(&s("g"));
    let a = st.read(&s("g"), &s("c1"), 2, 0).unwrap();
    let b = st.read(&s("g"), &s("c2"), 2, 0).unwrap();
    let c = st.read(&s("g"), &s("c1"), 2, 0).unwrap();
    let d = st.read(&s("g"), &s("c1"), 2, 0).unwrap();
    assert_eq!(a.iter().map(|e| e.id).collect::<Vec<_>>(), vec![1, 2]);
    assert_eq!(b.iter().map(|e| e.id).collect::<Vec<_>>(), vec![3, 4]);
    assert_eq!(c.iter().map(|e| e.id).collect::<Vec<_>>(), vec![5]);
    assert!(d.is_empty());
}

#[test]
fn acked_entry_never_redelivered() {
    let mut st = filled(2);
    st.ensure_group(&s("g"));
    let got = st.read(&s("g"), &s("c1"), 10, 0).unwrap();
    assert_eq!(st.ack(&s("g"), got[0].id), 1);
    st.append(s("later")).unwrap();
    let next = st.read(&s("g"), &s("c2"), 10, 100).unwrap();
    assert!(next.iter().all(|e| e.id != got[0].id));
    let claimed = st.claim_idle(&s("g"), &s("c2"), 1_000, 0).unwrap();
    assert!(!claimed.contains(&got[0].id));
    assert_eq!(claimed, vec![2, 3]);
}

#[test]
fn idle_pending_entry_is_claimed_after_window() {
    let mut st = filled(1);
    st.ensure_group(&s("g"));
    let got = st.read(&s("g"), &s("c1"), 10, 1_000).unwrap();
    let id = got[0].id;
    // still inside the visibility window
    assert!(st.claim_idle(&s("g"), &s("c2"), 1_500, 1_000).unwrap().is_empty());
    // a plain read does not hand out pending entries
    assert!(st.read(&s("g"), &s("c2"), 10, 1_500).unwrap().is_empty());
    assert_eq!(st.claim_idle(&s("g"), &s("c2"), 2_000, 1_000).unwrap(), vec![id]);
    // the claim restarted its idle time
    assert!(st.claim_idle(&s("g"), &s("c3"), 2_500, 1_000).unwrap().is_empty());
    assert_eq!(st.ack(&s("g"), id), 1);
    assert!(st.claim_idle(&s("g"), &s("c3"), 9_000, 0).unwrap().is_empty());
}

#[test]
fn trim_keeps_group_backlog() {
    let mut st = filled(6);
    st.ensure_group(&s("g"));
    let got = st.read(&s("g"), &s("c"), 4, 0).unwrap();
    for e in &got[..3] {
        st.ack(&s("g"), e.id);
    }
    // entry 4 is pending, 5 and 6 undelivered: a backlog of three entries
    assert_eq!(st.trim(3), 3);
    assert_eq!(st.len(), 3);
    assert!(st.entry(4).is_some());
    assert!(st.entry(3).is_none());
    assert_eq!(st.pending_ids(&s("g")).unwrap(), vec![4]);
    let rest = st.read(&s("g"), &s("c"), 10, 0).unwrap();
    assert_eq!(rest.iter().map(|e| e.id).collect::<Vec<_>>(), vec![5, 6]);
}

#[test]
fn trim_below_length_removes_nothing() {
    let mut st = filled(2);
    assert_eq!(st.trim(5), 0);
    assert_eq!(st.len(), 2);
    assert_eq!(st.trim(0), 2);
    assert_eq!(st.len(), 0);
    assert_eq!(st.append(s("x")).unwrap(), 3);
}
