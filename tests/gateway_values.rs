use influxdb2::models::WriteDataPoint;
use uptime_core::dispatch::render_alert;
use uptime_core::mail::{alert_email, MailError, MAIL_DATE_LIMIT_S};
use uptime_core::point::telemetry_point;
use uptime_core::probe::{CheckTelemetry, Status};
use uptime_core::records::NotificationEntry;

fn measurement(observed_at: i64) -> CheckTelemetry {
    CheckTelemetry {
        website_id: "w1".to_string(),
        region_id: "europe".to_string(),
        status: Status::Down,
        response_time_ms: 32,
        observed_at,
    }
}

#[test]
fn point_line_protocol() {
    let p = telemetry_point(&measurement(10)).unwrap();
    let mut buf = Vec::new();
    p.write_data_point_to(&mut buf).unwrap();
    let line = String::from_utf8(buf).unwrap();
    assert_eq!(line, "website_tick,region_id=europe,website_id=w1 response_time_ms=32i,status=\"Down\" 10000000\n");
}

#[test]
fn point_with_unrepresentable_time() {
    assert!(telemetry_point(&measurement(i64::MAX)).is_none());
    assert!(telemetry_point(&measurement(i64::MIN / 1_000)).is_none());
}

fn notification() -> NotificationEntry {
    NotificationEntry {
        website_id: "w1".to_string(),
        region_id: "europe".to_string(),
        status: "Down".to_string(),
        response_time_ms: 87,
        timestamp: 1_700_000_000_000,
    }
}

#[test]
fn email_built_from_alert() {
    let alert = render_alert(&notification(), &"Monitor <monitor@example.com>".to_string(), &"User <user@example.com>".to_string());
    let email = alert_email(&alert, 1_700_000_000).unwrap();
    let text = String::from_utf8(email.formatted()).unwrap();
    assert!(text.contains("Date: Tue, 14 Nov 2023 22:13:20 +0000"));
    assert!(text.contains("Content-Type: text/plain"));
    assert!(text.contains("From: Monitor <monitor@example.com>"));
    let again = alert_email(&alert, 1_700_000_000).unwrap();
    assert_eq!(again.formatted(), email.formatted());
    assert!(text.contains("Subject: Website Down Alert"));
    assert!(text.contains("To: User <user@example.com>"));
    assert!(text.contains("Website w1 is down in region europe at 1700000000000. Response time: 87ms"));
}

#[test]
fn email_with_bad_addresses() {
    let bad_from = render_alert(&notification(), &"not an address".to_string(), &"user@example.com".to_string());
    assert_eq!(alert_email(&bad_from, 0).unwrap_err(), MailError::InvalidSender);
    let bad_to = render_alert(&notification(), &"monitor@example.com".to_string(), &"nobody".to_string());
    assert_eq!(alert_email(&bad_to, 0).unwrap_err(), MailError::InvalidRecipient);
}

#[test]
fn email_with_unrepresentable_date() {
    let alert = render_alert(&notification(), &"monitor@example.com".to_string(), &"user@example.com".to_string());
    assert_eq!(alert_email(&alert, MAIL_DATE_LIMIT_S).unwrap_err(), MailError::DateOutOfRange);
    assert!(alert_email(&alert, MAIL_DATE_LIMIT_S - 1).is_ok());
}
