use vexis::aggregate::{summarize_day, summarize_days, DaySummary};
use vexis::clock::LocalZone;
use vexis::event::AttendanceEvent;
use vexis::polarity::Polarity;
use vexis::present::{format_minute, local_date_text, local_time_text, render_logs, AttendanceLog, AttendanceResponse, DashboardStatsResponse};

const JAN_15_UTC: i64 = 1_705_276_800_000;
const HOUR: i64 = 3_600_000;
const MINUTE: i64 = 60_000;

fn wib() -> LocalZone {
    LocalZone::from_hours(7).unwrap()
}

fn ev(ts: i64, p: Polarity) -> AttendanceEvent {
    AttendanceEvent { timestamp_ms: ts, polarity: p }
}

fn history() -> Vec<AttendanceEvent> {
    vec![
        ev(JAN_15_UTC + HOUR, Polarity::In),                // 08:00 on the 15th
        ev(JAN_15_UTC + 10 * HOUR, Polarity::Out),          // 17:00
        ev(JAN_15_UTC + 30 * MINUTE, Polarity::In),         // 07:30
        ev(JAN_15_UTC + 9 * HOUR, Polarity::Out),           // 16:00
        ev(JAN_15_UTC + 25 * HOUR + 5 * MINUTE, Polarity::In), // 08:05 on the 16th
        ev(JAN_15_UTC - 16 * HOUR, Polarity::Out),          // 15:00 on the 14th
    ]
}

#[test]
fn days_newest_first_with_earliest_in_and_latest_out() {
    let r = summarize_days(&history(), wib(), 5);
    assert_eq!(
        r,
        vec![
            DaySummary { day: 19738, first_in: Some(485), last_out: None },
            DaySummary { day: 19737, first_in: Some(450), last_out: Some(1020) },
            DaySummary { day: 19736, first_in: None, last_out: Some(900) },
        ]
    );
}

#[test]
fn days_truncated_to_the_most_recent() {
    let r = summarize_days(&history(), wib(), 2);
    assert_eq!(r.len(), 2);
    assert_eq!(r[0].day, 19738);
    assert_eq!(r[1].day, 19737);
    assert!(summarize_days(&history(), wib(), 0).is_empty());
    assert!(summarize_days(&Vec::new(), wib(), 5).is_empty());
}

#[test]
fn shuffled_history_gives_same_summaries() {
    let mut shuffled = history();
    shuffled.reverse();
    shuffled.swap(0, 3);
    assert_eq!(summarize_days(&history(), wib(), 5), summarize_days(&shuffled, wib(), 5));
}

#[test]
fn one_day_pair() {
    let s = summarize_day(&history(), wib(), 19737);
    assert_eq!(s, DaySummary { day: 19737, first_in: Some(450), last_out: Some(1020) });
    let none = summarize_day(&history(), wib(), 19700);
    assert_eq!(none, DaySummary { day: 19700, first_in: None, last_out: None });
}

#[test]
fn minutes_and_dates_as_text() {
    assert_eq!(format_minute(0), "00:00");
    assert_eq!(format_minute(485), "08:05");
    assert_eq!(format_minute(1439), "23:59");
    let log = AttendanceLog::from_summary(&DaySummary { day: 19737, first_in: Some(450), last_out: None }).unwrap();
    assert_eq!(log.date, "2024-01-15");
    assert_eq!(log.check_in, Some("07:30".to_string()));
    assert_eq!(log.check_out, None);
    assert_eq!(log.status, "Hadir");
    assert!(AttendanceLog::from_summary(&DaySummary { day: i64::MAX, first_in: None, last_out: None }).is_none());
    let logs = render_logs(&vec![DaySummary { day: 0, first_in: None, last_out: Some(61) }]).unwrap();
    assert_eq!(logs[0].date, "1970-01-01");
    assert_eq!(logs[0].check_out, Some("01:01".to_string()));
}

#[test]
fn dashboard_today_and_recent() {
    let now = JAN_15_UTC + 11 * HOUR; // 18:00 local on the 15th
    let d = DashboardStatsResponse::build(&history(), &history(), now, wib(), 5).unwrap();
    assert_eq!(d.check_in, Some("07:30".to_string()));
    assert_eq!(d.check_out, Some("17:00".to_string()));
    assert_eq!(d.recent_logs.len(), 3);
    assert_eq!(d.recent_logs[0].date, "2024-01-16");
    assert_eq!(d.recent_logs[2].date, "2024-01-14");
    assert_eq!(d.recent_logs[2].check_in, None);
}

#[test]
fn accepted_reply() {
    let r = AttendanceResponse::accepted(&ev(JAN_15_UTC + HOUR, Polarity::In)).unwrap();
    assert_eq!(r.message, "Successfully checked In");
    assert_eq!(r.kind, "In");
    assert_eq!(r.timestamp, "2024-01-15T01:00:00+00:00");
    let out = AttendanceResponse::accepted(&ev(0, Polarity::Out)).unwrap();
    assert_eq!(out.message, "Successfully checked Out");
    assert_eq!(out.timestamp, "1970-01-01T00:00:00+00:00");
}

#[test]
fn local_time_and_date_of_an_instant() {
    let t = JAN_15_UTC + 16 * HOUR + 59 * MINUTE + 7_250; // 23:59:07.250 local
    assert_eq!(local_time_text(wib(), t), "23:59:07");
    assert_eq!(local_date_text(wib(), t), Some("2024-01-15".to_string()));
    assert_eq!(local_date_text(wib(), t + MINUTE), Some("2024-01-16".to_string()));
    assert_eq!(local_time_text(wib(), t + MINUTE), "00:00:07");
    assert_eq!(local_date_text(wib(), i64::MAX), None);
}

#[test]
fn reply_outside_calendar_range_is_none() {
    assert!(AttendanceResponse::accepted(&ev(10_000_000_000_000_000, Polarity::In)).is_none());
    assert!(AttendanceResponse::accepted(&ev(8_000_000_000_000_000, Polarity::In)).is_some());
    assert!(AttendanceResponse::accepted(&ev(-8_000_000_000_000_000, Polarity::Out)).is_some());
}

#[test]
fn dashboard_ignores_event_order() {
    let now = JAN_15_UTC + 11 * HOUR;
    let mut shuffled = history();
    shuffled.rotate_left(2);
    shuffled.swap(1, 4);
    let a = DashboardStatsResponse::build(&history(), &history(), now, wib(), 5).unwrap();
    let b = DashboardStatsResponse::build(&shuffled, &shuffled, now, wib(), 5).unwrap();
    assert_eq!((a.check_in, a.check_out), (b.check_in, b.check_out));
    assert_eq!(a.recent_logs.len(), b.recent_logs.len());
    for (x, y) in a.recent_logs.iter().zip(b.recent_logs.iter()) {
        assert_eq!((&x.date, &x.check_in, &x.check_out, &x.status), (&y.date, &y.check_in, &y.check_out, &y.status));
    }
}
