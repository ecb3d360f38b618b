use vexis::clock::LocalZone;
use vexis::event::{latest_on_day, AttendanceEvent};
use vexis::polarity::Polarity;
use vexis::resolver::{check_gates, next_polarity, resolve_check, AttendanceBook, GateOutcome, RejectReason};

// 2024-01-15 00:00 UTC, in ms since the epoch.
const JAN_15_UTC: i64 = 1_705_276_800_000;
const HOUR: i64 = 3_600_000;
const MINUTE: i64 = 60_000;

fn wib() -> LocalZone {
    LocalZone::from_hours(7).unwrap()
}

fn pass() -> GateOutcome {
    GateOutcome { has_template: true, within_radius: true, similarity_met: true }
}

#[test]
fn first_three_checks_of_a_day_alternate() {
    let mut book = AttendanceBook::new();
    let t = JAN_15_UTC + HOUR; // 08:00 local
    assert_eq!(book.check_in_out(&pass(), t, wib()).unwrap().polarity, Polarity::In);
    assert_eq!(book.check_in_out(&pass(), t + 4 * HOUR, wib()).unwrap().polarity, Polarity::Out);
    assert_eq!(book.check_in_out(&pass(), t + 5 * HOUR, wib()).unwrap().polarity, Polarity::In);
    assert_eq!(book.events().len(), 3);
}

#[test]
fn new_local_day_starts_with_in() {
    let mut book = AttendanceBook::new();
    let late = JAN_15_UTC + 16 * HOUR + 59 * MINUTE; // 23:59 local on the 15th
    let early = JAN_15_UTC + 17 * HOUR + MINUTE; // 00:01 local on the 16th
    assert_eq!(wib().day_of(late) + 1, wib().day_of(early));
    assert_eq!(book.check_in_out(&pass(), late, wib()).unwrap().polarity, Polarity::In);
    assert_eq!(book.check_in_out(&pass(), early, wib()).unwrap().polarity, Polarity::In);
}

#[test]
fn accepted_twice_then_refused_outside_fence() {
    let mut book = AttendanceBook::new();
    let t = JAN_15_UTC + 2 * HOUR;
    let first = book.check_in_out(&pass(), t, wib()).unwrap();
    assert_eq!(first, AttendanceEvent { timestamp_ms: t, polarity: Polarity::In });
    let second = book.check_in_out(&pass(), t + 1000, wib()).unwrap();
    assert_eq!(second.polarity, Polarity::Out);
    let far = GateOutcome { has_template: true, within_radius: false, similarity_met: true };
    assert_eq!(book.check_in_out(&far, t + 2000, wib()), Err(RejectReason::OutsideGeofence));
    assert_eq!(book.events().len(), 2);
    assert_eq!(RejectReason::OutsideGeofence.code(), "outside-geofence");
}

#[test]
fn gates_fail_in_order() {
    let none = GateOutcome { has_template: false, within_radius: false, similarity_met: false };
    assert_eq!(check_gates(&none), Err(RejectReason::FaceNotRegistered));
    let far = GateOutcome { has_template: true, within_radius: false, similarity_met: false };
    assert_eq!(check_gates(&far), Err(RejectReason::OutsideGeofence));
    let unlike = GateOutcome { has_template: true, within_radius: true, similarity_met: false };
    assert_eq!(check_gates(&unlike), Err(RejectReason::BiometricMismatch));
    assert_eq!(check_gates(&pass()), Ok(()));
    assert_eq!(RejectReason::FaceNotRegistered.code(), "no-template");
    assert_eq!(RejectReason::BiometricMismatch.code(), "biometric-mismatch");
    assert_eq!(RejectReason::StoreError.code(), "store-error");
}

#[test]
fn failed_read_is_a_store_error() {
    let t = JAN_15_UTC + HOUR;
    assert_eq!(resolve_check(&pass(), None, t, wib()), Err(RejectReason::StoreError));
    let prior = vec![AttendanceEvent { timestamp_ms: t - HOUR / 2, polarity: Polarity::In }];
    assert_eq!(
        resolve_check(&pass(), Some(&prior), t, wib()),
        Ok(AttendanceEvent { timestamp_ms: t, polarity: Polarity::Out })
    );
}

#[test]
fn latest_event_of_the_day_decides() {
    let base = JAN_15_UTC + HOUR;
    let events = vec![
        AttendanceEvent { timestamp_ms: base + 3 * HOUR, polarity: Polarity::Out },
        AttendanceEvent { timestamp_ms: base, polarity: Polarity::In },
        AttendanceEvent { timestamp_ms: base - 24 * HOUR, polarity: Polarity::In },
    ];
    let day = wib().day_of(base);
    assert_eq!(latest_on_day(&events, wib(), day), Some(0));
    assert_eq!(latest_on_day(&events, wib(), day + 1), None);
    assert_eq!(next_polarity(&events, base + 5 * HOUR, wib()), Polarity::In);
    let tied = vec![
        AttendanceEvent { timestamp_ms: base, polarity: Polarity::In },
        AttendanceEvent { timestamp_ms: base, polarity: Polarity::Out },
    ];
    assert_eq!(latest_on_day(&tied, wib(), day), Some(1));
}

#[test]
fn polarity_labels() {
    assert_eq!(Polarity::from_label("In"), Some(Polarity::In));
    assert_eq!(Polarity::from_label("Out"), Some(Polarity::Out));
    assert_eq!(Polarity::from_label("in"), None);
    assert_eq!(Polarity::from_label(""), None);
    assert_eq!(Polarity::In.label(), "In");
    assert_eq!(Polarity::Out.opposite(), Polarity::In);
}

#[test]
fn local_days_and_windows() {
    let z = wib();
    assert_eq!(z.offset_ms, 7 * HOUR);
    assert!(LocalZone::from_hours(24).is_none());
    assert_eq!(LocalZone::from_offset_minutes(330).unwrap().offset_ms, 19_800_000);
    assert_eq!(LocalZone::from_offset_minutes(-90).unwrap().day_of(0), -1);
    assert!(LocalZone::from_offset_minutes(1440).is_none());
    // 16:59 UTC on the 15th is 23:59 local; 17:00 UTC is the next local day.
    assert_eq!(z.day_of(JAN_15_UTC + 17 * HOUR - MINUTE), 19737);
    assert_eq!(z.day_of(JAN_15_UTC + 17 * HOUR), 19738);
    assert_eq!(z.minute_of(JAN_15_UTC + 17 * HOUR - MINUTE), 1439);
    assert_eq!(z.day_of(-1), 0);
    let utc = LocalZone::from_hours(0).unwrap();
    assert_eq!(utc.day_of(-1), -1);
    assert_eq!(utc.minute_of(-1), 1439);
    assert_eq!(z.day_window(19737), Some((JAN_15_UTC - 7 * HOUR, JAN_15_UTC + 17 * HOUR - 1)));
    assert_eq!(z.day_window(i64::MAX), None);
}
