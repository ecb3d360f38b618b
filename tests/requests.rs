use vexis::account::{
    bearer_token, is_admin, reset_expiry, reset_token_expired, template_len_valid, UpdateProfileRequest,
};
use vexis::admin::{build_attendance_filter, object_id_valid, page_window, AttendanceQuery, ListUsersQuery, PageWindow};

fn query(start: Option<&str>, end: Option<&str>, user: Option<&str>) -> AttendanceQuery {
    AttendanceQuery {
        page: None,
        limit: None,
        start_date: start.map(|s| s.to_string()),
        end_date: end.map(|s| s.to_string()),
        user_id: user.map(|s| s.to_string()),
    }
}

#[test]
fn page_defaults_and_limits() {
    assert_eq!(page_window(None, None), Some(PageWindow { page: 1, limit: 10, skip: 0 }));
    assert_eq!(page_window(Some(3), Some(20)), Some(PageWindow { page: 3, limit: 20, skip: 40 }));
    assert_eq!(page_window(Some(0), None), None);
    assert_eq!(page_window(Some(u64::MAX), Some(2)), None);
    assert_eq!(ListUsersQuery { page: Some(2), limit: None }.window().unwrap().skip, 10);
}

#[test]
fn filter_dates_and_user() {
    let f = build_attendance_filter(&query(Some("2024-01-15"), Some("2024-01-15"), Some("65a4f0c2b1e3d4a5f6789012")));
    assert_eq!(f.from_ms, Some(1_705_276_800_000));
    assert_eq!(f.to_ms, Some(1_705_276_800_000 + 86_399_000));
    assert_eq!(f.user_id, Some("65a4f0c2b1e3d4a5f6789012".to_string()));
    let g = build_attendance_filter(&query(Some("2024-01-15T08:00:00+07:00"), Some("not a date"), Some("xyz")));
    assert_eq!(g.from_ms, Some(1_705_280_400_000));
    assert_eq!(g.to_ms, None);
    assert_eq!(g.user_id, None);
    let h = build_attendance_filter(&query(None, None, None));
    assert_eq!((h.from_ms, h.to_ms, h.user_id), (None, None, None));
    assert_eq!(query(None, None, None).window().unwrap().limit, 10);
}

#[test]
fn object_ids() {
    assert!(object_id_valid("65A4F0C2B1E3D4A5F6789012"));
    assert!(!object_id_valid("65a4f0c2b1e3d4a5f678901"));
    assert!(!object_id_valid("65a4f0c2b1e3d4a5f678901g"));
}

#[test]
fn bearer_headers_and_roles() {
    assert_eq!(bearer_token("Bearer abc.def"), Some("abc.def"));
    assert_eq!(bearer_token("Bearer "), Some(""));
    assert_eq!(bearer_token("bearer abc"), None);
    assert_eq!(bearer_token("Basic abc"), None);
    assert!(is_admin("admin"));
    assert!(!is_admin("karyawan"));
    assert!(!is_admin("Admin"));
}

#[test]
fn reset_tokens_and_templates() {
    assert_eq!(reset_expiry(1_000), Some(3_601_000));
    assert_eq!(reset_expiry(i64::MAX), None);
    assert!(reset_token_expired(10, 11));
    assert!(!reset_token_expired(10, 10));
    assert!(template_len_valid(1434));
    assert!(!template_len_valid(1433));
    assert!(!UpdateProfileRequest { name: None, identifier: None }.has_changes());
    assert!(UpdateProfileRequest { name: Some("Ana".to_string()), identifier: None }.has_changes());
}
