use vstd::prelude::*;
use crate::clock::MS_PER_DAY;

verus! {

/// Page shown when a query names none.
pub const DEFAULT_PAGE: u64 = 1;

/// Page size used when a query names none.
pub const DEFAULT_LIMIT: u64 = 10;

/// The instant, in ms since the epoch, that chrono reads from RFC 3339 text,
/// or `None` where the text is not RFC 3339.
pub uninterp spec fn rfc3339_millis(s: Seq<char>) -> Option<i64>;

/// The epoch day that chrono reads from `YYYY-MM-DD` text, or `None` where
/// the text is no such date.
pub uninterp spec fn ymd_epoch_day(s: Seq<char>) -> Option<i32>;

/// Relies on chrono's `DateTime::parse_from_rfc3339` and `timestamp_millis`:
/// the instant an RFC 3339 text names.
#[verifier::external_body]
fn parse_rfc3339_millis(s: &str) -> (r: Option<i64>)
    ensures
        r == rfc3339_millis(s@),
{
    chrono::DateTime::parse_from_rfc3339(s).ok().map(|dt| dt.timestamp_millis())
}

/// Relies on chrono's `NaiveDate::parse_from_str` with `%Y-%m-%d` and
/// `to_epoch_days`: the day a calendar date names.
#[verifier::external_body]
fn parse_ymd_epoch_day(s: &str) -> (r: Option<i32>)
    ensures
        r == ymd_epoch_day(s@),
{
    chrono::NaiveDate::parse_from_str(s, "%Y-%m-%d").ok().map(|d| d.to_epoch_days())
}

/// An ASCII hexadecimal digit.
pub open spec fn is_hex_char(c: char) -> bool {
    ('0' <= c && c <= '9') || ('a' <= c && c <= 'f') || ('A' <= c && c <= 'F')
}

/// The text of a store object id: 24 hexadecimal digits.
pub open spec fn is_object_id(s: Seq<char>) -> bool {
    s.len() == 24 && forall|i: int| 0 <= i < 24 ==> is_hex_char(#[trigger] s[i])
}

/// Whether `s` is the text of a store object id (24 hexadecimal digits).
pub fn object_id_valid(s: &str) -> (r: bool)
    ensures
        r == is_object_id(s@),
{
    let n = s.unicode_len();
    if n != 24 {
        return false;
    }
    let mut i: usize = 0;
    while i < 24
        invariant
            s@.len() == 24,
            0 <= i <= 24,
            forall|j: int| 0 <= j < i ==> is_hex_char(#[trigger] s@[j]),
        decreases 24 - i,
    {
        let c = s.get_char(i);
        if !(('0' <= c && c <= '9') || ('a' <= c && c <= 'f') || ('A' <= c && c <= 'F')) {
            return false;
        }
        i = i + 1;
    }
    true
}

/// The range of rows a listing shows.
#[derive(Debug, Clone, Copy, PartialEq, Eq, Structural)]
pub struct PageWindow {
    /// The page, counted from 1.
    pub page: u64,
    /// Rows per page.
    pub limit: u64,
    /// Rows before the page.
    pub skip: u64,
}

/// The rows that `page` and `limit` show: page 1 and 10 rows unless named;
/// none for page 0, or where the rows skipped do not fit in 64 bits.
pub open spec fn page_window_of(page: Option<u64>, limit: Option<u64>) -> Option<PageWindow> {
    let p = match page {
        Some(x) => x,
        None => DEFAULT_PAGE,
    };
    let l = match limit {
        Some(x) => x,
        None => DEFAULT_LIMIT,
    };
    if p >= 1 && (p - 1) * l <= u64::MAX {
        Some(PageWindow { page: p, limit: l, skip: ((p - 1) * l) as u64 })
    } else {
        None
    }
}

/// The page window of a listing query.
pub fn page_window(page: Option<u64>, limit: Option<u64>) -> (r: Option<PageWindow>)
    ensures
        r == page_window_of(page, limit),
{
    let p = match page {
        Some(x) => x,
        None => DEFAULT_PAGE,
    };
    let l = match limit {
        Some(x) => x,
        None => DEFAULT_LIMIT,
    };
    if p == 0 {
        return None;
    }
    match (p - 1).checked_mul(l) {
        None => None,
        Some(skip) => Some(PageWindow { page: p, limit: l, skip }),
    }
}

/// Query of the attendance listing and export.
#[derive(Debug, Clone)]
pub struct AttendanceQuery {
    pub page: Option<u64>,
    pub limit: Option<u64>,
    /// RFC 3339 instant or `YYYY-MM-DD` date.
    pub start_date: Option<String>,
    /// RFC 3339 instant or `YYYY-MM-DD` date.
    pub end_date: Option<String>,
    pub user_id: Option<String>,
}

/// Query of the user listing.
#[derive(Debug, Clone)]
pub struct ListUsersQuery {
    pub page: Option<u64>,
    pub limit: Option<u64>,
}

impl ListUsersQuery {
    /// The rows this query shows; see `page_window`.
    pub fn window(&self) -> (r: Option<PageWindow>)
        ensures
            r == page_window_of(self.page, self.limit),
    {
        page_window(self.page, self.limit)
    }
}

/// Which attendance rows a listing selects: one user, and an inclusive
/// range of instants (ms since the epoch, UTC).
#[derive(Debug, Clone)]
pub struct AttendanceFilter {
    pub user_id: Option<String>,
    pub from_ms: Option<i64>,
    pub to_ms: Option<i64>,
}

/// The lower bound that `start` names: its instant, or the first
/// millisecond of its date (UTC).
pub open spec fn start_bound(start: Seq<char>) -> Option<i64> {
    match rfc3339_millis(start) {
        Some(ms) => Some(ms),
        None => match ymd_epoch_day(start) {
            Some(d) => Some((d * MS_PER_DAY) as i64),
            None => None,
        },
    }
}

/// The upper bound that `end` names: its instant, or 23:59:59 of its date (UTC).
pub open spec fn end_bound(end: Seq<char>) -> Option<i64> {
    match rfc3339_millis(end) {
        Some(ms) => Some(ms),
        None => match ymd_epoch_day(end) {
            Some(d) => Some((d * MS_PER_DAY + 86_399_000) as i64),
            None => None,
        },
    }
}

fn start_of(s: &str) -> (r: Option<i64>)
    ensures
        r == start_bound(s@),
{
    match parse_rfc3339_millis(s) {
        Some(ms) => Some(ms),
        None => match parse_ymd_epoch_day(s) {
            Some(d) => {
                assert(-200_000_000_000_000_000 <= d * 86_400_000 <= 200_000_000_000_000_000) by (nonlinear_arith)
                    requires
                        i32::MIN <= d <= i32::MAX,
                ;
                Some(d as i64 * MS_PER_DAY)
            },
            None => None,
        },
    }
}

fn end_of(s: &str) -> (r: Option<i64>)
    ensures
        r == end_bound(s@),
{
    match parse_rfc3339_millis(s) {
        Some(ms) => Some(ms),
        None => match parse_ymd_epoch_day(s) {
            Some(d) => {
                assert(-200_000_000_000_000_000 <= d * 86_400_000 <= 200_000_000_000_000_000) by (nonlinear_arith)
                    requires
                        i32::MIN <= d <= i32::MAX,
                ;
                Some(d as i64 * MS_PER_DAY + 86_399_000)
            },
            None => None,
        },
    }
}

/// The bound of an optional text.
pub open spec fn opt_bound(s: Option<String>, start: bool) -> Option<i64> {
    match s {
        None => None,
        Some(t) => if start {
            start_bound(t@)
        } else {
            end_bound(t@)
        },
    }
}

/// The rows an attendance query selects. A user id that is not an object
/// id, and a date that is neither RFC 3339 nor `YYYY-MM-DD`, select nothing
/// less: they are left out of the filter.
pub fn build_attendance_filter(query: &AttendanceQuery) -> (r: AttendanceFilter)
    ensures
        r.user_id is Some <==> (query.user_id matches Some(u) && is_object_id(u@)),
        r.user_id matches Some(u) ==> u@ == query.user_id->Some_0@,
        r.from_ms == opt_bound(query.start_date, true),
        r.to_ms == opt_bound(query.end_date, false),
{
    let user_id = match &query.user_id {
        Some(u) => if object_id_valid(u.as_str()) {
            Some(u.clone())
        } else {
            None
        },
        None => None,
    };
    let from_ms = match &query.start_date {
        Some(s) => start_of(s.as_str()),
        None => None,
    };
    let to_ms = match &query.end_date {
        Some(s) => end_of(s.as_str()),
        None => None,
    };
    AttendanceFilter { user_id, from_ms, to_ms }
}

impl AttendanceQuery {
    /// The rows this query shows; see `page_window`.
    pub fn window(&self) -> (r: Option<PageWindow>)
        ensures
            r == page_window_of(self.page, self.limit),
    {
        page_window(self.page, self.limit)
    }
}

} // verus!
