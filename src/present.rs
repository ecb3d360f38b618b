use vstd::prelude::*;
use crate::aggregate::{
    is_summary, lemma_day_order_independent, lemma_order_independent, lemma_summary_in_day, minutes_in_day,
    summarize_day, summarize_days, summary_of, DaySummary,
};
use crate::clock::{local_day, second_of_day, LocalZone, MINUTES_PER_DAY};
use crate::event::{has_event_on_day, AttendanceEvent};
use crate::polarity::label_of;

verus! {

/// What chrono writes, as `%Y-%m-%d`, for the date `day` days after 1970-01-01.
pub uninterp spec fn iso_date_text(day: int) -> Seq<char>;

/// What chrono's `to_rfc3339` writes for the UTC instant `ms` milliseconds
/// after the epoch.
pub uninterp spec fn rfc3339_text(ms: int) -> Seq<char>;

/// Relies on chrono's `NaiveDate::from_epoch_days` and its `%Y-%m-%d`
/// formatting: the calendar date of an epoch day, or `None` where chrono's
/// date range (years -262144 to 262142) ends.
#[verifier::external_body]
fn format_epoch_day(day: i32) -> (r: Option<String>)
    ensures
        r matches Some(s) ==> s@ == iso_date_text(day as int),
        -90_000_000 <= day <= 90_000_000 ==> r is Some,
{
    chrono::NaiveDate::from_epoch_days(day).map(|d| d.format("%Y-%m-%d").to_string())
}

/// Relies on chrono's `DateTime::<Utc>::from_timestamp_millis` and
/// `to_rfc3339`: the instant as RFC 3339 text, or `None` outside chrono's
/// range (years -262144 to 262142, about 8.2e15 ms either way).
#[verifier::external_body]
fn format_rfc3339(ms: i64) -> (r: Option<String>)
    ensures
        r matches Some(s) ==> s@ == rfc3339_text(ms as int),
        -8_000_000_000_000_000 <= ms <= 8_000_000_000_000_000 ==> r is Some,
{
    chrono::DateTime::<chrono::Utc>::from_timestamp_millis(ms).map(|d| d.to_rfc3339())
}

/// The decimal digit `d`.
pub open spec fn digit_char(d: int) -> char {
    if d == 0 {
        '0'
    } else if d == 1 {
        '1'
    } else if d == 2 {
        '2'
    } else if d == 3 {
        '3'
    } else if d == 4 {
        '4'
    } else if d == 5 {
        '5'
    } else if d == 6 {
        '6'
    } else if d == 7 {
        '7'
    } else if d == 8 {
        '8'
    } else {
        '9'
    }
}

/// Minute `minute` of the day as `HH:MM`.
pub open spec fn hh_mm_text(minute: int) -> Seq<char> {
    seq![
        digit_char(minute / 60 / 10),
        digit_char(minute / 60 % 10),
        ':',
        digit_char(minute % 60 / 10),
        digit_char(minute % 60 % 10),
    ]
}

fn digit(d: u32) -> (r: &'static str)
    requires
        d < 10,
    ensures
        r@ == seq![digit_char(d as int)],
{
    let all = "0123456789";
    proof {
        reveal_strlit("0123456789");
    }
    let r = all.substring_char(d as usize, d as usize + 1);
    assert(r@ =~= seq![digit_char(d as int)]);
    r
}

/// Minute `minute` of the day as `HH:MM`, as the dashboard shows it.
pub fn format_minute(minute: u32) -> (r: String)
    requires
        minute < MINUTES_PER_DAY,
    ensures
        r@ == hh_mm_text(minute as int),
{
    let h = minute / 60;
    let m = minute % 60;
    let mut s = String::from_str(digit(h / 10));
    s.append(digit(h % 10));
    proof {
        reveal_strlit(":");
    }
    s.append(":");
    s.append(digit(m / 10));
    s.append(digit(m % 10));
    assert(s@ =~= hh_mm_text(minute as int));
    s
}

/// Second `second` of the day as `HH:MM:SS`.
pub open spec fn hh_mm_ss_text(second: int) -> Seq<char> {
    hh_mm_text(second / 60) + seq![':', digit_char(second % 60 / 10), digit_char(second % 60 % 10)]
}

/// The local time of day of the instant `ts`, as `HH:MM:SS`.
pub fn local_time_text(zone: LocalZone, ts: i64) -> (r: String)
    requires
        zone.wf(),
    ensures
        r@ == hh_mm_ss_text(second_of_day(ts as int, zone.offset_ms as int)),
{
    let sec = zone.second_of(ts);
    let mut s = format_minute(sec / 60);
    proof {
        reveal_strlit(":");
    }
    s.append(":");
    s.append(digit(sec % 60 / 10));
    s.append(digit(sec % 60 % 10));
    assert(s@ =~= hh_mm_ss_text(sec as int));
    s
}

/// The local calendar date of the instant `ts`, as `YYYY-MM-DD`; `None`
/// when the day lies outside the calendar's range.
pub fn local_date_text(zone: LocalZone, ts: i64) -> (r: Option<String>)
    requires
        zone.wf(),
    ensures
        r matches Some(s) ==> s@ == iso_date_text(local_day(ts as int, zone.offset_ms as int)),
        -90_000_000 <= local_day(ts as int, zone.offset_ms as int) <= 90_000_000 ==> r is Some,
{
    let day = zone.day_of(ts);
    if day < i32::MIN as i64 || day > i32::MAX as i64 {
        return None;
    }
    format_epoch_day(day as i32)
}

/// `t` shows the minute `m`: both absent, or the text of the same minute.
pub open spec fn shows_minute(t: Option<String>, m: Option<u32>) -> bool {
    match (t, m) {
        (None, None) => true,
        (Some(s), Some(x)) => s@ == hh_mm_text(x as int),
        _ => false,
    }
}

fn format_optional_minute(m: Option<u32>) -> (r: Option<String>)
    requires
        m matches Some(x) ==> x < MINUTES_PER_DAY,
    ensures
        shows_minute(r, m),
{
    match m {
        None => None,
        Some(x) => Some(format_minute(x)),
    }
}

/// One day of the dashboard's recent history.
#[derive(Debug, Clone)]
pub struct AttendanceLog {
    /// The local date, `YYYY-MM-DD`.
    pub date: String,
    /// The earliest arrival, `HH:MM`.
    pub check_in: Option<String>,
    /// The latest departure, `HH:MM`.
    pub check_out: Option<String>,
    pub status: String,
}

/// `log` shows the day summary `s`.
pub open spec fn shows_day(log: AttendanceLog, s: DaySummary) -> bool {
    &&& log.date@ == iso_date_text(s.day as int)
    &&& shows_minute(log.check_in, s.first_in)
    &&& shows_minute(log.check_out, s.last_out)
    &&& log.status@ == "Hadir"@
}

impl AttendanceLog {
    /// The log line of a day summary; `None` when the day lies outside the
    /// calendar's range.
    pub fn from_summary(s: &DaySummary) -> (r: Option<AttendanceLog>)
        requires
            minutes_in_day(*s),
        ensures
            r matches Some(log) ==> shows_day(log, *s),
            -90_000_000 <= s.day <= 90_000_000 ==> r is Some,
    {
        if s.day < i32::MIN as i64 || s.day > i32::MAX as i64 {
            return None;
        }
        match format_epoch_day(s.day as i32) {
            None => None,
            Some(date) => Some(
                AttendanceLog {
                    date,
                    check_in: format_optional_minute(s.first_in),
                    check_out: format_optional_minute(s.last_out),
                    status: String::from_str("Hadir"),
                },
            ),
        }
    }
}

/// What the dashboard shows: today's arrival and departure and the most
/// recent days.
#[derive(Debug, Clone)]
pub struct DashboardStatsResponse {
    pub check_in: Option<String>,
    pub check_out: Option<String>,
    pub recent_logs: Vec<AttendanceLog>,
}

/// The log lines of `summaries`, in the same order; `None` when a day lies
/// outside the calendar's range.
pub fn render_logs(summaries: &Vec<DaySummary>) -> (r: Option<Vec<AttendanceLog>>)
    requires
        forall|i: int| 0 <= i < summaries@.len() ==> minutes_in_day(#[trigger] summaries@[i]),
    ensures
        r matches Some(logs) ==> logs@.len() == summaries@.len() && forall|i: int|
            0 <= i < logs@.len() ==> shows_day(#[trigger] logs@[i], summaries@[i]),
        (forall|i: int| 0 <= i < summaries@.len() ==> -90_000_000 <= #[trigger] summaries@[i].day <= 90_000_000)
            ==> r is Some,
{
    let mut logs: Vec<AttendanceLog> = Vec::new();
    let mut k: usize = 0;
    while k < summaries.len()
        invariant
            0 <= k <= summaries@.len(),
            forall|i: int| 0 <= i < summaries@.len() ==> minutes_in_day(#[trigger] summaries@[i]),
            logs@.len() == k,
            forall|i: int| 0 <= i < k ==> shows_day(#[trigger] logs@[i], summaries@[i]),
        decreases summaries@.len() - k,
    {
        match AttendanceLog::from_summary(&summaries[k]) {
            None => {
                return None;
            },
            Some(log) => {
                logs.push(log);
            },
        }
        k = k + 1;
    }
    Some(logs)
}

/// `d` shows the day of instant `now` over `today` (its earliest arrival and
/// latest departure) and the `max_days` most recent days of `recent`.
pub open spec fn dashboard_shows(
    d: DashboardStatsResponse,
    today: Seq<AttendanceEvent>,
    recent: Seq<AttendanceEvent>,
    now: int,
    offset: int,
    max_days: int,
) -> bool {
    let t = summary_of(today, offset, local_day(now, offset));
    &&& shows_minute(d.check_in, t.first_in)
    &&& shows_minute(d.check_out, t.last_out)
    &&& exists|ss: Seq<DaySummary>|
        is_summary(recent, offset, max_days, ss) && d.recent_logs@.len() == ss.len() && forall|i: int|
            0 <= i < ss.len() ==> shows_day(#[trigger] d.recent_logs@[i], ss[i])
}

/// The text of an optional string.
pub open spec fn text_of(o: Option<String>) -> Option<Seq<char>> {
    match o {
        Some(s) => Some(s@),
        None => None,
    }
}

/// The text of a log line: date, arrival, departure, status.
pub open spec fn log_text(l: AttendanceLog) -> (Seq<char>, Option<Seq<char>>, Option<Seq<char>>, Seq<char>) {
    (l.date@, text_of(l.check_in), text_of(l.check_out), l.status@)
}

/// The text of a dashboard: today's arrival and departure, then the log lines.
pub open spec fn dashboard_text(d: DashboardStatsResponse) -> (
    Option<Seq<char>>,
    Option<Seq<char>>,
    Seq<(Seq<char>, Option<Seq<char>>, Option<Seq<char>>, Seq<char>)>,
) {
    (text_of(d.check_in), text_of(d.check_out), d.recent_logs@.map_values(|l: AttendanceLog| log_text(l)))
}

/// Order independence of the dashboard: two orderings of the same events
/// (the same multisets of today's and of recent events) at the same instant
/// and offset give dashboards with identical text.
pub proof fn lemma_dashboard_order_independent(
    today_a: Seq<AttendanceEvent>,
    today_b: Seq<AttendanceEvent>,
    recent_a: Seq<AttendanceEvent>,
    recent_b: Seq<AttendanceEvent>,
    now: int,
    offset: int,
    max_days: int,
    da: DashboardStatsResponse,
    db: DashboardStatsResponse,
)
    requires
        today_a.to_multiset() == today_b.to_multiset(),
        recent_a.to_multiset() == recent_b.to_multiset(),
        dashboard_shows(da, today_a, recent_a, now, offset, max_days),
        dashboard_shows(db, today_b, recent_b, now, offset, max_days),
    ensures
        dashboard_text(da) == dashboard_text(db),
{
    lemma_day_order_independent(today_a, today_b, offset, local_day(now, offset));
    let sa = choose|ss: Seq<DaySummary>|
        is_summary(recent_a, offset, max_days, ss) && da.recent_logs@.len() == ss.len() && forall|i: int|
            0 <= i < ss.len() ==> shows_day(#[trigger] da.recent_logs@[i], ss[i]);
    let sb = choose|ss: Seq<DaySummary>|
        is_summary(recent_b, offset, max_days, ss) && db.recent_logs@.len() == ss.len() && forall|i: int|
            0 <= i < ss.len() ==> shows_day(#[trigger] db.recent_logs@[i], ss[i]);
    lemma_order_independent(recent_a, recent_b, offset, max_days, sa, sb);
    let la = da.recent_logs@.map_values(|l: AttendanceLog| log_text(l));
    let lb = db.recent_logs@.map_values(|l: AttendanceLog| log_text(l));
    assert forall|i: int| 0 <= i < la.len() implies la[i] == lb[i] by {
        assert(shows_day(da.recent_logs@[i], sa[i]));
        assert(shows_day(db.recent_logs@[i], sb[i]));
    }
    assert(la =~= lb);
}

impl DashboardStatsResponse {
    /// The dashboard at instant `now_ms`: today's earliest arrival and latest
    /// departure over `today_events`, and the `max_days` most recent days of
    /// `recent_events`. `None` when a day lies outside the calendar's range.
    pub fn build(
        today_events: &Vec<AttendanceEvent>,
        recent_events: &Vec<AttendanceEvent>,
        now_ms: i64,
        zone: LocalZone,
        max_days: usize,
    ) -> (r: Option<DashboardStatsResponse>)
        requires
            zone.wf(),
        ensures
            r matches Some(d) ==> dashboard_shows(
                d,
                today_events@,
                recent_events@,
                now_ms as int,
                zone.offset_ms as int,
                max_days as int,
            ),
            (forall|j: int|
                0 <= j < recent_events@.len() ==> -90_000_000 <= local_day(
                    #[trigger] recent_events@[j].timestamp_ms as int,
                    zone.offset_ms as int,
                ) <= 90_000_000) ==> r is Some,
    {
        let ghost off = zone.offset_ms as int;
        let today = summarize_day(today_events, zone, zone.day_of(now_ms));
        proof {
            lemma_summary_in_day(today_events@, off, today.day as int);
        }
        let days = summarize_days(recent_events, zone, max_days);
        proof {
            assert forall|i: int| 0 <= i < days@.len() implies minutes_in_day(#[trigger] days@[i]) by {
                lemma_summary_in_day(recent_events@, off, days@[i].day as int);
            }
            if forall|j: int|
                0 <= j < recent_events@.len() ==> -90_000_000 <= local_day(
                    #[trigger] recent_events@[j].timestamp_ms as int,
                    off,
                ) <= 90_000_000 {
                assert forall|i: int| 0 <= i < days@.len() implies -90_000_000 <= #[trigger] days@[i].day
                    <= 90_000_000 by {
                    assert(has_event_on_day(recent_events@, off, days@[i].day as int));
                }
            }
        }
        match render_logs(&days) {
            None => None,
            Some(logs) => Some(
                DashboardStatsResponse {
                    check_in: format_optional_minute(today.first_in),
                    check_out: format_optional_minute(today.last_out),
                    recent_logs: logs,
                },
            ),
        }
    }
}

/// The reply to an accepted check-in or check-out.
#[derive(Debug, Clone)]
pub struct AttendanceResponse {
    pub message: String,
    /// `In` or `Out`.
    pub kind: String,
    /// The event's instant, RFC 3339.
    pub timestamp: String,
}

impl AttendanceResponse {
    /// The reply for the recorded event `e`; `None` when its instant lies
    /// outside the calendar's range.
    pub fn accepted(e: &AttendanceEvent) -> (r: Option<AttendanceResponse>)
        ensures
            r matches Some(x) ==> x.message@ == "Successfully checked "@ + label_of(e.polarity) && x.kind@
                == label_of(e.polarity) && x.timestamp@ == rfc3339_text(e.timestamp_ms as int),
            -8_000_000_000_000_000 <= e.timestamp_ms <= 8_000_000_000_000_000 ==> r is Some,
    {
        match format_rfc3339(e.timestamp_ms) {
            None => None,
            Some(timestamp) => {
                let label = e.polarity.label();
                let message = String::from_str("Successfully checked ").concat(label);
                Some(AttendanceResponse { message, kind: String::from_str(label), timestamp })
            },
        }
    }
}

} // verus!
