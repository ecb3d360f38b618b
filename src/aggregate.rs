use vstd::prelude::*;
use crate::clock::{local_day, minute_of_day, LocalZone, MINUTES_PER_DAY};
use crate::event::{has_event_on_day, on_day, AttendanceEvent};
use crate::polarity::Polarity;

verus! {

/// One local calendar day of a user's history: the earliest arrival and the
/// latest departure, as minutes of the local day.
#[derive(Debug, Clone, Copy, PartialEq, Eq, Structural)]
pub struct DaySummary {
    /// Days since 1970-01-01 in the local zone.
    pub day: i64,
    pub first_in: Option<u32>,
    pub last_out: Option<u32>,
}

/// The local minute of the day of `e`.
pub open spec fn minute_of(e: AttendanceEvent, offset: int) -> u32 {
    minute_of_day(e.timestamp_ms as int, offset) as u32
}

/// The earliest local minute among the `In` events of day `day`.
pub open spec fn first_in_of(events: Seq<AttendanceEvent>, offset: int, day: int) -> Option<u32>
    decreases events.len(),
{
    if events.len() == 0 {
        None
    } else {
        let prev = first_in_of(events.drop_last(), offset, day);
        let e = events.last();
        if on_day(e, offset, day) && e.polarity == Polarity::In {
            match prev {
                None => Some(minute_of(e, offset)),
                Some(p) => Some(if minute_of(e, offset) < p { minute_of(e, offset) } else { p }),
            }
        } else {
            prev
        }
    }
}

/// The latest local minute among the `Out` events of day `day`.
pub open spec fn last_out_of(events: Seq<AttendanceEvent>, offset: int, day: int) -> Option<u32>
    decreases events.len(),
{
    if events.len() == 0 {
        None
    } else {
        let prev = last_out_of(events.drop_last(), offset, day);
        let e = events.last();
        if on_day(e, offset, day) && e.polarity == Polarity::Out {
            match prev {
                None => Some(minute_of(e, offset)),
                Some(p) => Some(if minute_of(e, offset) > p { minute_of(e, offset) } else { p }),
            }
        } else {
            prev
        }
    }
}

/// The summary of day `day` over `events`.
pub open spec fn summary_of(events: Seq<AttendanceEvent>, offset: int, day: int) -> DaySummary {
    DaySummary {
        day: day as i64,
        first_in: first_in_of(events, offset, day),
        last_out: last_out_of(events, offset, day),
    }
}

/// Days strictly decreasing, most recent first.
pub open spec fn newest_first(r: Seq<DaySummary>) -> bool {
    forall|i: int, j: int| 0 <= i < j < r.len() ==> #[trigger] r[i].day > #[trigger] r[j].day
}

/// `r` summarises the `max_days` most recent local days that hold an event:
/// newest first, one entry per day, each entry computed over all of `events`.
pub open spec fn is_summary(events: Seq<AttendanceEvent>, offset: int, max_days: int, r: Seq<DaySummary>) -> bool {
    &&& r.len() <= max_days
    &&& newest_first(r)
    &&& forall|i: int|
        0 <= i < r.len() ==> has_event_on_day(events, offset, #[trigger] r[i].day as int) && r[i] == summary_of(
            events,
            offset,
            r[i].day as int,
        )
    &&& forall|j: int|
        0 <= j < events.len() ==> (exists|i: int|
            0 <= i < r.len() && #[trigger] r[i].day == local_day(#[trigger] events[j].timestamp_ms as int, offset))
            || (r.len() == max_days && (max_days == 0 || local_day(events[j].timestamp_ms as int, offset)
            < r[r.len() - 1].day))
}

/// Folds one event into a day's earliest arrival and latest departure.
fn fold_event(s: DaySummary, e: AttendanceEvent, zone: LocalZone) -> (r: DaySummary)
    requires
        zone.wf(),
    ensures
        r.day == s.day,
        e.polarity == Polarity::In ==> r.last_out == s.last_out && r.first_in == (match s.first_in {
            None => Some(minute_of(e, zone.offset_ms as int)),
            Some(p) => Some(
                if minute_of(e, zone.offset_ms as int) < p {
                    minute_of(e, zone.offset_ms as int)
                } else {
                    p
                },
            ),
        }),
        e.polarity == Polarity::Out ==> r.first_in == s.first_in && r.last_out == (match s.last_out {
            None => Some(minute_of(e, zone.offset_ms as int)),
            Some(p) => Some(
                if minute_of(e, zone.offset_ms as int) > p {
                    minute_of(e, zone.offset_ms as int)
                } else {
                    p
                },
            ),
        }),
{
    let m = zone.minute_of(e.timestamp_ms);
    match e.polarity {
        Polarity::In => {
            let f = match s.first_in {
                None => m,
                Some(p) => if m < p { m } else { p },
            };
            DaySummary { day: s.day, first_in: Some(f), last_out: s.last_out }
        },
        Polarity::Out => {
            let l = match s.last_out {
                None => m,
                Some(p) => if m > p { m } else { p },
            };
            DaySummary { day: s.day, first_in: s.first_in, last_out: Some(l) }
        },
    }
}

/// A day without events has neither an arrival nor a departure.
proof fn lemma_empty_day(events: Seq<AttendanceEvent>, offset: int, day: int)
    requires
        !has_event_on_day(events, offset, day),
    ensures
        first_in_of(events, offset, day) is None,
        last_out_of(events, offset, day) is None,
    decreases events.len(),
{
    if events.len() > 0 {
        let pre = events.drop_last();
        assert forall|j: int| 0 <= j < pre.len() implies !on_day(pre[j], offset, day) by {
            assert(pre[j] == events[j]);
        }
        assert(!on_day(events[events.len() - 1], offset, day));
        lemma_empty_day(pre, offset, day);
    }
}

/// The summary of local day `day` over all of `events`: the live
/// arrival/departure pair of a day.
pub fn summarize_day(events: &Vec<AttendanceEvent>, zone: LocalZone, day: i64) -> (r: DaySummary)
    requires
        zone.wf(),
    ensures
        r == summary_of(events@, zone.offset_ms as int, day as int),
{
    let ghost off = zone.offset_ms as int;
    let mut s = DaySummary { day, first_in: None, last_out: None };
    let mut k: usize = 0;
    while k < events.len()
        invariant
            zone.wf(),
            off == zone.offset_ms as int,
            0 <= k <= events.len(),
            s == summary_of(events@.subrange(0, k as int), off, day as int),
        decreases events.len() - k,
    {
        let ghost post = events@.subrange(0, k + 1);
        assert(post.drop_last() =~= events@.subrange(0, k as int));
        assert(post.last() == events@[k as int]);
        let e = events[k];
        if zone.day_of(e.timestamp_ms) == day {
            s = fold_event(s, e, zone);
        }
        k = k + 1;
    }
    assert(events@.subrange(0, events.len() as int) =~= events@);
    s
}

/// Appending an event changes nothing for the other days, and keeps every
/// day that had an event.
proof fn lemma_push_other_day(pre: Seq<AttendanceEvent>, e: AttendanceEvent, offset: int, day: int)
    ensures
        !on_day(e, offset, day) ==> summary_of(pre.push(e), offset, day) == summary_of(pre, offset, day),
        has_event_on_day(pre, offset, day) ==> has_event_on_day(pre.push(e), offset, day),
        on_day(e, offset, day) ==> has_event_on_day(pre.push(e), offset, day),
{
    let post = pre.push(e);
    assert(post.drop_last() =~= pre);
    if has_event_on_day(pre, offset, day) {
        let w = choose|j: int| 0 <= j < pre.len() && #[trigger] on_day(pre[j], offset, day);
        assert(post[w] == pre[w]);
        assert(on_day(post[w], offset, day));
    }
    if on_day(e, offset, day) {
        assert(on_day(post[pre.len() as int], offset, day));
    }
}

/// Position of the first entry whose day is not after `day`, in a list that is
/// newest first.
fn find_slot(buckets: &Vec<DaySummary>, day: i64) -> (p: usize)
    ensures
        p <= buckets.len(),
        forall|q: int| 0 <= q < p ==> buckets@[q].day > day,
        p < buckets.len() ==> buckets@[p as int].day <= day,
{
    let mut p: usize = 0;
    while p < buckets.len() && buckets[p].day > day
        invariant
            p <= buckets.len(),
            forall|q: int| 0 <= q < p ==> buckets@[q].day > day,
        decreases buckets.len() - p,
    {
        p = p + 1;
    }
    p
}

/// `b` holds, newest first, one correct summary for every day of `pre` that
/// has an event, and no other day.
pub open spec fn buckets_cover(b: Seq<DaySummary>, pre: Seq<AttendanceEvent>, offset: int) -> bool {
    &&& newest_first(b)
    &&& forall|i: int|
        0 <= i < b.len() ==> has_event_on_day(pre, offset, #[trigger] b[i].day as int) && b[i] == summary_of(
            pre,
            offset,
            b[i].day as int,
        )
    &&& forall|j: int|
        0 <= j < pre.len() ==> exists|i: int|
            0 <= i < b.len() && #[trigger] b[i].day == local_day(#[trigger] pre[j].timestamp_ms as int, offset)
}

/// Replacing the entry of the new event's day with its updated summary keeps
/// the cover.
proof fn lemma_cover_update(old_b: Seq<DaySummary>, pre: Seq<AttendanceEvent>, e: AttendanceEvent, offset: int, p: int)
    requires
        buckets_cover(old_b, pre, offset),
        0 <= p < old_b.len(),
        on_day(e, offset, old_b[p].day as int),
    ensures
        buckets_cover(
            old_b.update(p, summary_of(pre.push(e), offset, old_b[p].day as int)),
            pre.push(e),
            offset,
        ),
{
    let post = pre.push(e);
    let b = old_b.update(p, summary_of(post, offset, old_b[p].day as int));
    assert forall|i: int| 0 <= i < b.len() implies has_event_on_day(post, offset, #[trigger] b[i].day as int)
        && b[i] == summary_of(post, offset, b[i].day as int) by {
        lemma_push_other_day(pre, e, offset, b[i].day as int);
    }
    assert forall|j: int| 0 <= j < post.len() implies exists|i: int|
        0 <= i < b.len() && #[trigger] b[i].day == local_day(#[trigger] post[j].timestamp_ms as int, offset) by {
        if j == pre.len() {
            assert(b[p].day == local_day(post[j].timestamp_ms as int, offset));
        } else {
            assert(post[j] == pre[j]);
            let i = choose|i: int|
                0 <= i < old_b.len() && #[trigger] old_b[i].day == local_day(pre[j].timestamp_ms as int, offset);
            assert(b[i].day == old_b[i].day);
        }
    }
}

/// Inserting the summary of a day that had no event, at its place in the
/// newest-first order, keeps the cover.
proof fn lemma_cover_insert(old_b: Seq<DaySummary>, pre: Seq<AttendanceEvent>, e: AttendanceEvent, offset: int, p: int)
    requires
        buckets_cover(old_b, pre, offset),
        0 <= p <= old_b.len(),
        forall|q: int| 0 <= q < p ==> old_b[q].day > local_day(e.timestamp_ms as int, offset),
        p < old_b.len() ==> old_b[p].day < local_day(e.timestamp_ms as int, offset),
        i64::MIN <= local_day(e.timestamp_ms as int, offset) <= i64::MAX,
    ensures
        buckets_cover(
            old_b.insert(p, summary_of(pre.push(e), offset, local_day(e.timestamp_ms as int, offset))),
            pre.push(e),
            offset,
        ),
{
    let post = pre.push(e);
    let d = local_day(e.timestamp_ms as int, offset);
    let b = old_b.insert(p, summary_of(post, offset, d));
    assert(b[p].day == d);
    assert forall|i: int| 0 <= i < b.len() implies has_event_on_day(post, offset, #[trigger] b[i].day as int)
        && b[i] == summary_of(post, offset, b[i].day as int) by {
        if i < p {
            assert(b[i] == old_b[i]);
        } else if i > p {
            assert(b[i] == old_b[i - 1]);
        }
        lemma_push_other_day(pre, e, offset, b[i].day as int);
    }
    assert forall|x: int, y: int| 0 <= x < y < b.len() implies #[trigger] b[x].day > #[trigger] b[y].day by {
        if y < p {
        } else if y == p {
        } else if x < p {
            assert(b[y] == old_b[y - 1]);
        } else if x == p {
            assert(b[y] == old_b[y - 1]);
            if y - 1 > p {
                assert(old_b[p].day > old_b[y - 1].day);
            }
        } else {
            assert(b[x] == old_b[x - 1]);
            assert(b[y] == old_b[y - 1]);
        }
    }
    assert forall|j: int| 0 <= j < post.len() implies exists|i: int|
        0 <= i < b.len() && #[trigger] b[i].day == local_day(#[trigger] post[j].timestamp_ms as int, offset) by {
        if j == pre.len() {
            assert(b[p].day == local_day(post[j].timestamp_ms as int, offset));
        } else {
            assert(post[j] == pre[j]);
            let i = choose|i: int|
                0 <= i < old_b.len() && #[trigger] old_b[i].day == local_day(pre[j].timestamp_ms as int, offset);
            if i < p {
                assert(b[i] == old_b[i]);
            } else {
                assert(b[i + 1] == old_b[i]);
            }
        }
    }
}

/// Adds event `e` to the day summaries built so far from `pre`.
fn place_event(buckets: &mut Vec<DaySummary>, Ghost(pre): Ghost<Seq<AttendanceEvent>>, e: AttendanceEvent, zone: LocalZone)
    requires
        zone.wf(),
        buckets_cover(old(buckets)@, pre, zone.offset_ms as int),
    ensures
        buckets_cover(final(buckets)@, pre.push(e), zone.offset_ms as int),
{
    let ghost off = zone.offset_ms as int;
    let ghost post = pre.push(e);
    let ghost old_b = buckets@;
    assert(post.drop_last() =~= pre);
    let d = zone.day_of(e.timestamp_ms);
    let p = find_slot(buckets, d);
    if p < buckets.len() && buckets[p].day == d {
        let cur = buckets[p];
        let next = fold_event(cur, e, zone);
        assert(next == summary_of(post, off, d as int));
        buckets.set(p, next);
        proof {
            lemma_cover_update(old_b, pre, e, off, p as int);
            assert(buckets@ =~= old_b.update(p as int, next));
        }
    } else {
        proof {
            assert forall|j: int| 0 <= j < pre.len() implies !on_day(pre[j], off, d as int) by {
                if on_day(pre[j], off, d as int) {
                    let i = choose|i: int|
                        0 <= i < old_b.len() && #[trigger] old_b[i].day == local_day(pre[j].timestamp_ms as int, off);
                    if i > p {
                        assert(old_b[p as int].day > old_b[i].day);
                    }
                }
            }
            lemma_empty_day(pre, off, d as int);
        }
        let fresh = fold_event(DaySummary { day: d, first_in: None, last_out: None }, e, zone);
        assert(fresh == summary_of(post, off, d as int));
        buckets.insert(p, fresh);
        proof {
            lemma_cover_insert(old_b, pre, e, off, p as int);
        }
    }
}

/// Folds a user's events into one summary per local day, newest day first,
/// keeping the `max_days` most recent days. The result does not depend on
/// the order of `events`.
pub fn summarize_days(events: &Vec<AttendanceEvent>, zone: LocalZone, max_days: usize) -> (r: Vec<DaySummary>)
    requires
        zone.wf(),
    ensures
        is_summary(events@, zone.offset_ms as int, max_days as int, r@),
{
    let ghost off = zone.offset_ms as int;
    let mut buckets: Vec<DaySummary> = Vec::new();
    let mut k: usize = 0;
    while k < events.len()
        invariant
            zone.wf(),
            off == zone.offset_ms as int,
            0 <= k <= events.len(),
            buckets_cover(buckets@, events@.subrange(0, k as int), off),
        decreases events.len() - k,
    {
        assert(events@.subrange(0, k + 1) =~= events@.subrange(0, k as int).push(events@[k as int]));
        place_event(&mut buckets, Ghost(events@.subrange(0, k as int)), events[k], zone);
        k = k + 1;
    }
    assert(events@.subrange(0, events.len() as int) =~= events@);
    let ghost all = buckets@;
    buckets.truncate(max_days);
    proof {
        assert forall|j: int| 0 <= j < events@.len() implies (exists|i: int|
            0 <= i < buckets@.len() && #[trigger] buckets@[i].day == local_day(
                #[trigger] events@[j].timestamp_ms as int,
                off,
            )) || (buckets@.len() == max_days && (max_days == 0 || local_day(
            events@[j].timestamp_ms as int,
            off,
        ) < buckets@[buckets@.len() - 1].day)) by {
            let i = choose|i: int|
                0 <= i < all.len() && #[trigger] all[i].day == local_day(events@[j].timestamp_ms as int, off);
            if i < buckets@.len() {
                assert(buckets@[i] == all[i]);
            } else if max_days > 0 {
                assert(all[max_days - 1].day > all[i].day);
            }
        }
    }
    buckets
}

/// Whether `e` is an arrival on local day `day`.
pub open spec fn arrival_on(e: AttendanceEvent, offset: int, day: int) -> bool {
    on_day(e, offset, day) && e.polarity == Polarity::In
}

/// Whether `e` is a departure on local day `day`.
pub open spec fn departure_on(e: AttendanceEvent, offset: int, day: int) -> bool {
    on_day(e, offset, day) && e.polarity == Polarity::Out
}

/// The earliest arrival is the least minute among the day's arrivals.
proof fn lemma_first_in_is_min(s: Seq<AttendanceEvent>, offset: int, day: int)
    ensures
        first_in_of(s, offset, day) is None <==> forall|j: int| 0 <= j < s.len() ==> !arrival_on(#[trigger] s[j], offset, day),
        first_in_of(s, offset, day) matches Some(m) ==> (exists|j: int|
            0 <= j < s.len() && arrival_on(#[trigger] s[j], offset, day) && minute_of(s[j], offset) == m) && (
        forall|j: int| 0 <= j < s.len() && arrival_on(#[trigger] s[j], offset, day) ==> m <= minute_of(s[j], offset)),
    decreases s.len(),
{
    if s.len() > 0 {
        let pre = s.drop_last();
        lemma_first_in_is_min(pre, offset, day);
        assert(forall|j: int| 0 <= j < pre.len() ==> pre[j] == s[j]);
        if let Some(m) = first_in_of(s, offset, day) {
            if let Some(p) = first_in_of(pre, offset, day) {
                let w = choose|j: int| 0 <= j < pre.len() && arrival_on(#[trigger] pre[j], offset, day) && minute_of(pre[j], offset) == p;
                assert(arrival_on(s[w], offset, day));
            }
            assert(arrival_on(s[s.len() - 1], offset, day) ==> minute_of(s[s.len() - 1], offset) >= m);
        }
        if first_in_of(pre, offset, day) is Some && first_in_of(s, offset, day) is None {
            assert(false);
        }
    }
}

/// The latest departure is the greatest minute among the day's departures.
proof fn lemma_last_out_is_max(s: Seq<AttendanceEvent>, offset: int, day: int)
    ensures
        last_out_of(s, offset, day) is None <==> forall|j: int| 0 <= j < s.len() ==> !departure_on(#[trigger] s[j], offset, day),
        last_out_of(s, offset, day) matches Some(m) ==> (exists|j: int|
            0 <= j < s.len() && departure_on(#[trigger] s[j], offset, day) && minute_of(s[j], offset) == m) && (
        forall|j: int| 0 <= j < s.len() && departure_on(#[trigger] s[j], offset, day) ==> m >= minute_of(s[j], offset)),
    decreases s.len(),
{
    if s.len() > 0 {
        let pre = s.drop_last();
        lemma_last_out_is_max(pre, offset, day);
        assert(forall|j: int| 0 <= j < pre.len() ==> pre[j] == s[j]);
        if let Some(m) = last_out_of(s, offset, day) {
            if let Some(p) = last_out_of(pre, offset, day) {
                let w = choose|j: int| 0 <= j < pre.len() && departure_on(#[trigger] pre[j], offset, day) && minute_of(pre[j], offset) == p;
                assert(departure_on(s[w], offset, day));
            }
            assert(departure_on(s[s.len() - 1], offset, day) ==> minute_of(s[s.len() - 1], offset) <= m);
        }
        if last_out_of(pre, offset, day) is Some && last_out_of(s, offset, day) is None {
            assert(false);
        }
    }
}

/// Each event of `a` occurs in `b`.
pub open spec fn occurs_in(a: Seq<AttendanceEvent>, b: Seq<AttendanceEvent>) -> bool {
    forall|j: int| 0 <= j < a.len() ==> b.contains(#[trigger] a[j])
}

/// Where each event of `a` occurs in `b`, a day with an arrival, departure
/// or event in `a` has one in `b`, and its earliest arrival and latest
/// departure are no better than in `b`.
proof fn lemma_included_events(a: Seq<AttendanceEvent>, b: Seq<AttendanceEvent>, offset: int, day: int)
    requires
        occurs_in(a, b),
    ensures
        has_event_on_day(a, offset, day) ==> has_event_on_day(b, offset, day),
        first_in_of(a, offset, day) is Some ==> first_in_of(b, offset, day) is Some
            && first_in_of(b, offset, day)->Some_0 <= first_in_of(a, offset, day)->Some_0,
        last_out_of(a, offset, day) is Some ==> last_out_of(b, offset, day) is Some
            && last_out_of(b, offset, day)->Some_0 >= last_out_of(a, offset, day)->Some_0,
{
    lemma_first_in_is_min(a, offset, day);
    lemma_first_in_is_min(b, offset, day);
    lemma_last_out_is_max(a, offset, day);
    lemma_last_out_is_max(b, offset, day);
    if has_event_on_day(a, offset, day) {
        let j = choose|j: int| 0 <= j < a.len() && #[trigger] on_day(a[j], offset, day);
        assert(b.contains(a[j]));
        let k = choose|k: int| 0 <= k < b.len() && b[k] == a[j];
        assert(on_day(b[k], offset, day));
    }
    if let Some(m) = first_in_of(a, offset, day) {
        let j = choose|j: int| 0 <= j < a.len() && arrival_on(#[trigger] a[j], offset, day) && minute_of(a[j], offset) == m;
        assert(b.contains(a[j]));
        let k = choose|k: int| 0 <= k < b.len() && b[k] == a[j];
        assert(arrival_on(b[k], offset, day));
    }
    if let Some(m) = last_out_of(a, offset, day) {
        let j = choose|j: int| 0 <= j < a.len() && departure_on(#[trigger] a[j], offset, day) && minute_of(a[j], offset) == m;
        assert(b.contains(a[j]));
        let k = choose|k: int| 0 <= k < b.len() && b[k] == a[j];
        assert(departure_on(b[k], offset, day));
    }
}

/// Two histories with the same events give every day the same summary.
proof fn lemma_same_events_same_day(a: Seq<AttendanceEvent>, b: Seq<AttendanceEvent>, offset: int, day: int)
    requires
        occurs_in(a, b),
        occurs_in(b, a),
    ensures
        summary_of(a, offset, day) == summary_of(b, offset, day),
{
    lemma_included_events(a, b, offset, day);
    lemma_included_events(b, a, offset, day);
}

/// A day listed in one summary is listed in the other, unless the other is
/// full and the day is older than all it lists.
proof fn lemma_day_listed(
    a: Seq<AttendanceEvent>,
    b: Seq<AttendanceEvent>,
    offset: int,
    max_days: int,
    ra: Seq<DaySummary>,
    rb: Seq<DaySummary>,
    k: int,
)
    requires
        occurs_in(a, b),
        is_summary(a, offset, max_days, ra),
        is_summary(b, offset, max_days, rb),
        0 <= k < ra.len(),
    ensures
        (exists|i: int| 0 <= i < rb.len() && #[trigger] rb[i].day == ra[k].day) || (rb.len() == max_days && (
        max_days == 0 || ra[k].day < rb[rb.len() - 1].day)),
{
    assert(has_event_on_day(a, offset, ra[k].day as int));
    let j = choose|j: int| 0 <= j < a.len() && #[trigger] on_day(a[j], offset, ra[k].day as int);
    assert(b.contains(a[j]));
    let q = choose|q: int| 0 <= q < b.len() && b[q] == a[j];
    assert(0 <= q < b.len());
    if exists|i: int| 0 <= i < rb.len() && #[trigger] rb[i].day == local_day(b[q].timestamp_ms as int, offset) {
        let i = choose|i: int| 0 <= i < rb.len() && #[trigger] rb[i].day == local_day(b[q].timestamp_ms as int, offset);
        assert(rb[i].day == ra[k].day);
    }
}

/// Two summaries of the same events agree on their first `k` days.
proof fn lemma_days_agree(
    a: Seq<AttendanceEvent>,
    b: Seq<AttendanceEvent>,
    offset: int,
    max_days: int,
    ra: Seq<DaySummary>,
    rb: Seq<DaySummary>,
    k: int,
)
    requires
        occurs_in(a, b),
        occurs_in(b, a),
        is_summary(a, offset, max_days, ra),
        is_summary(b, offset, max_days, rb),
        0 <= k <= ra.len(),
        k <= rb.len(),
    ensures
        forall|i: int| 0 <= i < k ==> #[trigger] ra[i].day == rb[i].day,
    decreases k,
{
    if k > 0 {
        let n = k - 1;
        lemma_days_agree(a, b, offset, max_days, ra, rb, n);
        lemma_day_listed(a, b, offset, max_days, ra, rb, n);
        lemma_day_listed(b, a, offset, max_days, rb, ra, n);
        if ra[n].day > rb[n].day {
            if exists|i: int| 0 <= i < rb.len() && #[trigger] rb[i].day == ra[n].day {
                let i = choose|i: int| 0 <= i < rb.len() && #[trigger] rb[i].day == ra[n].day;
                if i < n {
                    assert(ra[i].day == rb[i].day);
                    assert(ra[i].day > ra[n].day);
                } else if i > n {
                    assert(rb[n].day > rb[i].day);
                }
            } else {
                if n < rb.len() - 1 {
                    assert(rb[n].day > rb[rb.len() - 1].day);
                }
            }
        } else if ra[n].day < rb[n].day {
            if exists|i: int| 0 <= i < ra.len() && #[trigger] ra[i].day == rb[n].day {
                let i = choose|i: int| 0 <= i < ra.len() && #[trigger] ra[i].day == rb[n].day;
                if i < n {
                    assert(ra[i].day == rb[i].day);
                    assert(rb[i].day > rb[n].day);
                } else if i > n {
                    assert(ra[n].day > ra[i].day);
                }
            } else {
                if n < ra.len() - 1 {
                    assert(ra[n].day > ra[ra.len() - 1].day);
                }
            }
        }
    }
}

/// Two orderings of the same events hold the same events.
proof fn lemma_permutation_occurs(a: Seq<AttendanceEvent>, b: Seq<AttendanceEvent>)
    requires
        a.to_multiset() == b.to_multiset(),
    ensures
        occurs_in(a, b),
        occurs_in(b, a),
{
    broadcast use vstd::seq_lib::group_to_multiset_ensures;
    assert forall|j: int| 0 <= j < a.len() implies b.contains(#[trigger] a[j]) by {
        assert(a.contains(a[j]));
        assert(a.to_multiset().count(a[j]) > 0);
        assert(b.to_multiset().count(a[j]) > 0);
    }
    assert forall|j: int| 0 <= j < b.len() implies a.contains(#[trigger] b[j]) by {
        assert(b.contains(b[j]));
        assert(b.to_multiset().count(b[j]) > 0);
        assert(a.to_multiset().count(b[j]) > 0);
    }
}

/// Order independence of one day: two orderings of the same events give the
/// day the same summary.
pub proof fn lemma_day_order_independent(a: Seq<AttendanceEvent>, b: Seq<AttendanceEvent>, offset: int, day: int)
    requires
        a.to_multiset() == b.to_multiset(),
    ensures
        summary_of(a, offset, day) == summary_of(b, offset, day),
{
    lemma_permutation_occurs(a, b);
    lemma_same_events_same_day(a, b, offset, day);
}

/// Order independence: summaries of two orderings of the same events (the
/// same multiset) are identical, whatever order the events came in.
pub proof fn lemma_order_independent(
    a: Seq<AttendanceEvent>,
    b: Seq<AttendanceEvent>,
    offset: int,
    max_days: int,
    ra: Seq<DaySummary>,
    rb: Seq<DaySummary>,
)
    requires
        a.to_multiset() == b.to_multiset(),
        is_summary(a, offset, max_days, ra),
        is_summary(b, offset, max_days, rb),
    ensures
        ra == rb,
{
    lemma_permutation_occurs(a, b);
    let n = if ra.len() < rb.len() { ra.len() as int } else { rb.len() as int };
    lemma_days_agree(a, b, offset, max_days, ra, rb, n);
    if ra.len() > rb.len() {
        lemma_day_listed(a, b, offset, max_days, ra, rb, n);
        if exists|i: int| 0 <= i < rb.len() && #[trigger] rb[i].day == ra[n].day {
            let i = choose|i: int| 0 <= i < rb.len() && #[trigger] rb[i].day == ra[n].day;
            assert(ra[i].day == rb[i].day);
            assert(ra[i].day > ra[n].day);
        }
    }
    if rb.len() > ra.len() {
        lemma_day_listed(b, a, offset, max_days, rb, ra, n);
        if exists|i: int| 0 <= i < ra.len() && #[trigger] ra[i].day == rb[n].day {
            let i = choose|i: int| 0 <= i < ra.len() && #[trigger] ra[i].day == rb[n].day;
            assert(ra[i].day == rb[i].day);
            assert(rb[i].day > rb[n].day);
        }
    }
    assert forall|i: int| 0 <= i < ra.len() implies ra[i] == rb[i] by {
        lemma_same_events_same_day(a, b, offset, ra[i].day as int);
    }
    assert(ra =~= rb);
}

/// A summary's minutes lie within the day.
pub open spec fn minutes_in_day(s: DaySummary) -> bool {
    &&& (s.first_in matches Some(x) ==> x < MINUTES_PER_DAY)
    &&& (s.last_out matches Some(x) ==> x < MINUTES_PER_DAY)
}

/// Every summary names minutes within the day.
pub proof fn lemma_summary_in_day(events: Seq<AttendanceEvent>, offset: int, day: int)
    ensures
        minutes_in_day(summary_of(events, offset, day)),
{
    lemma_first_in_is_min(events, offset, day);
    lemma_last_out_is_max(events, offset, day);
    assert forall|e: AttendanceEvent| #[trigger] minute_of(e, offset) < MINUTES_PER_DAY by {
        let x = e.timestamp_ms as int + offset;
        let r = x % 86_400_000;
        assert(0 <= r < 86_400_000);
        assert(r / 60_000 < 1440) by (nonlinear_arith)
            requires
                0 <= r < 86_400_000,
        ;
        assert(0 <= r / 60_000) by (nonlinear_arith)
            requires
                0 <= r,
        ;
    }
    if let Some(m) = first_in_of(events, offset, day) {
        let j = choose|j: int| 0 <= j < events.len() && arrival_on(#[trigger] events[j], offset, day) && minute_of(events[j], offset) == m;
        assert(minute_of(events[j], offset) < MINUTES_PER_DAY);
    }
    if let Some(m) = last_out_of(events, offset, day) {
        let j = choose|j: int| 0 <= j < events.len() && departure_on(#[trigger] events[j], offset, day) && minute_of(events[j], offset) == m;
        assert(minute_of(events[j], offset) < MINUTES_PER_DAY);
    }
}

} // verus!
