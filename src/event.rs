use vstd::prelude::*;
use crate::clock::{local_day, LocalZone};
use crate::polarity::Polarity;

verus! {

/// One accepted attendance event of a user: when it happened (UTC,
/// milliseconds since the epoch) and whether it was an arrival or a departure.
#[derive(Debug, Clone, Copy, PartialEq, Eq, Structural)]
pub struct AttendanceEvent {
    pub timestamp_ms: i64,
    pub polarity: Polarity,
}

/// Whether `e` falls on local day `day` in the zone `offset` ms east of UTC.
pub open spec fn on_day(e: AttendanceEvent, offset: int, day: int) -> bool {
    local_day(e.timestamp_ms as int, offset) == day
}

/// Whether `events[i]` is the most recent event of local day `day`: no event
/// of that day is later, and among events at the same instant it stands last.
pub open spec fn is_latest_on_day(events: Seq<AttendanceEvent>, i: int, offset: int, day: int) -> bool {
    &&& 0 <= i < events.len()
    &&& on_day(events[i], offset, day)
    &&& forall|j: int|
        0 <= j < events.len() && #[trigger] on_day(events[j], offset, day) ==> events[j].timestamp_ms
            < events[i].timestamp_ms || (events[j].timestamp_ms == events[i].timestamp_ms && j <= i)
}

/// Whether some event falls on local day `day`.
pub open spec fn has_event_on_day(events: Seq<AttendanceEvent>, offset: int, day: int) -> bool {
    exists|j: int| 0 <= j < events.len() && #[trigger] on_day(events[j], offset, day)
}

/// The position of the most recent event of local day `day` (the day of the
/// zone `zone`), or `None` when no event falls on that day.
pub fn latest_on_day(events: &Vec<AttendanceEvent>, zone: LocalZone, day: i64) -> (r: Option<usize>)
    requires
        zone.wf(),
    ensures
        r is None <==> !has_event_on_day(events@, zone.offset_ms as int, day as int),
        r matches Some(i) ==> is_latest_on_day(events@, i as int, zone.offset_ms as int, day as int),
{
    let ghost off = zone.offset_ms as int;
    let mut best: Option<usize> = None;
    let mut k: usize = 0;
    while k < events.len()
        invariant
            zone.wf(),
            off == zone.offset_ms as int,
            0 <= k <= events.len(),
            best is None <==> !has_event_on_day(events@.subrange(0, k as int), off, day as int),
            best matches Some(i) ==> is_latest_on_day(events@.subrange(0, k as int), i as int, off, day as int),
        decreases events.len() - k,
    {
        let ghost pre = events@.subrange(0, k as int);
        let ghost post = events@.subrange(0, k + 1);
        assert(forall|j: int| 0 <= j < k ==> post[j] == pre[j]);
        assert(post[k as int] == events@[k as int]);
        let e = events[k];
        if zone.day_of(e.timestamp_ms) == day {
            let replace = match best {
                None => true,
                Some(b) => events[b].timestamp_ms <= e.timestamp_ms,
            };
            if replace {
                best = Some(k);
            }
        }
        proof {
            if best is None {
                assert forall|j: int| 0 <= j < post.len() implies !on_day(post[j], off, day as int) by {
                    if j < k {
                        assert(!on_day(pre[j], off, day as int));
                    }
                }
            } else {
                if !on_day(events@[k as int], off, day as int) {
                    assert(has_event_on_day(pre, off, day as int));
                    let w = choose|j: int| 0 <= j < pre.len() && #[trigger] on_day(pre[j], off, day as int);
                    assert(on_day(post[w], off, day as int));
                } else {
                    assert(on_day(post[k as int], off, day as int));
                }
            }
        }
        k = k + 1;
    }
    assert(events@.subrange(0, events.len() as int) =~= events@);
    best
}

} // verus!
