use vstd::prelude::*;
use crate::clock::{local_day, LocalZone};
use crate::event::{
    has_event_on_day, is_latest_on_day, latest_on_day, on_day, AttendanceEvent,
};
use crate::polarity::{flip, Polarity};

verus! {

/// Why a check-in/check-out is refused; each reason has a stable code.
#[derive(Debug, Clone, Copy, PartialEq, Eq, Structural)]
pub enum RejectReason {
    /// The user has no enrolled biometric template.
    FaceNotRegistered,
    /// The submitted location lies outside the configured geofence.
    OutsideGeofence,
    /// The submitted sample scored below the similarity threshold.
    BiometricMismatch,
    /// The event store could not be read or written.
    StoreError,
}

impl RejectReason {
    /// The machine-readable code of the reason.
    pub fn code(self) -> (r: &'static str)
        ensures
            self == RejectReason::FaceNotRegistered ==> r@ == "no-template"@,
            self == RejectReason::OutsideGeofence ==> r@ == "outside-geofence"@,
            self == RejectReason::BiometricMismatch ==> r@ == "biometric-mismatch"@,
            self == RejectReason::StoreError ==> r@ == "store-error"@,
    {
        match self {
            RejectReason::FaceNotRegistered => "no-template",
            RejectReason::OutsideGeofence => "outside-geofence",
            RejectReason::BiometricMismatch => "biometric-mismatch",
            RejectReason::StoreError => "store-error",
        }
    }
}

/// What the proximity and biometric checks found for one submission.
#[derive(Debug, Clone, Copy, PartialEq, Eq, Structural)]
pub struct GateOutcome {
    /// The user has an enrolled template.
    pub has_template: bool,
    /// The submitted location is within the geofence radius.
    pub within_radius: bool,
    /// The sample's similarity to the template reaches the threshold.
    pub similarity_met: bool,
}

/// The first gate that fails, in the order template, geofence, biometric.
pub open spec fn gate_verdict(g: GateOutcome) -> Result<(), RejectReason> {
    if !g.has_template {
        Err(RejectReason::FaceNotRegistered)
    } else if !g.within_radius {
        Err(RejectReason::OutsideGeofence)
    } else if !g.similarity_met {
        Err(RejectReason::BiometricMismatch)
    } else {
        Ok(())
    }
}

/// The polarity that a new event on local day `day` gets: the opposite of
/// the day's most recent event, or `In` when the day has none.
pub open spec fn polarity_due(events: Seq<AttendanceEvent>, offset: int, day: int) -> Polarity {
    if exists|i: int| is_latest_on_day(events, i, offset, day) {
        flip(events[choose|i: int| is_latest_on_day(events, i, offset, day)].polarity)
    } else {
        Polarity::In
    }
}

/// Two positions that are both the latest of a day are the same position.
proof fn lemma_latest_unique(events: Seq<AttendanceEvent>, i: int, k: int, offset: int, day: int)
    requires
        is_latest_on_day(events, i, offset, day),
        is_latest_on_day(events, k, offset, day),
    ensures
        i == k,
{
    assert(on_day(events[k], offset, day));
    assert(on_day(events[i], offset, day));
}

/// The polarity is settled by the latest event of the day, when there is one.
proof fn lemma_due_from_latest(events: Seq<AttendanceEvent>, i: int, offset: int, day: int)
    requires
        is_latest_on_day(events, i, offset, day),
    ensures
        polarity_due(events, offset, day) == flip(events[i].polarity),
{
    let k = choose|k: int| is_latest_on_day(events, k, offset, day);
    lemma_latest_unique(events, i, k, offset, day);
}

/// A day without events starts with `In`.
proof fn lemma_due_on_empty_day(events: Seq<AttendanceEvent>, offset: int, day: int)
    requires
        !has_event_on_day(events, offset, day),
    ensures
        polarity_due(events, offset, day) == Polarity::In,
{
    assert forall|i: int| !is_latest_on_day(events, i, offset, day) by {
        if is_latest_on_day(events, i, offset, day) {
            assert(on_day(events[i], offset, day));
        }
    }
}

/// Runs the gates in order and reports the first that fails.
pub fn check_gates(g: &GateOutcome) -> (r: Result<(), RejectReason>)
    ensures
        r == gate_verdict(*g),
{
    if !g.has_template {
        Err(RejectReason::FaceNotRegistered)
    } else if !g.within_radius {
        Err(RejectReason::OutsideGeofence)
    } else if !g.similarity_met {
        Err(RejectReason::BiometricMismatch)
    } else {
        Ok(())
    }
}

/// The polarity of an event made at `now_ms`, given the user's prior events:
/// day-scoped alternation in the local zone.
pub fn next_polarity(prior: &Vec<AttendanceEvent>, now_ms: i64, zone: LocalZone) -> (r: Polarity)
    requires
        zone.wf(),
    ensures
        r == polarity_due(prior@, zone.offset_ms as int, local_day(now_ms as int, zone.offset_ms as int)),
{
    let day = zone.day_of(now_ms);
    match latest_on_day(prior, zone, day) {
        Some(i) => {
            proof {
                lemma_due_from_latest(prior@, i as int, zone.offset_ms as int, day as int);
            }
            prior[i].polarity.opposite()
        },
        None => {
            proof {
                lemma_due_on_empty_day(prior@, zone.offset_ms as int, day as int);
            }
            Polarity::In
        },
    }
}

/// The event that an accepted submission at `now_ms` records.
pub open spec fn event_due(prior: Seq<AttendanceEvent>, now_ms: i64, offset: int) -> AttendanceEvent {
    AttendanceEvent {
        timestamp_ms: now_ms,
        polarity: polarity_due(prior, offset, local_day(now_ms as int, offset)),
    }
}

/// Decides a check-in/check-out submission. `prior` holds the user's events
/// as read from the store, or `None` when that read failed: a failed read is
/// a store error, never an empty history.
pub fn resolve_check(g: &GateOutcome, prior: Option<&Vec<AttendanceEvent>>, now_ms: i64, zone: LocalZone) -> (r:
    Result<AttendanceEvent, RejectReason>)
    requires
        zone.wf(),
    ensures
        gate_verdict(*g) is Err ==> r == Err::<AttendanceEvent, RejectReason>(gate_verdict(*g)->Err_0),
        gate_verdict(*g) is Ok && prior is None ==> r == Err::<AttendanceEvent, RejectReason>(
            RejectReason::StoreError,
        ),
        gate_verdict(*g) is Ok && prior is Some ==> r == Ok::<AttendanceEvent, RejectReason>(
            event_due(prior.unwrap()@, now_ms, zone.offset_ms as int),
        ),
{
    match check_gates(g) {
        Err(reason) => Err(reason),
        Ok(()) => match prior {
            None => Err(RejectReason::StoreError),
            Some(events) => {
                let p = next_polarity(events, now_ms, zone);
                Ok(AttendanceEvent { timestamp_ms: now_ms, polarity: p })
            },
        },
    }
}

/// One user's event history held in memory. Taking `&mut self` for each
/// decision serialises the read of the latest event with the write of the
/// new one.
pub struct AttendanceBook {
    events: Vec<AttendanceEvent>,
}

impl View for AttendanceBook {
    type V = Seq<AttendanceEvent>;

    closed spec fn view(&self) -> Seq<AttendanceEvent> {
        self.events@
    }
}

impl AttendanceBook {
    /// An empty history.
    pub fn new() -> (r: AttendanceBook)
        ensures
            r@ == Seq::<AttendanceEvent>::empty(),
    {
        AttendanceBook { events: Vec::new() }
    }

    /// The recorded events, oldest first.
    pub fn events(&self) -> (r: &Vec<AttendanceEvent>)
        ensures
            r@ == self@,
    {
        &self.events
    }

    /// Decides a submission at `now_ms` and, when it is accepted, records
    /// the new event. A rejection leaves the history unchanged.
    pub fn check_in_out(&mut self, g: &GateOutcome, now_ms: i64, zone: LocalZone) -> (r: Result<
        AttendanceEvent,
        RejectReason,
    >)
        requires
            zone.wf(),
        ensures
            gate_verdict(*g) is Err ==> r == Err::<AttendanceEvent, RejectReason>(gate_verdict(*g)->Err_0)
                && final(self)@ == old(self)@,
            gate_verdict(*g) is Ok ==> r == Ok::<AttendanceEvent, RejectReason>(
                event_due(old(self)@, now_ms, zone.offset_ms as int),
            ) && final(self)@ == old(self)@.push(event_due(old(self)@, now_ms, zone.offset_ms as int)),
    {
        let r = resolve_check(g, Some(&self.events), now_ms, zone);
        if let Ok(e) = r {
            self.events.push(e);
        }
        r
    }
}

/// Day-scoped alternation: the first event of a local day is `In`, and once
/// the decided event is recorded as the newest of its day, the next event of
/// that day gets the opposite polarity.
pub proof fn lemma_alternation(events: Seq<AttendanceEvent>, now_ms: i64, offset: int)
    requires
        forall|j: int|
            0 <= j < events.len() && on_day(events[j], offset, local_day(now_ms as int, offset))
                ==> events[j].timestamp_ms <= now_ms,
    ensures
        !has_event_on_day(events, offset, local_day(now_ms as int, offset)) ==> polarity_due(
            events,
            offset,
            local_day(now_ms as int, offset),
        ) == Polarity::In,
        polarity_due(events.push(event_due(events, now_ms, offset)), offset, local_day(now_ms as int, offset))
            == flip(polarity_due(events, offset, local_day(now_ms as int, offset))),
{
    let day = local_day(now_ms as int, offset);
    let e = event_due(events, now_ms, offset);
    let after = events.push(e);
    if !has_event_on_day(events, offset, day) {
        lemma_due_on_empty_day(events, offset, day);
    }
    let n = events.len() as int;
    assert(on_day(after[n], offset, day));
    assert forall|j: int| 0 <= j < after.len() && #[trigger] on_day(after[j], offset, day) implies after[j].timestamp_ms
        < after[n].timestamp_ms || (after[j].timestamp_ms == after[n].timestamp_ms && j <= n) by {
        if j < n {
            assert(after[j] == events[j]);
        }
    }
    assert(is_latest_on_day(after, n, offset, day));
    lemma_due_from_latest(after, n, offset, day);
}

/// Alternation does not carry across days: an event on one local day leaves
/// the polarity due on every other day unchanged.
pub proof fn lemma_day_scoped(events: Seq<AttendanceEvent>, e: AttendanceEvent, offset: int, day: int)
    requires
        !on_day(e, offset, day),
    ensures
        polarity_due(events.push(e), offset, day) == polarity_due(events, offset, day),
{
    let after = events.push(e);
    let n = events.len() as int;
    if exists|i: int| is_latest_on_day(events, i, offset, day) {
        let i = choose|i: int| is_latest_on_day(events, i, offset, day);
        assert forall|j: int| 0 <= j < after.len() && #[trigger] on_day(after[j], offset, day) implies after[j].timestamp_ms
            < after[i].timestamp_ms || (after[j].timestamp_ms == after[i].timestamp_ms && j <= i) by {
            assert(j != n);
            assert(after[j] == events[j]);
        }
        assert(is_latest_on_day(after, i, offset, day));
        lemma_due_from_latest(after, i, offset, day);
        lemma_due_from_latest(events, i, offset, day);
    } else {
        assert forall|i: int| !is_latest_on_day(after, i, offset, day) by {
            if is_latest_on_day(after, i, offset, day) {
                assert(i != n);
                assert(after[i] == events[i]);
                assert forall|j: int| 0 <= j < events.len() && #[trigger] on_day(events[j], offset, day) implies events[j].timestamp_ms
                    < events[i].timestamp_ms || (events[j].timestamp_ms == events[i].timestamp_ms && j <= i) by {
                    assert(after[j] == events[j]);
                }
                assert(is_latest_on_day(events, i, offset, day));
            }
        }
    }
}

/// Whether two events fall on the same local day.
pub open spec fn same_day(a: AttendanceEvent, b: AttendanceEvent, offset: int) -> bool {
    local_day(a.timestamp_ms as int, offset) == local_day(b.timestamp_ms as int, offset)
}

/// Events in time order.
pub open spec fn chronological(events: Seq<AttendanceEvent>) -> bool {
    forall|i: int, j: int| 0 <= i < j < events.len() ==> #[trigger] events[i].timestamp_ms <= #[trigger] events[j].timestamp_ms
}

/// Whether `events[k]` is the first event of its local day.
pub open spec fn opens_day(events: Seq<AttendanceEvent>, k: int, offset: int) -> bool {
    forall|j: int| 0 <= j < k ==> !same_day(#[trigger] events[j], events[k], offset)
}

/// Whether `events[i]` is the event of the same local day just before `events[k]`.
pub open spec fn day_predecessor(events: Seq<AttendanceEvent>, i: int, k: int, offset: int) -> bool {
    &&& 0 <= i < k
    &&& same_day(events[i], events[k], offset)
    &&& forall|j: int| i < j < k ==> !same_day(#[trigger] events[j], events[k], offset)
}

/// A history in time order in which each local day opens with `In` and each
/// event of a day has the opposite polarity of the day's previous event.
pub open spec fn day_alternating(events: Seq<AttendanceEvent>, offset: int) -> bool {
    &&& chronological(events)
    &&& forall|k: int| 0 <= k < events.len() && #[trigger] opens_day(events, k, offset) ==> events[k].polarity == Polarity::In
    &&& forall|i: int, k: int|
        k < events.len() && #[trigger] day_predecessor(events, i, k, offset) ==> events[k].polarity == flip(
            events[i].polarity,
        )
}

/// Appending an event changes neither relation for earlier positions.
proof fn lemma_push_keeps_order(events: Seq<AttendanceEvent>, e: AttendanceEvent, i: int, k: int, offset: int)
    requires
        0 <= k < events.len(),
    ensures
        opens_day(events.push(e), k, offset) == opens_day(events, k, offset),
        day_predecessor(events.push(e), i, k, offset) == day_predecessor(events, i, k, offset),
{
    let after = events.push(e);
    assert forall|j: int| 0 <= j <= k implies after[j] == events[j] by {}
    if opens_day(events, k, offset) {
        assert forall|j: int| 0 <= j < k implies !same_day(#[trigger] after[j], after[k], offset) by {
            assert(!same_day(events[j], events[k], offset));
        }
    }
    if opens_day(after, k, offset) {
        assert forall|j: int| 0 <= j < k implies !same_day(#[trigger] events[j], events[k], offset) by {
            assert(!same_day(after[j], after[k], offset));
        }
    }
    if 0 <= i < k {
        if day_predecessor(events, i, k, offset) {
            assert forall|j: int| i < j < k implies !same_day(#[trigger] after[j], after[k], offset) by {
                assert(!same_day(events[j], events[k], offset));
            }
        }
        if day_predecessor(after, i, k, offset) {
            assert forall|j: int| i < j < k implies !same_day(#[trigger] events[j], events[k], offset) by {
                assert(!same_day(after[j], after[k], offset));
            }
        }
    }
}

/// The last position of an event on local day `day`.
proof fn lemma_last_on_day(events: Seq<AttendanceEvent>, offset: int, day: int) -> (i: int)
    requires
        has_event_on_day(events, offset, day),
    ensures
        0 <= i < events.len(),
        on_day(events[i], offset, day),
        forall|j: int| i < j < events.len() ==> !on_day(#[trigger] events[j], offset, day),
    decreases events.len(),
{
    let n = events.len() - 1;
    if on_day(events[n], offset, day) {
        n
    } else {
        let pre = events.drop_last();
        let w = choose|j: int| 0 <= j < events.len() && #[trigger] on_day(events[j], offset, day);
        assert(on_day(pre[w], offset, day));
        let i = lemma_last_on_day(pre, offset, day);
        assert forall|j: int| i < j < events.len() implies !on_day(#[trigger] events[j], offset, day) by {
            if j < n {
                assert(events[j] == pre[j]);
            }
        }
        i
    }
}

/// Strict alternation is kept: when each decision is made no earlier than
/// the last recorded event and its event is recorded, a day-alternating
/// history stays day-alternating, so no two consecutive events of a local
/// day share a polarity.
pub proof fn lemma_alternation_kept(events: Seq<AttendanceEvent>, now_ms: i64, offset: int)
    requires
        day_alternating(events, offset),
        events.len() > 0 ==> events.last().timestamp_ms <= now_ms,
    ensures
        day_alternating(events.push(event_due(events, now_ms, offset)), offset),
{
    let e = event_due(events, now_ms, offset);
    let after = events.push(e);
    let n = events.len() as int;
    let d = local_day(now_ms as int, offset);
    assert(after[n] == e);
    assert forall|a: int, b: int| 0 <= a < b < after.len() implies #[trigger] after[a].timestamp_ms
        <= #[trigger] after[b].timestamp_ms by {
        assert(after[a] == events[a]);
        if b < n {
            assert(after[b] == events[b]);
        } else if a < n - 1 {
            assert(events[a].timestamp_ms <= events[n - 1].timestamp_ms);
        }
    }
    assert forall|k: int| 0 <= k < n && #[trigger] opens_day(after, k, offset) implies after[k].polarity == Polarity::In by {
        lemma_push_keeps_order(events, e, 0, k, offset);
        assert(after[k] == events[k]);
    }
    assert forall|i: int, k: int| k < n && #[trigger] day_predecessor(after, i, k, offset) implies after[k].polarity
        == flip(after[i].polarity) by {
        lemma_push_keeps_order(events, e, i, k, offset);
        assert(after[k] == events[k]);
        assert(after[i] == events[i]);
    }
    if has_event_on_day(events, offset, d) {
        let i = lemma_last_on_day(events, offset, d);
        assert forall|j: int| 0 <= j < events.len() && #[trigger] on_day(events[j], offset, d) implies events[j].timestamp_ms
            < events[i].timestamp_ms || (events[j].timestamp_ms == events[i].timestamp_ms && j <= i) by {
            if j > i {
                assert(!on_day(events[j], offset, d));
            } else if j < i {
                assert(events[j].timestamp_ms <= events[i].timestamp_ms);
            }
        }
        assert(is_latest_on_day(events, i, offset, d));
        lemma_due_from_latest(events, i, offset, d);
        assert(after[i] == events[i]);
        assert(same_day(after[i], after[n], offset));
        assert(!opens_day(after, n, offset));
        assert forall|a: int| #[trigger] day_predecessor(after, a, n, offset) implies after[n].polarity == flip(
            after[a].polarity,
        ) by {
            assert(after[a] == events[a]);
            if a < i {
                assert(!same_day(after[i], after[n], offset));
            } else if a > i {
                assert(!on_day(events[a], offset, d));
            }
        }
    } else {
        lemma_due_on_empty_day(events, offset, d);
        assert forall|a: int| #[trigger] day_predecessor(after, a, n, offset) implies after[n].polarity == flip(
            after[a].polarity,
        ) by {
            assert(after[a] == events[a]);
            assert(on_day(events[a], offset, d));
        }
    }
}

} // verus!
