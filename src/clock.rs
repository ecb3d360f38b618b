use vstd::prelude::*;

verus! {

/// Milliseconds in one calendar day.
pub const MS_PER_DAY: i64 = 86_400_000;

/// Milliseconds in one minute.
pub const MS_PER_MINUTE: i64 = 60_000;

/// Minutes in one calendar day.
pub const MINUTES_PER_DAY: u32 = 1440;

/// The local calendar day (days since 1970-01-01, local) of the UTC instant
/// `ts` (milliseconds since the epoch) in a zone `offset` milliseconds east of UTC.
pub open spec fn local_day(ts: int, offset: int) -> int {
    (ts + offset) / (MS_PER_DAY as int)
}

/// The local minute of the day (0 to 1439) of the instant `ts`.
pub open spec fn minute_of_day(ts: int, offset: int) -> int {
    ((ts + offset) % (MS_PER_DAY as int)) / (MS_PER_MINUTE as int)
}

/// The local second of the day (0 to 86399) of the instant `ts`.
pub open spec fn second_of_day(ts: int, offset: int) -> int {
    ((ts + offset) % (MS_PER_DAY as int)) / 1000
}

/// A fixed offset from UTC, in milliseconds east of Greenwich.
#[derive(Debug, Clone, Copy, PartialEq, Eq, Structural)]
pub struct LocalZone {
    pub offset_ms: i64,
}

impl LocalZone {
    /// An offset is less than a day either way.
    pub open spec fn wf(self) -> bool {
        -MS_PER_DAY < self.offset_ms < MS_PER_DAY
    }

    /// The zone `hours` hours east of UTC (negative: west).
    pub fn from_hours(hours: i32) -> (r: Option<LocalZone>)
        ensures
            -24 < hours < 24 <==> r is Some,
            r matches Some(z) ==> z.wf() && z.offset_ms == hours * 3_600_000,
    {
        if -24 < hours && hours < 24 {
            Some(LocalZone { offset_ms: hours as i64 * 3_600_000 })
        } else {
            None
        }
    }

    /// The zone `minutes` minutes east of UTC (negative: west).
    pub fn from_offset_minutes(minutes: i32) -> (r: Option<LocalZone>)
        ensures
            -1440 < minutes < 1440 <==> r is Some,
            r matches Some(z) ==> z.wf() && z.offset_ms == minutes * 60_000,
    {
        if -1440 < minutes && minutes < 1440 {
            Some(LocalZone { offset_ms: minutes as i64 * 60_000 })
        } else {
            None
        }
    }

    /// The local calendar day of the instant `ts`.
    pub fn day_of(self, ts: i64) -> (r: i64)
        requires
            self.wf(),
        ensures
            r == local_day(ts as int, self.offset_ms as int),
    {
        let local: i128 = ts as i128 + self.offset_ms as i128;
        match local.checked_div_euclid(MS_PER_DAY as i128) {
            Some(d) => {
                assert(-200_000_000_000int <= d <= 200_000_000_000int) by (nonlinear_arith)
                    requires
                        d == local as int / 86_400_000int,
                        -10_000_000_000_000_000_000int <= local <= 10_000_000_000_000_000_000int,
                ;
                d as i64
            },
            None => 0,
        }
    }

    /// The local minute of the day (0 to 1439) of the instant `ts`.
    pub fn minute_of(self, ts: i64) -> (r: u32)
        requires
            self.wf(),
        ensures
            r == minute_of_day(ts as int, self.offset_ms as int),
            r < MINUTES_PER_DAY,
    {
        let local: i128 = ts as i128 + self.offset_ms as i128;
        match local.checked_rem_euclid(MS_PER_DAY as i128) {
            Some(m) => {
                let r = (m / (MS_PER_MINUTE as i128)) as u32;
                r
            },
            None => 0,
        }
    }

    /// The local second of the day (0 to 86399) of the instant `ts`.
    pub fn second_of(self, ts: i64) -> (r: u32)
        requires
            self.wf(),
        ensures
            r == second_of_day(ts as int, self.offset_ms as int),
            r < 86_400,
    {
        let local: i128 = ts as i128 + self.offset_ms as i128;
        match local.checked_rem_euclid(MS_PER_DAY as i128) {
            Some(m) => (m / 1000) as u32,
            None => 0,
        }
    }

    /// The first and the last millisecond, in UTC, of local day `day`.
    pub fn day_window(self, day: i64) -> (r: Option<(i64, i64)>)
        requires
            self.wf(),
        ensures
            r matches Some((start, end)) ==> {
                &&& start == day * MS_PER_DAY - self.offset_ms
                &&& end == start + MS_PER_DAY - 1
                &&& forall|ts: int| start <= ts <= end <==> local_day(ts, self.offset_ms as int) == day
            },
            r is None <==> !(i64::MIN <= day * MS_PER_DAY - self.offset_ms
                && day * MS_PER_DAY - self.offset_ms + MS_PER_DAY - 1 <= i64::MAX),
    {
        assert(-0x1_0000_0000_0000_0000_0000_0000int <= day * 86_400_000int <= 0x1_0000_0000_0000_0000_0000_0000int)
            by (nonlinear_arith)
            requires
                i64::MIN <= day <= i64::MAX,
        ;
        let start: i128 = day as i128 * (MS_PER_DAY as i128) - self.offset_ms as i128;
        let end: i128 = start + (MS_PER_DAY as i128 - 1);
        if start < i64::MIN as i128 || end > i64::MAX as i128 {
            None
        } else {
            proof {
                let off = self.offset_ms as int;
                assert forall|ts: int| start <= ts <= end <==> local_day(ts, off) == day by {
                    let l = ts + off;
                    let dd = day as int;
                    if dd * 86_400_000 <= l < dd * 86_400_000 + 86_400_000 {
                        assert(l / 86_400_000 == dd) by (nonlinear_arith)
                            requires
                                dd * 86_400_000 <= l < dd * 86_400_000 + 86_400_000,
                        ;
                    } else {
                        assert(l / 86_400_000 != dd) by (nonlinear_arith)
                            requires
                                !(dd * 86_400_000 <= l < dd * 86_400_000 + 86_400_000),
                        ;
                    }
                }
            }
            Some((start as i64, end as i64))
        }
    }
}

} // verus!
