//! Points in time, as membership expiries use them.

use std::time::SystemTime;

use vstd::prelude::*;

verus! {

/// Nanoseconds in one second.
pub const NANOS_PER_SEC: i128 = 1_000_000_000;

/// The earliest point in time: `i64::MIN` seconds from the UNIX epoch.
pub const EARLIEST: i128 = -9_223_372_036_854_775_808_000_000_000;

/// The first point too late to represent: `i64::MAX` seconds from the UNIX epoch, and one more.
pub const TOO_LATE: i128 = 9_223_372_036_854_775_808_000_000_000;

/// A point in wall-clock time, to the nanosecond, before or after the UNIX epoch.
///
/// The view counts nanoseconds from the epoch.
#[derive(Debug, Clone, Copy, PartialEq, Eq, PartialOrd, Ord, Hash, Structural)]
pub struct Timestamp {
    nanos: i128,
}

impl View for Timestamp {
    type V = int;

    closed spec fn view(&self) -> int {
        self.nanos as int
    }
}

/// The wall clock's own notion of a point in time, never looked into here.
#[verifier::external_type_specification]
#[verifier::external_body]
pub struct ExSystemTime(std::time::SystemTime);

/// `SystemTime::now` reads the wall clock of the host; nothing is claimed of the reading.
pub assume_specification[ std::time::SystemTime::now ]() -> std::time::SystemTime;

/// `SystemTime::duration_since`, applied to the UNIX epoch: the whole seconds and the
/// nanoseconds by which `time` lies after the epoch (`Ok`) or before it (`Err`).
///
/// Only the range of the nanoseconds is claimed: they are always less than a second.
/// How the numbers relate to `time` is left unsaid, a wall-clock reading being opaque here.
#[verifier::external_body]
fn since_epoch(time: SystemTime) -> (offset: Result<(u64, u32), (u64, u32)>)
    ensures
        offset matches Ok(after) ==> after.1 < NANOS_PER_SEC,
        offset matches Err(before) ==> before.1 < NANOS_PER_SEC,
{
    match time.duration_since(SystemTime::UNIX_EPOCH) {
        Ok(after) => Ok((after.as_secs(), after.subsec_nanos())),
        Err(e) => Err((e.duration().as_secs(), e.duration().subsec_nanos())),
    }
}

/// The nanoseconds from the epoch that lie `offset` after it (`Ok`) or before it (`Err`).
pub open spec fn offset_nanos(offset: Result<(u64, u32), (u64, u32)>) -> int {
    match offset {
        Ok((secs, nanos)) => secs * NANOS_PER_SEC + nanos,
        Err((secs, nanos)) => -(secs * NANOS_PER_SEC + nanos),
    }
}

/// `nanos`, brought into the range of points in time.
pub open spec fn clamp_nanos(nanos: int) -> int {
    if nanos < EARLIEST {
        EARLIEST as int
    } else if nanos >= TOO_LATE {
        TOO_LATE - 1
    } else {
        nanos
    }
}

/// Whether a point in time can be represented.
pub open spec fn representable(nanos: int) -> bool {
    EARLIEST <= nanos < TOO_LATE
}

/// Whether `offset` is what [`since_epoch`] gave for `time` in a call of it.
pub closed spec fn measured(time: SystemTime, offset: Result<(u64, u32), (u64, u32)>) -> bool {
    call_ensures(since_epoch, (time,), offset)
}

impl Timestamp {
    #[verifier::type_invariant]
    spec fn in_range(&self) -> bool {
        EARLIEST <= self.nanos < TOO_LATE
    }

    /// The UNIX epoch.
    pub fn epoch() -> (t: Timestamp)
        ensures
            t@ == 0,
    {
        Timestamp { nanos: 0 }
    }

    /// The point `secs` seconds from the epoch and `nanos` nanoseconds later;
    /// `None` if `nanos` makes up a second or more.
    pub fn new(secs: i64, nanos: u32) -> (t: Option<Timestamp>)
        ensures
            nanos < NANOS_PER_SEC <==> t is Some,
            t matches Some(at) ==> at@ == secs * NANOS_PER_SEC + nanos,
    {
        if nanos < 1_000_000_000 {
            Some(Timestamp { nanos: secs as i128 * NANOS_PER_SEC + nanos as i128 })
        } else {
            None
        }
    }

    /// The whole seconds from the epoch, rounded down.
    pub fn secs(&self) -> (secs: i64)
        ensures
            secs == self@ / (NANOS_PER_SEC as int),
    {
        proof {
            use_type_invariant(self);
        }
        if self.nanos >= 0 {
            (self.nanos / NANOS_PER_SEC) as i64
        } else {
            let below: i128 = -1 - (-(self.nanos + 1)) / NANOS_PER_SEC;
            proof {
                let n = self.nanos as int;
                let d = NANOS_PER_SEC as int;
                assert(below == -1 - (-(n + 1)) / d);
                assert(n / d == -1 - (-(n + 1)) / d) by (nonlinear_arith)
                    requires
                        n < 0,
                        d == 1_000_000_000,
                ;
            }
            below as i64
        }
    }

    /// The nanoseconds past the last whole second.
    pub fn subsec_nanos(&self) -> (nanos: u32)
        ensures
            nanos == self@ % (NANOS_PER_SEC as int),
    {
        let secs = self.secs();
        (self.nanos - secs as i128 * NANOS_PER_SEC) as u32
    }

    /// The point that lies `offset` after the epoch (`Ok`) or before it (`Err`),
    /// or the nearest one that can be represented.
    pub fn from_offset(offset: Result<(u64, u32), (u64, u32)>) -> (t: Timestamp)
        ensures
            t@ == clamp_nanos(offset_nanos(offset)),
    {
        match offset {
            Ok((secs, nanos)) => {
                let n: i128 = secs as i128 * NANOS_PER_SEC + nanos as i128;
                Timestamp { nanos: if n >= TOO_LATE { TOO_LATE - 1 } else { n } }
            },
            Err((secs, nanos)) => {
                let n: i128 = -(secs as i128 * NANOS_PER_SEC + nanos as i128);
                Timestamp { nanos: if n < EARLIEST { EARLIEST } else { n } }
            },
        }
    }

    /// Reads the wall clock of the host: the time is that of a call of `SystemTime::now`, as
    /// [`since_epoch`] measures it.
    pub fn now() -> (t: Timestamp)
        ensures
            representable(t@),
            exists|time: SystemTime, offset: Result<(u64, u32), (u64, u32)>| {
                &&& call_ensures(SystemTime::now, (), time)
                &&& #[trigger] measured(time, offset)
                &&& t@ == clamp_nanos(offset_nanos(offset))
            },
    {
        let time = SystemTime::now();
        let offset = since_epoch(time);
        assert(measured(time, offset));
        Timestamp::from_offset(offset)
    }

    /// Whether this point in time lies at `deadline` or after it.
    pub fn reaches(&self, deadline: &Timestamp) -> (yes: bool)
        ensures
            yes == (self@ >= deadline@),
    {
        self.nanos >= deadline.nanos
    }
}

/// An offset is measured only by a call of [`since_epoch`].
proof fn law_measured(time: SystemTime, offset: Result<(u64, u32), (u64, u32)>)
    requires
        measured(time, offset),
    ensures
        call_ensures(since_epoch, (time,), offset),
        offset matches Ok(after) ==> after.1 < 1_000_000_000,
        offset matches Err(before) ==> before.1 < 1_000_000_000,
{
}

/// A point in time is made of an offset from the epoch without loss: it lies as many seconds and
/// nanoseconds after the epoch, or before it, as the offset says. Only an offset of 2^63 seconds or
/// more is brought to the nearest point that there is.
pub proof fn law_offsets(offset: Result<(u64, u32), (u64, u32)>, t: Timestamp)
    requires
        call_ensures(Timestamp::from_offset, (offset,), t),
    ensures
        offset matches Ok((secs, nanos)) ==> {
            &&& secs * 1_000_000_000 + nanos < 9_223_372_036_854_775_808_000_000_000 ==> t@ == secs * 1_000_000_000
                + nanos
            &&& secs * 1_000_000_000 + nanos >= 9_223_372_036_854_775_808_000_000_000 ==> t@
                == 9_223_372_036_854_775_807_999_999_999
        },
        offset matches Err((secs, nanos)) ==> {
            &&& secs * 1_000_000_000 + nanos <= 9_223_372_036_854_775_808_000_000_000 ==> t@ == -(secs * 1_000_000_000
                + nanos)
            &&& secs * 1_000_000_000 + nanos > 9_223_372_036_854_775_808_000_000_000 ==> t@
                == -9_223_372_036_854_775_808_000_000_000
        },
{
}

/// The current time is a reading of the wall clock: as far from the epoch as that reading is,
/// which is the same as what [`Timestamp::from_offset`] makes of it.
pub proof fn law_now_is_read_off_the_clock(now: Timestamp)
    requires
        call_ensures(Timestamp::now, (), now),
    ensures
        exists|time: SystemTime, offset: Result<(u64, u32), (u64, u32)>| {
            &&& call_ensures(SystemTime::now, (), time)
            &&& #[trigger] measured(time, offset)
            &&& now@ == match offset {
                Ok((secs, nanos)) => if secs < 9_223_372_036_854_775_808 {
                    secs * 1_000_000_000 + nanos
                } else {
                    9_223_372_036_854_775_807_999_999_999
                },
                Err((secs, nanos)) => if secs < 9_223_372_036_854_775_808 {
                    -(secs * 1_000_000_000 + nanos)
                } else {
                    -9_223_372_036_854_775_808_000_000_000
                },
            }
        },
{
    let (time, offset) = choose|time: SystemTime, offset: Result<(u64, u32), (u64, u32)>| {
        &&& call_ensures(SystemTime::now, (), time)
        &&& #[trigger] measured(time, offset)
        &&& now@ == clamp_nanos(offset_nanos(offset))
    };
    law_measured(time, offset);
}

/// A point in time that is given in seconds and nanoseconds is read back so.
pub proof fn law_seconds_and_nanoseconds(secs: i64, nanos: u32, t: Timestamp, back: (i64, u32))
    requires
        call_ensures(Timestamp::new, (secs, nanos), Some(t)),
        call_ensures(Timestamp::secs, (&t,), back.0),
        call_ensures(Timestamp::subsec_nanos, (&t,), back.1),
    ensures
        back == (secs, nanos),
        t@ == secs * 1_000_000_000 + nanos,
{
    assert(t@ / 1_000_000_000 == secs && t@ % 1_000_000_000 == nanos) by (nonlinear_arith)
        requires
            t@ == secs * 1_000_000_000 + nanos,
            0 <= nanos < 1_000_000_000,
    ;
}

} // verus!
