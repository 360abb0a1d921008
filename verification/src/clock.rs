//! Readings of the machine's clocks.

use vstd::prelude::*;

verus! {

/// The instant of the standard library: a point on a clock that never goes back.
#[verifier::external_type_specification]
#[verifier::external_body]
pub struct ExInstant(std::time::Instant);

/// `Instant::now`: where the steady clock stands. What it reads is up to the
/// machine, so nothing is said of it.
#[verifier::external_body]
fn instant_now() -> (now: std::time::Instant)
{
    std::time::Instant::now()
}

/// `Instant::elapsed`: the nanoseconds that have passed since an instant. The
/// number depends on the machine's clock, so nothing is said of it.
#[verifier::external_body]
fn nanos_since(origin: &std::time::Instant) -> (nanos: u64)
{
    origin.elapsed().as_nanos() as u64
}

/// `SystemTime::now`, as nanoseconds since the start of 1970, or nothing on a
/// clock that is set to before that. The number depends on the machine's clock,
/// so nothing is said of it.
#[verifier::external_body]
fn unix_nanos() -> (reading: Option<u128>)
{
    std::time::SystemTime::now().duration_since(std::time::UNIX_EPOCH).ok().map(|d| d.as_nanos())
}

/// A steady clock that starts at zero.
pub struct Clock {
    origin: std::time::Instant,
}

impl Clock {
    /// `nanos` is what a reading of this clock has returned. Only the reading itself
    /// shows that it is one.
    pub closed spec fn reads(self, nanos: u64) -> bool {
        call_ensures(nanos_since, (&self.origin,), nanos)
    }

    /// A clock that starts now.
    pub fn new() -> (clock: Self) {
        Clock { origin: instant_now() }
    }

    /// Nanoseconds since the clock was started.
    pub fn now(&self) -> (nanos: u64)
        ensures
            self.reads(nanos),
    {
        nanos_since(&self.origin)
    }
}

/// A reading of the clock comes from the machine: it is what `Instant::elapsed`
/// returned for the clock's own beginning.
proof fn law_reading_is_measured(clock: Clock, nanos: u64)
    requires
        clock.reads(nanos),
    ensures
        call_ensures(nanos_since, (&clock.origin,), nanos),
{
}

/// `reading` is what a call of the calendar clock has read.
pub closed spec fn calendar_reads(reading: Option<u128>) -> bool {
    call_ensures(unix_nanos, (), reading)
}

/// A reading of the calendar clock comes from the machine.
proof fn law_calendar_reading_is_measured(reading: Option<u128>)
    requires
        calendar_reads(reading),
    ensures
        call_ensures(unix_nanos, (), reading),
{
}

/// Where the times of a cycle come from.
#[derive(Debug, Clone, Copy)]
pub enum TimeSource {
    /// The steady clock, which is read anew each time.
    Clock,
    /// A moment that stands still.
    At(u64),
}

impl TimeSource {
    /// Whether the source may give this time: a reading of the steady clock, or the
    /// moment that stands still.
    pub open spec fn gives(self, clock: Clock, time: u64) -> bool {
        match self {
            TimeSource::Clock => clock.reads(time),
            TimeSource::At(moment) => time == moment,
        }
    }

    /// The next time from this source, given the steady clock.
    pub fn next(&self, clock: &Clock) -> (time: u64)
        ensures
            self.gives(*clock, time),
            *self is Clock ==> clock.reads(time),
            *self matches TimeSource::At(moment) ==> time == moment,
    {
        match self {
            TimeSource::Clock => clock.now(),
            TimeSource::At(moment) => *moment,
        }
    }
}

/// A moment of the calendar clock, in the two units that match records carry.
#[derive(Debug, Clone, Copy)]
pub struct Stamp {
    /// Microseconds since the start of 1970.
    pub micros: u128,
    /// Milliseconds since the start of 1970.
    pub millis: u64,
}

/// The stamp for a reading of the calendar clock, in nanoseconds since the start
/// of 1970. A moment before that counts as that start. The count of milliseconds
/// keeps its lower sixty-four binary digits.
pub open spec fn stamp_at(reading: Option<u128>) -> Stamp {
    let nanos = match reading {
        Some(nanos) => nanos,
        None => 0,
    };
    Stamp {
        micros: nanos / 1_000,
        millis: ((nanos / 1_000_000) % 0x1_0000_0000_0000_0000) as u64,
    }
}

/// Puts a reading of the calendar clock into a stamp.
pub fn stamp_from_reading(reading: Option<u128>) -> (stamp: Stamp)
    ensures
        stamp == stamp_at(reading),
        stamp.micros == (match reading {
            Some(nanos) => nanos / 1_000,
            None => 0,
        }),
        stamp.millis == (match reading {
            Some(nanos) => nanos / 1_000_000,
            None => 0,
        }) % 0x1_0000_0000_0000_0000,
{
    let nanos: u128 = match reading {
        Some(nanos) => nanos,
        None => 0,
    };
    Stamp {
        micros: nanos / 1_000,
        millis: ((nanos / 1_000_000) % 0x1_0000_0000_0000_0000) as u64,
    }
}

/// The stamp of this moment.
pub fn stamp_now() -> (stamp: Stamp)
    ensures
        exists|reading: Option<u128>| calendar_reads(reading) && stamp == #[trigger] stamp_at(reading),
{
    let reading: Option<u128> = unix_nanos();
    stamp_from_reading(reading)
}

} // verus!
