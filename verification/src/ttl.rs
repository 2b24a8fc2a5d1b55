//! Deadlines on the kernel's coarse clock.

use vstd::prelude::*;

use crate::bucket::leaky::saturating_mul;

verus! {

/// A deadline on the kernel's jiffy counter, compared in-kernel at every lookup.
///
/// This is what makes an accidental permanent blackhole structurally impossible: if the agent
/// dies, the entry stays in the map and stops being applied.
#[derive(Clone, Copy, PartialEq, Eq, PartialOrd, Ord, Debug, Structural)]
pub struct Deadline(pub u64);

/// The value that never expires.
const NEVER: u64 = u64::MAX;

impl Deadline {
    /// The tick a time to live ends at, held at the largest reading.
    pub open spec fn reached_by(now: u64, ttl: int) -> u64 {
        if now + ttl > u64::MAX {
            u64::MAX
        } else {
            (now + ttl) as u64
        }
    }

    /// Whether the deadline is the one that never comes.
    pub open spec fn is_endless(self) -> bool {
        self.0 == u64::MAX
    }

    /// Whether the deadline has passed at `now`.
    pub open spec fn has_passed(self, now: u64) -> bool {
        !self.is_endless() && now >= self.0
    }

    /// A deadline that never comes.
    pub fn never() -> (deadline: Self)
        ensures
            deadline == Deadline(u64::MAX),
            deadline.is_endless(),
    {
        Deadline(NEVER)
    }

    /// Saturates rather than wraps: a TTL long enough to overflow the counter is the operator
    /// asking for never, and wrapping would turn it into already expired.
    pub fn after(now: u64, ttl: u64) -> (deadline: Self)
        ensures
            deadline == Deadline(Self::reached_by(now, ttl as int)),
    {
        Deadline(now.saturating_add(ttl))
    }

    /// Whether this deadline never comes.
    pub fn is_never(self) -> (never: bool)
        ensures
            never == self.is_endless(),
    {
        self.0 == NEVER
    }

    /// Whether this deadline has passed. Without the comparison against the sentinel a clock
    /// reading of `u64::MAX` would expire an entry declared never to expire.
    pub fn expired(self, now: u64) -> (expired: bool)
        ensures
            expired == self.has_passed(now),
    {
        self.0 != NEVER && now >= self.0
    }
}

/// An entry declared never to expire does not, at any reading of the clock.
pub proof fn never_never_expires(now: u64)
    ensures
        !Deadline(u64::MAX).has_passed(now),
{
}

/// A deadline that has passed stays passed.
pub proof fn an_expired_deadline_stays_expired(deadline: Deadline, now: u64, later: u64)
    requires
        deadline.has_passed(now),
        now <= later,
    ensures
        deadline.has_passed(later),
{
}

/// A time to live holds for exactly its length, and for ever where its end is past the counter.
pub proof fn a_ttl_holds_for_its_length(now: u64, ttl: u64, reading: u64)
    ensures
        now + ttl < u64::MAX ==> (Deadline(Deadline::reached_by(now, ttl as int)).has_passed(reading)
            <==> reading >= now + ttl),
        now + ttl >= u64::MAX ==> !Deadline(Deadline::reached_by(now, ttl as int)).has_passed(
            reading,
        ),
{
}

/// The kernel's coarse clock as userspace sees it: the rate it ticks at and one reading of it.
/// The two travel together because neither is usable alone.
#[derive(Clone, Copy, Debug, PartialEq, Eq, Structural)]
pub struct Clock {
    pub hz: u32,
    pub jiffies: u64,
}

impl Clock {
    /// The deadline a TTL in whole seconds ends at on this clock.
    pub open spec fn due(self, ttl_secs: u64) -> Deadline {
        Deadline(Deadline::reached_by(self.jiffies, ttl_secs * self.hz))
    }

    /// A TTL in whole seconds as an absolute deadline on this clock.
    pub fn deadline(self, ttl_secs: u64) -> (deadline: Deadline)
        ensures
            deadline == self.due(ttl_secs),
            deadline == Deadline(Deadline::reached_by(self.jiffies, ttl_secs * self.hz)),
    {
        Deadline::after(self.jiffies, saturating_mul(ttl_secs, self.hz as u64))
    }
}

/// A deadline has passed from its own tick on and at no tick before, and the largest reading is
/// the deadline that never comes.
pub proof fn a_deadline_passes_at_its_tick(deadline: Deadline, now: u64)
    ensures
        deadline.0 < 0xffff_ffff_ffff_ffff ==> (deadline.has_passed(now) <==> now >= deadline.0),
        deadline.0 == 0xffff_ffff_ffff_ffff ==> !deadline.has_passed(now) && deadline.is_endless(),
        deadline.is_endless() ==> deadline.0 == 0xffff_ffff_ffff_ffff,
{
}

/// A TTL in seconds holds for so many seconds of the clock: `hz` ticks each, from the reading of
/// the clock on, not a tick less and not a tick more; and for ever where the counter has no such
/// tick.
pub proof fn a_ttl_in_seconds_holds_for_its_seconds(clock: Clock, ttl_secs: u64, elapsed: int)
    requires
        0 <= elapsed,
        clock.jiffies + elapsed <= u64::MAX,
    ensures
        clock.jiffies + ttl_secs * clock.hz < u64::MAX ==> (clock.due(ttl_secs).has_passed(
            (clock.jiffies + elapsed) as u64,
        ) <==> elapsed >= ttl_secs * clock.hz),
        clock.jiffies + ttl_secs * clock.hz >= u64::MAX ==> !clock.due(ttl_secs).has_passed(
            (clock.jiffies + elapsed) as u64,
        ),
{
    assert(ttl_secs * clock.hz >= 0) by (nonlinear_arith)
        requires
            ttl_secs >= 0,
            clock.hz >= 0,
    ;
}

/// A longer TTL never ends sooner.
pub proof fn a_longer_ttl_never_ends_sooner(clock: Clock, shorter: u64, longer: u64, now: u64)
    requires
        shorter <= longer,
        clock.due(longer).has_passed(now),
    ensures
        clock.due(shorter).has_passed(now),
{
    assert(0 <= shorter * clock.hz <= longer * clock.hz) by (nonlinear_arith)
        requires
            0 <= shorter <= longer,
            clock.hz >= 0,
    ;
}

} // verus!
