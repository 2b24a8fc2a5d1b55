//! What holds of a bucket over many packets.

use vstd::prelude::*;

use super::leaky::{Bucket, Drain, Rate, BURST_MAX, UNITS_PER_BYTE};

verus! {

/// One arrival: the clock reading and the size in bytes.
pub struct Arrival {
    pub now: u64,
    pub size: u32,
}

/// The bucket after a sequence of arrivals.
pub open spec fn after(start: Bucket, rate: Rate, arrivals: Seq<Arrival>) -> Bucket
    decreases arrivals.len(),
{
    if arrivals.len() == 0 {
        start
    } else {
        let last = arrivals.last();
        super::leaky::charged(after(start, rate, arrivals.drop_last()), rate, last.now, last.size)
    }
}

/// Whether arrival `i` was within the budget.
pub open spec fn within(start: Bucket, rate: Rate, arrivals: Seq<Arrival>, i: int) -> bool {
    super::leaky::fits(
        after(start, rate, arrivals.take(i)),
        rate,
        arrivals[i].now,
        arrivals[i].size,
    )
}

/// The bytes of the arrivals that were within the budget.
pub open spec fn accepted(start: Bucket, rate: Rate, arrivals: Seq<Arrival>) -> int
    decreases arrivals.len(),
{
    if arrivals.len() == 0 {
        0
    } else {
        let last = arrivals.last();
        let before = arrivals.drop_last();
        accepted(start, rate, before) + (if super::leaky::fits(
            after(start, rate, before),
            rate,
            last.now,
            last.size,
        ) {
            last.size as int
        } else {
            0
        })
    }
}

/// The highest level a bucket can reach.
pub open spec fn level_max() -> int {
    BURST_MAX * UNITS_PER_BYTE
}

/// No rate, size or clock reading takes a level past the largest burst, and below it no sum of a
/// charge overflows: a bucket that starts under the bound can be charged for ever.
pub proof fn the_level_never_wraps(bucket: Bucket, rate: Rate, now: u64, size: u32)
    requires
        bucket.level <= level_max(),
    ensures
        super::leaky::leaked(bucket, rate, now) + size * UNITS_PER_BYTE <= u64::MAX,
        super::leaky::charged(bucket, rate, now, size).level <= level_max(),
{
    lemma_drained_bounds(rate.drain, super::leaky::monus(now as int, bucket.last_tick as int));
}

/// A gap long enough to saturate the drain empties every level a bucket can reach.
pub proof fn a_saturated_drain_empties_the_bucket(bucket: Bucket, rate: Rate, now: u64)
    requires
        bucket.level <= level_max(),
        rate.drain.word() * super::leaky::monus(now as int, bucket.last_tick as int) >= u64::MAX,
    ensures
        super::leaky::leaked(bucket, rate, now) == 0,
{
}

/// A bucket that stops receiving drains: its level never rises, and it is empty once the drain has
/// let out what was in it.
pub proof fn an_idle_bucket_drains_to_zero(bucket: Bucket, rate: Rate, now: u64, later: u64)
    requires
        bucket.level <= level_max(),
        now <= later,
    ensures
        super::leaky::leaked(bucket, rate, later) <= super::leaky::leaked(bucket, rate, now),
        rate.drain.word() * super::leaky::monus(later as int, bucket.last_tick as int)
            >= bucket.level * 0x10_0000 ==> super::leaky::leaked(bucket, rate, later) == 0,
{
    let word = rate.drain.word() as int;
    let short = super::leaky::monus(now as int, bucket.last_tick as int);
    let long = super::leaky::monus(later as int, bucket.last_tick as int);
    assert(word * short <= word * long) by (nonlinear_arith)
        requires
            0 <= short <= long,
            word >= 0,
    ;
}

/// A clock reading that does not advance drains nothing, and leaves the high-water mark alone.
pub proof fn a_clock_that_does_not_advance_drains_nothing(
    bucket: Bucket,
    rate: Rate,
    now: u64,
    size: u32,
)
    requires
        now <= bucket.last_tick,
    ensures
        super::leaky::leaked(bucket, rate, now) == bucket.level,
        super::leaky::charged(bucket, rate, now, size).last_tick == bucket.last_tick,
{
    assert(rate.drain.word() * 0 == 0);
}

proof fn lemma_drained_bounds(drain: Drain, ticks: int)
    requires
        0 <= ticks,
    ensures
        0 <= super::leaky::drained(drain, ticks),
        super::leaky::drained(drain, ticks) * 0x10_0000 <= drain.word() * ticks,
{
    assert(drain.word() * ticks >= 0) by (nonlinear_arith)
        requires
            drain.word() >= 0,
            ticks >= 0,
    ;
}

/// What a run lets through is paid for by what drained and by the level it left behind.
proof fn lemma_conservation(start: Bucket, rate: Rate, arrivals: Seq<Arrival>)
    requires
        start.level <= super::leaky::ceiling(rate),
    ensures
        ({
            let end = after(start, rate, arrivals);
            &&& end.level <= super::leaky::ceiling(rate)
            &&& end.last_tick >= start.last_tick
            &&& start.level * 0x10_0000 + accepted(start, rate, arrivals) * 0x2000_0000
                <= end.level * 0x10_0000 + rate.drain.word() * (end.last_tick - start.last_tick)
        }),
    decreases arrivals.len(),
{
    if arrivals.len() == 0 {
        assert(rate.drain.word() * 0 == 0);
    } else {
        let before = arrivals.drop_last();
        let last = arrivals.last();
        lemma_conservation(start, rate, before);
        let mid = after(start, rate, before);
        let end = after(start, rate, arrivals);
        let dt = super::leaky::monus(last.now as int, mid.last_tick as int);
        lemma_drained_bounds(rate.drain, dt);
        the_level_never_wraps(mid, rate, last.now, last.size);
        assert(end.last_tick - start.last_tick == (mid.last_tick - start.last_tick) + dt);
        assert(rate.drain.word() * (end.last_tick - start.last_tick) == rate.drain.word() * (
        mid.last_tick - start.last_tick) + rate.drain.word() * dt) by (nonlinear_arith)
            requires
                end.last_tick - start.last_tick == (mid.last_tick - start.last_tick) + dt,
        ;
    }
}

/// Conservation. Of a bucket that starts empty, the bytes let through stay under what the drain
/// lets out over the time from the first arrival to the last, plus the burst; both sides are
/// scaled by the units of a byte and the fraction of the drain word. The gap before the first
/// arrival buys nothing, however long.
pub proof fn accepted_bytes_stay_under_rho_t_plus_burst(
    start: Bucket,
    rate: Rate,
    arrivals: Seq<Arrival>,
)
    requires
        start.level == 0,
        arrivals.len() > 0,
    ensures
        accepted(start, rate, arrivals) * 0x2000_0000 <= rate.drain.word() * (after(
            start,
            rate,
            arrivals,
        ).last_tick - super::leaky::later(start.last_tick, arrivals[0].now)) + super::leaky::min(
            rate.burst as int,
            BURST_MAX as int,
        ) * 0x2000_0000,
{
    let first = arrivals.take(1);
    let rest = arrivals.skip(1);
    assert(first.drop_last() =~= Seq::<Arrival>::empty());
    assert(first.last() == arrivals[0]);
    reveal_with_fuel(after, 2);
    reveal_with_fuel(accepted, 2);
    let bucket = after(start, rate, first);
    assert(bucket == super::leaky::charged(start, rate, arrivals[0].now, arrivals[0].size));
    lemma_drained_bounds(
        rate.drain,
        super::leaky::monus(arrivals[0].now as int, start.last_tick as int),
    );
    assert(bucket.level == accepted(start, rate, first) * 512);
    lemma_split(start, rate, arrivals, 1);
    lemma_conservation(bucket, rate, rest);
}

/// Conservation, in bytes per second: what a rate configured for a clock of nanoseconds lets
/// through stays under the rate times the time from the first arrival to the last, plus the burst.
pub proof fn a_configured_rate_is_kept(
    start: Bucket,
    rate: Rate,
    arrivals: Seq<Arrival>,
    bytes_per_sec: u64,
)
    requires
        start.level == 0,
        arrivals.len() > 0,
        rate.drain.word() == bytes_per_sec * 0x10_0000 / 1_953_125,
    ensures
        ({
            let elapsed = after(start, rate, arrivals).last_tick - super::leaky::later(
                start.last_tick,
                arrivals[0].now,
            );
            accepted(start, rate, arrivals) <= bytes_per_sec * elapsed / 1_000_000_000
                + super::leaky::min(rate.burst as int, BURST_MAX as int)
        }),
{
    let elapsed = after(start, rate, arrivals).last_tick - super::leaky::later(
        start.last_tick,
        arrivals[0].now,
    );
    let word = rate.drain.word() as int;
    let through = accepted(start, rate, arrivals) - super::leaky::min(
        rate.burst as int,
        BURST_MAX as int,
    );
    accepted_bytes_stay_under_rho_t_plus_burst(start, rate, arrivals);
    lemma_ticks_advance(start, rate, arrivals);
    assert(word * elapsed * 1_953_125 <= bytes_per_sec * elapsed * 0x10_0000) by (nonlinear_arith)
        requires
            word * 1_953_125 <= bytes_per_sec * 0x10_0000,
            elapsed >= 0,
    ;
}

/// The clock reading of a bucket is a high-water mark.
proof fn lemma_ticks_advance(start: Bucket, rate: Rate, arrivals: Seq<Arrival>)
    ensures
        after(start, rate, arrivals).last_tick >= start.last_tick,
        arrivals.len() > 0 ==> after(start, rate, arrivals).last_tick >= arrivals[0].now,
    decreases arrivals.len(),
{
    if arrivals.len() > 0 {
        lemma_ticks_advance(start, rate, arrivals.drop_last());
    }
}

/// A bucket that never leaks admits exactly its burst, whatever the clock does: a packet is within
/// the budget where it fits beside all that was let through before it.
pub proof fn a_bucket_that_never_leaks_admits_its_burst(
    start: Bucket,
    rate: Rate,
    arrivals: Seq<Arrival>,
    i: int,
)
    requires
        start.level == 0,
        rate.drain.word() == 0,
        0 <= i < arrivals.len(),
    ensures
        within(start, rate, arrivals, i) <==> accepted(start, rate, arrivals.take(i))
            + arrivals[i].size <= super::leaky::min(rate.burst as int, BURST_MAX as int),
{
    lemma_level_is_what_was_let_through(start, rate, arrivals.take(i));
    assert(0int * super::leaky::monus(
        arrivals[i].now as int,
        after(start, rate, arrivals.take(i)).last_tick as int,
    ) == 0);
}

proof fn lemma_level_is_what_was_let_through(start: Bucket, rate: Rate, arrivals: Seq<Arrival>)
    requires
        start.level == 0,
        rate.drain.word() == 0,
    ensures
        after(start, rate, arrivals).level == accepted(start, rate, arrivals) * UNITS_PER_BYTE,
        after(start, rate, arrivals).level <= level_max(),
    decreases arrivals.len(),
{
    if arrivals.len() > 0 {
        let before = after(start, rate, arrivals.drop_last());
        let last = arrivals.last();
        lemma_level_is_what_was_let_through(start, rate, arrivals.drop_last());
        assert(0int * super::leaky::monus(last.now as int, before.last_tick as int) == 0);
    }
}

proof fn lemma_split(start: Bucket, rate: Rate, arrivals: Seq<Arrival>, at: int)
    requires
        0 <= at <= arrivals.len(),
    ensures
        after(start, rate, arrivals) == after(
            after(start, rate, arrivals.take(at)),
            rate,
            arrivals.skip(at),
        ),
        accepted(start, rate, arrivals) == accepted(start, rate, arrivals.take(at)) + accepted(
            after(start, rate, arrivals.take(at)),
            rate,
            arrivals.skip(at),
        ),
    decreases arrivals.len() - at,
{
    if at == arrivals.len() {
        assert(arrivals.take(at) =~= arrivals);
        assert(arrivals.skip(at).len() == 0);
    } else {
        let before = arrivals.drop_last();
        lemma_split(start, rate, before, at);
        assert(before.take(at) =~= arrivals.take(at));
        assert(before.skip(at) =~= arrivals.skip(at).drop_last());
        assert(arrivals.skip(at).last() == arrivals.last());
    }
}

/// A drain built for a clock of jiffies never lets out more than the configured bytes: units
/// drained over `ticks`, at `hz` ticks to the second.
pub proof fn a_jiffy_drain_is_never_over(drain: Drain, bytes_per_sec: u64, hz: u32, ticks: u64)
    requires
        hz > 0,
        drain.word() == super::leaky::min(
            bytes_per_sec * (0x2000_0000int / hz as int),
            u64::MAX as int,
        ),
    ensures
        super::leaky::drained(drain, ticks as int) * hz <= bytes_per_sec * UNITS_PER_BYTE * ticks,
{
    let word = drain.word() as int;
    let scale = 0x2000_0000int / hz as int;
    let units = super::leaky::drained(drain, ticks as int);
    lemma_drained_bounds(drain, ticks as int);
    assert(scale * hz <= 0x2000_0000) by (nonlinear_arith)
        requires
            scale == 0x2000_0000int / hz as int,
            hz > 0,
    ;
    assert(word * hz <= bytes_per_sec * 0x2000_0000) by (nonlinear_arith)
        requires
            word <= bytes_per_sec * scale,
            scale * hz <= 0x2000_0000,
            bytes_per_sec >= 0,
            hz > 0,
    ;
    assert(units * 0x10_0000 * hz <= bytes_per_sec * 0x2000_0000 * ticks) by (nonlinear_arith)
        requires
            units * 0x10_0000 <= word * ticks,
            word * hz <= bytes_per_sec * 0x2000_0000,
            ticks >= 0,
            hz > 0,
    ;
    assert(units * 0x10_0000 * hz == (units * hz) * 0x10_0000) by (nonlinear_arith);
    assert(bytes_per_sec * 0x2000_0000 * ticks == (bytes_per_sec * 512 * ticks) * 0x10_0000)
        by (nonlinear_arith);
}

/// A drain built for a clock of nanoseconds never lets out more than the configured bytes.
pub proof fn a_nanosecond_drain_is_never_over(drain: Drain, bytes_per_sec: u64, ns: u64)
    requires
        drain.word() == bytes_per_sec * 0x10_0000 / 1_953_125,
    ensures
        super::leaky::drained(drain, ns as int) * 1_000_000_000 <= bytes_per_sec * UNITS_PER_BYTE
            * ns,
{
    let word = drain.word() as int;
    let units = super::leaky::drained(drain, ns as int);
    lemma_drained_bounds(drain, ns as int);
    assert(units * 0x10_0000 * 1_953_125 <= bytes_per_sec * 0x10_0000 * ns) by (nonlinear_arith)
        requires
            units * 0x10_0000 <= word * ns,
            word * 1_953_125 <= bytes_per_sec * 0x10_0000,
            ns >= 0,
    ;
    assert(bytes_per_sec * 0x10_0000 * ns == (bytes_per_sec * ns) * 0x10_0000)
        by (nonlinear_arith);
    assert(bytes_per_sec * 512 * ns == (bytes_per_sec * ns) * 512) by (nonlinear_arith);
}

/// The ticks between an arrival and the one before it.
pub open spec fn gap(arrivals: Seq<Arrival>, i: int) -> int {
    arrivals[i].now - arrivals[i - 1].now
}

/// Whether every gap of a sequence of packets of one size drains at least one packet.
pub open spec fn paced(start: Bucket, rate: Rate, arrivals: Seq<Arrival>, size: u32) -> bool {
    &&& forall|i: int| 0 <= i < arrivals.len() ==> (#[trigger] arrivals[i]).size == size
    &&& forall|i: int|
        0 < i < arrivals.len() ==> #[trigger] gap(arrivals, i) >= 0 && super::leaky::drained(
            rate.drain,
            gap(arrivals, i),
        ) >= size * UNITS_PER_BYTE
    &&& arrivals.len() > 0 ==> start.last_tick <= arrivals[0].now
}

/// A flow below the rate is never over: where every gap drains at least the packet that opened
/// it and the burst holds one packet, no packet is refused.
pub proof fn a_flow_below_the_rate_is_never_over(
    start: Bucket,
    rate: Rate,
    arrivals: Seq<Arrival>,
    size: u32,
    i: int,
)
    requires
        start.level == 0,
        paced(start, rate, arrivals, size),
        size <= rate.burst,
        0 <= i < arrivals.len(),
    ensures
        within(start, rate, arrivals, i),
{
    lemma_paced(start, rate, arrivals, size, i);
}

proof fn lemma_paced(start: Bucket, rate: Rate, arrivals: Seq<Arrival>, size: u32, i: int)
    requires
        start.level == 0,
        paced(start, rate, arrivals, size),
        size <= rate.burst,
        0 <= i < arrivals.len(),
    ensures
        within(start, rate, arrivals, i),
        after(start, rate, arrivals.take(i + 1)) == (Bucket {
            level: (size * UNITS_PER_BYTE) as u64,
            last_tick: arrivals[i].now,
        }),
    decreases i,
{
    assert(arrivals.take(i + 1).drop_last() =~= arrivals.take(i));
    assert(arrivals.take(i + 1).last() == arrivals[i]);
    if i > 0 {
        lemma_paced(start, rate, arrivals, size, i - 1);
        assert(gap(arrivals, i) >= 0);
    } else {
        assert(arrivals.take(0).len() == 0);
        lemma_drained_bounds(rate.drain, arrivals[0].now - start.last_tick);
    }
}

/// Packets at half the rate are paced: the gap that spaces packets of `size` bytes at half of
/// `bytes_per_sec` drains a whole packet, for rates of a kilobyte to a gigabyte a second and
/// packets of an Ethernet frame's payload or more.
pub proof fn a_flow_at_half_the_rate_is_paced(drain: Drain, bytes_per_sec: u64, size: u32)
    requires
        1_000 <= bytes_per_sec <= 1_000_000_000,
        size >= 64,
        drain.word() == bytes_per_sec * 0x10_0000 / 1_953_125,
    ensures
        super::leaky::drained(drain, 2 * size * 1_000_000_000 / (bytes_per_sec as int)) >= size
            * UNITS_PER_BYTE,
{
    let word = drain.word() as int;
    let rate = bytes_per_sec as int;
    let gap = 2 * size * 1_000_000_000 / rate;
    assert(word * 1_953_125 * 256 >= rate * 0x10_0000 * 255);
    assert(gap * rate * 128 >= size * 2_000_000_000 * 127) by (nonlinear_arith)
        requires
            gap == 2 * size * 1_000_000_000 / rate,
            1_000 <= rate <= 1_000_000_000,
            size >= 64,
    ;
    assert(word * gap >= size * 0x2000_0000) by (nonlinear_arith)
        requires
            word * 1_953_125 * 256 >= rate * 0x10_0000 * 255,
            gap * rate * 128 >= size * 2_000_000_000 * 127,
            rate > 0,
            size > 0,
            gap >= 0,
            word >= 0,
    {
        let a = word * 1_953_125 * 256;
        let b = rate * 0x10_0000 * 255;
        assert(a * (gap * 128) >= b * (gap * 128));
        assert(b * (gap * 128) == (gap * rate * 128) * (0x10_0000 * 255));
        assert(a * (gap * 128) == (word * gap) * (1_953_125 * 256 * 128));
    }
}

/// Whether arrivals of one size come in pairs whose gaps are `mean - jitter` and
/// `mean + jitter`.
pub open spec fn jittered(arrivals: Seq<Arrival>, size: u32, mean: int, jitter: int) -> bool {
    &&& forall|i: int| 0 <= i < arrivals.len() ==> (#[trigger] arrivals[i]).size == size
    &&& forall|i: int|
        0 < i < arrivals.len() ==> #[trigger] gap(arrivals, i) == (if i % 2 == 0 {
            mean - jitter
        } else {
            mean + jitter
        })
}

/// Metering accuracy: packets at the leak rate whose gaps jitter are not refused, although every
/// update rounds its drain down, over two thousand pairs against a burst of four packets.
pub proof fn jitter_at_the_leak_rate_does_not_accumulate_into_a_drop(
    start: Bucket,
    rate: Rate,
    arrivals: Seq<Arrival>,
    bytes_per_sec: u64,
    size: u32,
    mean: int,
    jitter: int,
    i: int,
)
    requires
        100_000 <= bytes_per_sec <= 10_000_000,
        64 <= size <= 1_500,
        0 <= jitter <= 64,
        mean == size * 1_000_000_000 / (bytes_per_sec as int),
        jitter < mean,
        rate.drain.word() == bytes_per_sec * 0x10_0000 / 1_953_125,
        rate.burst == 4 * size,
        start.level == 0,
        arrivals.len() <= 4_000,
        jittered(arrivals, size, mean, jitter),
        arrivals.len() > 0 ==> start.last_tick <= arrivals[0].now,
        0 <= i < arrivals.len(),
    ensures
        within(start, rate, arrivals, i),
{
    lemma_jitter_drains(rate.drain, bytes_per_sec, size, mean, jitter);
    lemma_jitter(start, rate, arrivals, size, mean, jitter, i);
}

/// What the two gaps of a pair drain, against two packets.
proof fn lemma_jitter_drains(drain: Drain, bytes_per_sec: u64, size: u32, mean: int, jitter: int)
    requires
        100_000 <= bytes_per_sec <= 10_000_000,
        64 <= size <= 1_500,
        0 <= jitter <= 64,
        mean == size * 1_000_000_000 / (bytes_per_sec as int),
        jitter < mean,
        drain.word() == bytes_per_sec * 0x10_0000 / 1_953_125,
    ensures
        super::leaky::drained(drain, mean - jitter) + super::leaky::drained(drain, mean + jitter)
            >= 2 * size * 512 - 42,
        super::leaky::drained(drain, mean - jitter) >= size * 512 - 349,
        super::leaky::drained(drain, mean + jitter) >= size * 512 - 20,
{
    let word = drain.word() as int;
    let rate = bytes_per_sec as int;
    assert(mean <= 15_000_000 && mean * rate >= size * 1_000_000_000 - rate) by (nonlinear_arith)
        requires
            mean == size * 1_000_000_000 / rate,
            100_000 <= rate,
            size <= 1_500,
    ;
    assert(word * mean >= size * 0x2000_0000 - 20_971_520) by (nonlinear_arith)
        requires
            word * 1_953_125 >= rate * 0x10_0000 - 1_953_125,
            mean * rate >= size * 1_000_000_000 - rate,
            0 < mean <= 15_000_000,
            0 < rate <= 10_000_000,
    {
        assert((word * mean) * 1_953_125 >= (mean * rate) * 0x10_0000 - 1_953_125 * mean);
    }
    assert(word * (mean - jitter) == word * mean - word * jitter) by (nonlinear_arith);
    assert(word * (mean + jitter) == word * mean + word * jitter) by (nonlinear_arith);
    assert(0 <= word * jitter <= 64 * 5_368_710) by (nonlinear_arith)
        requires
            0 <= word <= 5_368_710,
            0 <= jitter <= 64,
    ;
    assert(0 <= word * mean <= 5_368_710 * 15_000_000) by (nonlinear_arith)
        requires
            0 <= word <= 5_368_710,
            0 <= mean <= 15_000_000,
    ;
}

proof fn lemma_jitter(
    start: Bucket,
    rate: Rate,
    arrivals: Seq<Arrival>,
    size: u32,
    mean: int,
    jitter: int,
    i: int,
)
    requires
        64 <= size <= 1_500,
        0 <= jitter < mean,
        rate.burst == 4 * size,
        start.level == 0,
        arrivals.len() <= 4_000,
        jittered(arrivals, size, mean, jitter),
        arrivals.len() > 0 ==> start.last_tick <= arrivals[0].now,
        super::leaky::drained(rate.drain, mean - jitter) + super::leaky::drained(
            rate.drain,
            mean + jitter,
        ) >= 2 * size * 512 - 42,
        super::leaky::drained(rate.drain, mean - jitter) >= size * 512 - 349,
        super::leaky::drained(rate.drain, mean + jitter) >= size * 512 - 20,
        0 <= i < arrivals.len(),
    ensures
        within(start, rate, arrivals, i),
        after(start, rate, arrivals.take(i + 1)).last_tick == arrivals[i].now,
        ({
            let level = after(start, rate, arrivals.take(i + 1)).level as int;
            let cost = size * 512;
            if i % 2 == 1 {
                level <= cost + 42 * ((i + 1) / 2)
            } else {
                level <= cost || level <= 2 * cost + 42 * (i / 2) - super::leaky::drained(
                    rate.drain,
                    mean - jitter,
                )
            }
        }),
    decreases i,
{
    assert(arrivals.take(i + 1).drop_last() =~= arrivals.take(i));
    assert(arrivals.take(i + 1).last() == arrivals[i]);
    if i > 0 {
        lemma_jitter(start, rate, arrivals, size, mean, jitter, i - 1);
        assert(gap(arrivals, i) == (if i % 2 == 0 {
            mean - jitter
        } else {
            mean + jitter
        }));
    } else {
        assert(arrivals.take(0).len() == 0);
        lemma_drained_bounds(rate.drain, arrivals[0].now - start.last_tick);
    }
}

/// What one packet leaves of a level. The level after it, less the packet where it was let in, is
/// what the gap since the last reading left: never less than the old level minus the leak, and
/// above that by less than one unit, unless nothing is left. It holds of a refused packet as of
/// one let in. Levels are in 512ths of a byte and the leak in those over 2^20.
pub proof fn a_packet_finds_what_the_gap_left(bucket: Bucket, rate: Rate, now: u64, size: u32)
    requires
        bucket.level <= 0x800_0000_0000,
    ensures
        ({
            let after = super::leaky::charged(bucket, rate, now, size);
            let gap = if now > bucket.last_tick {
                now - bucket.last_tick
            } else {
                0
            };
            let found = if super::leaky::fits(bucket, rate, now, size) {
                after.level - size * 512
            } else {
                after.level as int
            };
            &&& 0 <= found <= bucket.level
            &&& found * 0x10_0000 + rate.drain.word() * gap >= bucket.level * 0x10_0000
            &&& found > 0 ==> found * 0x10_0000 + rate.drain.word() * gap < (bucket.level + 1)
                * 0x10_0000
            &&& after.last_tick == (if now > bucket.last_tick {
                now
            } else {
                bucket.last_tick
            })
        }),
{
    let gap = super::leaky::monus(now as int, bucket.last_tick as int);
    the_level_never_wraps(bucket, rate, now, size);
    lemma_drained_bounds(rate.drain, gap);
}

/// Who is let in. A packet is let in where the level it leaves is within the burst, and refused
/// where its bytes on top of the level it leaves would be past it. A burst counts up to 2^34
/// bytes.
pub proof fn a_packet_is_let_in_where_it_fits(bucket: Bucket, rate: Rate, now: u64, size: u32)
    requires
        bucket.level <= 0x800_0000_0000,
    ensures
        ({
            let level = super::leaky::charged(bucket, rate, now, size).level;
            let burst = if rate.burst < 0x4_0000_0000 {
                rate.burst as int
            } else {
                0x4_0000_0000
            };
            if super::leaky::fits(bucket, rate, now, size) {
                size * 512 <= level <= burst * 512
            } else {
                level + size * 512 > burst * 512
            }
        }),
{
    the_level_never_wraps(bucket, rate, now, size);
}

/// A refused packet does not delay the drain: what a later packet finds is what it would have
/// found without the refused one, up to one unit of rounding. Of an empty packet, the level it
/// leaves is the level it finds.
pub proof fn a_refused_packet_does_not_delay_the_drain(
    bucket: Bucket,
    rate: Rate,
    refused: u64,
    size: u32,
    now: u64,
)
    requires
        bucket.level <= 0x800_0000_0000,
        refused <= now,
        !super::leaky::fits(bucket, rate, refused, size),
    ensures
        ({
            let with = super::leaky::charged(
                super::leaky::charged(bucket, rate, refused, size),
                rate,
                now,
                0,
            );
            let without = super::leaky::charged(bucket, rate, now, 0);
            &&& without.level <= with.level <= without.level + 1
            &&& with.last_tick == without.last_tick
        }),
{
    let word = rate.drain.word() as int;
    let first = super::leaky::charged(bucket, rate, refused, size);
    let a = super::leaky::monus(refused as int, bucket.last_tick as int);
    let b = super::leaky::monus(now as int, first.last_tick as int);
    let whole = super::leaky::monus(now as int, bucket.last_tick as int);
    the_level_never_wraps(bucket, rate, refused, size);
    the_level_never_wraps(first, rate, now, 0);
    the_level_never_wraps(bucket, rate, now, 0);
    lemma_drained_bounds(rate.drain, a);
    lemma_drained_bounds(rate.drain, b);
    lemma_drained_bounds(rate.drain, whole);
    assert(word * whole == word * a + word * b) by (nonlinear_arith)
        requires
            whole == a + b,
    ;
    assert(word * a >= 0 && word * b >= 0) by (nonlinear_arith)
        requires
            word >= 0,
            a >= 0,
            b >= 0,
    ;
}

/// A bucket that is asked sooner leaks no more: of two packets of one size, the later one finds
/// no more than the earlier, and is let in wherever the earlier one is.
pub proof fn waiting_never_hurts(bucket: Bucket, rate: Rate, sooner: u64, later: u64, size: u32)
    requires
        bucket.level <= 0x800_0000_0000,
        sooner <= later,
    ensures
        super::leaky::fits(bucket, rate, sooner, size) ==> super::leaky::fits(
            bucket,
            rate,
            later,
            size,
        ),
        super::leaky::charged(bucket, rate, later, 0).level <= super::leaky::charged(
            bucket,
            rate,
            sooner,
            0,
        ).level,
{
    the_level_never_wraps(bucket, rate, sooner, 0);
    the_level_never_wraps(bucket, rate, later, 0);
    an_idle_bucket_drains_to_zero(bucket, rate, sooner, later);
}

/// Whether packets of one size keep coming so fast that no gap drains more than one of them,
/// against a burst of two or more, from the moment the bucket was last read.
pub open spec fn flooded(start: Bucket, rate: Rate, arrivals: Seq<Arrival>, size: u32) -> bool {
    &&& start.level <= rate.burst * 512
    &&& 2 * size <= rate.burst <= 0x4_0000_0000
    &&& arrivals.len() > 0 ==> arrivals[0].now == start.last_tick
    &&& forall|i: int| 0 <= i < arrivals.len() ==> (#[trigger] arrivals[i]).size == size
    &&& forall|i: int|
        0 < i < arrivals.len() ==> #[trigger] gap(arrivals, i) >= 0 && rate.drain.word() * gap(
            arrivals,
            i,
        ) <= size * 0x2000_0000
}

/// Under a flood a bucket keeps admitting at its rate. Up to a refused packet, the bytes let
/// through, with what the bucket held before, are at least what the leak let out plus the burst,
/// less one packet and one unit of rounding an arrival: the packets refused on the way cost
/// nothing.
pub proof fn a_flood_still_gets_its_rate(
    start: Bucket,
    rate: Rate,
    arrivals: Seq<Arrival>,
    size: u32,
)
    requires
        flooded(start, rate, arrivals, size),
        arrivals.len() > 0,
        !within(start, rate, arrivals, arrivals.len() - 1),
    ensures
        start.level * 0x10_0000 + accepted(start, rate, arrivals) * 0x2000_0000 + arrivals.len()
            * 0x10_0000 + size * 0x2000_0000 >= rate.drain.word() * (arrivals.last().now
            - start.last_tick) + rate.burst * 0x2000_0000,
{
    assert(arrivals.take(arrivals.len() - 1) =~= arrivals.drop_last());
    lemma_flood(start, rate, arrivals, size);
}

proof fn lemma_flood(start: Bucket, rate: Rate, arrivals: Seq<Arrival>, size: u32)
    requires
        flooded(start, rate, arrivals, size),
        arrivals.len() > 0,
    ensures
        ({
            let end = after(start, rate, arrivals);
            let last = arrivals.len() - 1;
            &&& end.last_tick == arrivals[last].now
            &&& size * 512 <= end.level <= rate.burst * 512
            &&& !super::leaky::fits(
                after(start, rate, arrivals.drop_last()),
                rate,
                arrivals[last].now,
                size,
            ) ==> end.level > rate.burst * 512 - size * 512
            &&& start.level * 0x10_0000 + accepted(start, rate, arrivals) * 0x2000_0000
                + arrivals.len() * 0x10_0000 >= rate.drain.word() * (arrivals[last].now
                - start.last_tick) + end.level * 0x10_0000
        }),
    decreases arrivals.len(),
{
    let before = arrivals.drop_last();
    let last = arrivals.last();
    let word = rate.drain.word() as int;
    if before.len() == 0 {
        assert(after(start, rate, before) == start);
        assert(accepted(start, rate, before) == 0);
        assert(word * 0 == 0);
        the_level_never_wraps(start, rate, last.now, last.size);
        assert(super::leaky::leaked(start, rate, last.now) == start.level);
    } else {
        let n = arrivals.len() - 1;
        assert forall|i: int| 0 < i < before.len() implies #[trigger] gap(before, i) >= 0 && word
            * gap(before, i) <= size * 0x2000_0000 by {
            assert(gap(arrivals, i) == gap(before, i));
        }
        lemma_flood(start, rate, before, size);
        let mid = after(start, rate, before);
        let dt = gap(arrivals, n);
        assert(mid.last_tick + dt == last.now);
        lemma_drained_bounds(rate.drain, dt);
        the_level_never_wraps(mid, rate, last.now, last.size);
        assert(super::leaky::drained(rate.drain, dt) <= size * 512 <= mid.level);
        assert((super::leaky::drained(rate.drain, dt) + 1) * 0x10_0000 > word * dt);
        assert(super::leaky::leaked(mid, rate, last.now) == mid.level - super::leaky::drained(
            rate.drain,
            dt,
        ));
        assert(word * (last.now - start.last_tick) == word * (mid.last_tick - start.last_tick)
            + word * dt) by (nonlinear_arith)
            requires
                mid.last_tick + dt == last.now,
        ;
    }
}

/// A word for nanoseconds is the rate: over a second it stands for the configured bytes, in
/// 512ths over 2^20, and falls short of them by less than one part of the word a nanosecond.
pub proof fn a_nanosecond_word_is_the_rate(bytes_per_sec: u64)
    ensures
        ({
            let word = super::leaky::nanosecond_word(bytes_per_sec);
            &&& 0 <= word <= u64::MAX
            &&& word * 1_000_000_000 <= bytes_per_sec * 0x2000_0000
            &&& (word + 1) * 1_000_000_000 > bytes_per_sec * 0x2000_0000
        }),
{
}

/// A word for jiffies is the rate: over a second of `hz` ticks it stands for no more than the
/// configured bytes, and for less than one part in the scale below them. A rate too large for the
/// word is the largest word, never a wrapped one.
pub proof fn a_jiffy_word_is_the_rate(bytes_per_sec: u64, hz: u32)
    requires
        hz > 0,
    ensures
        ({
            let word = super::leaky::jiffy_word(bytes_per_sec, hz);
            &&& 0 <= word <= u64::MAX
            &&& word * hz <= bytes_per_sec * 0x2000_0000
            &&& word < u64::MAX ==> word * hz + bytes_per_sec * hz >= bytes_per_sec * 0x2000_0000
            &&& bytes_per_sec * 0x2000_0000 < u64::MAX ==> word < u64::MAX
        }),
{
    let scale = 0x2000_0000int / hz as int;
    let word = super::leaky::jiffy_word(bytes_per_sec, hz);
    assert(0 <= scale && scale * hz <= 0x2000_0000 < (scale + 1) * hz) by (nonlinear_arith)
        requires
            scale == 0x2000_0000int / hz as int,
            hz > 0,
    ;
    assert(scale <= 0x2000_0000) by (nonlinear_arith)
        requires
            scale * hz <= 0x2000_0000,
            0 <= scale,
            hz >= 1,
    ;
    let product = bytes_per_sec * scale;
    assert(0 <= product <= bytes_per_sec * 0x2000_0000) by (nonlinear_arith)
        requires
            product == bytes_per_sec * scale,
            0 <= scale <= 0x2000_0000,
            bytes_per_sec >= 0,
    ;
    assert(product * hz == bytes_per_sec * (scale * hz)) by (nonlinear_arith)
        requires
            product == bytes_per_sec * scale,
    ;
    assert(bytes_per_sec * (scale * hz) <= bytes_per_sec * 0x2000_0000) by (nonlinear_arith)
        requires
            scale * hz <= 0x2000_0000,
            bytes_per_sec >= 0,
    ;
    assert(word * hz <= product * hz) by (nonlinear_arith)
        requires
            word <= product,
            hz > 0,
    ;
    assert(bytes_per_sec * (scale * hz) + bytes_per_sec * hz >= bytes_per_sec * 0x2000_0000)
        by (nonlinear_arith)
        requires
            0x2000_0000 < (scale + 1) * hz,
            bytes_per_sec >= 0,
    {
        assert((scale + 1) * hz == scale * hz + hz);
        assert(bytes_per_sec * (scale * hz) + bytes_per_sec * hz == bytes_per_sec * (scale * hz
            + hz));
    }
}

/// A clock without a rate is one that ticks once a second.
pub proof fn a_clock_without_a_rate_ticks_once_a_second(bytes_per_sec: u64)
    ensures
        super::leaky::jiffy_word(bytes_per_sec, 0) == super::leaky::jiffy_word(bytes_per_sec, 1),
{
}

} // verus!
