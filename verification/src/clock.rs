//! `CONFIG_HZ`, measured rather than assumed.
//!
//! The kernel exports neither the rate of the jiffy counter nor the counter. What is reachable is
//! the counter itself, through a program that reads it. So the rate is a measurement: two
//! readings a known interval apart.

use vstd::prelude::*;

use crate::ttl::Clock;

verus! {

/// The rates the kernel can be built with. A reading near none of them is a bad measurement
/// rather than an exotic kernel.
pub const KNOWN_HZ: [u32; 4] = [100, 250, 300, 1000];

/// How far a reading may sit from the nearest of the four, in percent.
pub const TOLERANCE_PERCENT: u64 = 10;

/// How far a reading is from a rate.
pub open spec fn distance(hz: u32, raw: u64) -> int {
    if hz >= raw {
        hz - raw
    } else {
        raw - hz
    }
}

/// The nearest of the four rates to a reading; the lower one where two are as near.
pub open spec fn nearest(raw: u64) -> u32 {
    if distance(100, raw) <= distance(250, raw) {
        100
    } else if distance(250, raw) <= distance(300, raw) {
        250
    } else if distance(300, raw) <= distance(1000, raw) {
        300
    } else {
        1000
    }
}

/// The rate a reading names: the nearest, where the reading is within the tolerance of it.
pub open spec fn named_rate(raw: u64) -> Option<u32> {
    if distance(nearest(raw), raw) * 100 <= nearest(raw) * TOLERANCE_PERCENT {
        Some(nearest(raw))
    } else {
        None
    }
}

/// The rate the kernel was built with, or `None` when the reading names none of them.
pub fn nearest_hz(raw: u64) -> (hz: Option<u32>)
    ensures
        hz == named_rate(raw),
{
    let mut best: u32 = KNOWN_HZ[0];
    let mut i: usize = 1;
    while i < 4
        invariant
            1 <= i <= 4,
            i == 1 ==> best == 100,
            i == 2 ==> best == (if distance(100, raw) <= distance(250, raw) {
                100
            } else {
                250u32
            }),
            i == 3 ==> best == (if distance(100, raw) <= distance(250, raw) {
                100
            } else if distance(250, raw) <= distance(300, raw) {
                250
            } else {
                300u32
            }),
            i == 4 ==> best == nearest(raw),
        decreases 4 - i,
    {
        let candidate: u32 = KNOWN_HZ[i];
        if away(candidate, raw) < away(best, raw) {
            best = candidate;
        }
        i += 1;
    }
    // Every known rate is a multiple of ten, so the percentage is exact.
    if away(best, raw) <= (best as u64 * TOLERANCE_PERCENT) / 100 {
        Some(best)
    } else {
        None
    }
}

fn away(hz: u32, raw: u64) -> (gap: u64)
    ensures
        gap == distance(hz, raw),
{
    if hz as u64 >= raw {
        hz as u64 - raw
    } else {
        raw - hz as u64
    }
}

/// A reading that names a rate is within a tenth of it, and of no other rate is it nearer.
pub proof fn a_named_rate_is_the_nearest(raw: u64, other: int)
    requires
        named_rate(raw) is Some,
        0 <= other < 4,
    ensures
        ({
            let hz = named_rate(raw)->0;
            &&& exists|i: int| 0 <= i < 4 && #[trigger] KNOWN_HZ@[i] == hz
            &&& distance(hz, raw) * 10 <= hz
            &&& distance(hz, raw) <= distance(KNOWN_HZ@[other], raw)
        }),
{
    let hz = named_rate(raw)->0;
    assert(KNOWN_HZ@[0] == 100 && KNOWN_HZ@[1] == 250 && KNOWN_HZ@[2] == 300 && KNOWN_HZ@[3]
        == 1000);
    if hz == 100 {
        assert(KNOWN_HZ@[0] == hz);
    } else if hz == 250 {
        assert(KNOWN_HZ@[1] == hz);
    } else if hz == 300 {
        assert(KNOWN_HZ@[2] == hz);
    } else {
        assert(KNOWN_HZ@[3] == hz);
    }
}

/// Why two readings of the counter give no clock.
#[derive(Clone, Copy, PartialEq, Eq, Debug, Structural)]
pub enum Miscalibration {
    /// The counter did not move.
    Stopped,
    /// The counter ran at a rate the kernel is not built with.
    Unrecognised { raw: u64 },
}

/// The rate two readings give, in ticks a second, in the 64 bits of a rate.
pub open spec fn measured_rate(ticks: int, elapsed_ns: int) -> u64 {
    (ticks * 1_000_000_000 / elapsed_ns % 0x1_0000_0000_0000_0000) as u64
}

/// The clock two readings of the counter give.
pub open spec fn calibrated(first: u64, second: u64, elapsed_ns: u64) -> Result<
    Clock,
    Miscalibration,
> {
    if second <= first {
        Err(Miscalibration::Stopped)
    } else {
        let raw = measured_rate(second - first, elapsed_ns as int);
        match named_rate(raw) {
            Some(hz) => Ok(Clock { hz, jiffies: second }),
            None => Err(Miscalibration::Unrecognised { raw }),
        }
    }
}

/// The clock two readings of the counter give, `elapsed_ns` nanoseconds apart. A counter that ran
/// backwards did not move.
pub fn calibrate(first: u64, second: u64, elapsed_ns: u64) -> (clock: Result<Clock, Miscalibration>)
    requires
        elapsed_ns > 0,
    ensures
        clock == calibrated(first, second, elapsed_ns),
        clock == (if second <= first {
            Err::<Clock, Miscalibration>(Miscalibration::Stopped)
        } else {
            let raw = measured_rate(second - first, elapsed_ns as int);
            match named_rate(raw) {
                Some(hz) => Ok(Clock { hz, jiffies: second }),
                None => Err(Miscalibration::Unrecognised { raw }),
            }
        }),
{
    let ticks: u64 = second.saturating_sub(first);
    if ticks == 0 {
        return Err(Miscalibration::Stopped);
    }
    let product: u128 = ticks as u128 * 1_000_000_000;
    let rate: u128 = product / elapsed_ns as u128;
    let raw: u64 = (rate % 0x1_0000_0000_0000_0000) as u64;
    match nearest_hz(raw) {
        Some(hz) => Ok(Clock { hz, jiffies: second }),
        None => Err(Miscalibration::Unrecognised { raw }),
    }
}

/// The measured rate is the ticks over the time, in whole ticks a second, wherever it fits the
/// word.
pub proof fn the_measured_rate_is_ticks_over_time(ticks: int, elapsed_ns: int)
    requires
        0 <= ticks,
        0 < elapsed_ns,
        ticks * 1_000_000_000 < 0x1_0000_0000_0000_0000 * elapsed_ns,
    ensures
        measured_rate(ticks, elapsed_ns) * elapsed_ns <= ticks * 1_000_000_000 < (measured_rate(
            ticks,
            elapsed_ns,
        ) + 1) * elapsed_ns,
{
    let product = ticks * 1_000_000_000;
    let rate = product / elapsed_ns;
    assert(0 <= rate < 0x1_0000_0000_0000_0000 && rate * elapsed_ns <= product < (rate + 1)
        * elapsed_ns) by (nonlinear_arith)
        requires
            rate == product / elapsed_ns,
            0 <= product < 0x1_0000_0000_0000_0000 * elapsed_ns,
            0 < elapsed_ns,
    ;
}

/// A reading names a rate wherever it is within a tenth of one of the four, and only there.
pub proof fn a_reading_within_a_tenth_is_named(raw: u64)
    ensures
        named_rate(raw) is Some <==> (90 <= raw <= 110 || 225 <= raw <= 330 || 900 <= raw <= 1100),
        90 <= raw <= 110 ==> named_rate(raw) == Some(100u32),
        225 <= raw <= 275 ==> named_rate(raw) == Some(250u32),
        276 <= raw <= 330 ==> named_rate(raw) == Some(300u32),
        900 <= raw <= 1100 ==> named_rate(raw) == Some(1000u32),
{
}

/// A counter that ticks `hz` times a second is named `hz`, over any interval of a ninth of a
/// second or more, although the two readings cut off a tick at either end. The clock reads what
/// the counter last read.
pub proof fn a_steady_counter_is_named(first: u64, second: u64, elapsed_ns: u64, hz: u32)
    requires
        hz == 100 || hz == 250 || hz == 300 || hz == 1000,
        elapsed_ns * 9 >= 1_000_000_000,
        first <= second,
        -1_000_000_000 <= (second - first) * 1_000_000_000 - hz * elapsed_ns <= 1_000_000_000,
    ensures
        calibrated(first, second, elapsed_ns) == Ok::<Clock, Miscalibration>(
            Clock { hz, jiffies: second },
        ),
{
    let ticks = second - first;
    let elapsed = elapsed_ns as int;
    assert(hz * elapsed >= 100 * elapsed && hz * elapsed <= 1000 * elapsed) by (nonlinear_arith)
        requires
            100 <= hz <= 1000,
            elapsed >= 0,
    ;
    assert(ticks > 0);
    the_measured_rate_is_ticks_over_time(ticks, elapsed);
    let raw = measured_rate(ticks, elapsed) as int;
    assert(hz - 10 <= raw <= hz + 9) by (nonlinear_arith)
        requires
            raw * elapsed <= hz * elapsed + 1_000_000_000,
            hz * elapsed - 1_000_000_000 < (raw + 1) * elapsed,
            elapsed * 9 >= 1_000_000_000,
    ;
}

/// What two readings can give. A counter that did not advance gives no clock; one that did gives
/// a clock at the second reading, or the rate that no kernel is built with.
pub proof fn what_a_calibration_gives(first: u64, second: u64, elapsed_ns: u64)
    requires
        elapsed_ns > 0,
    ensures
        second <= first <==> calibrated(first, second, elapsed_ns) == Err::<Clock, Miscalibration>(
            Miscalibration::Stopped,
        ),
        calibrated(first, second, elapsed_ns) matches Ok(clock) ==> clock.jiffies == second && (
        clock.hz == 100 || clock.hz == 250 || clock.hz == 300 || clock.hz == 1000),
        calibrated(first, second, elapsed_ns) matches Err(Miscalibration::Unrecognised { raw }) ==> (
        second - first) * 1_000_000_000 < 0x1_0000_0000_0000_0000 * elapsed_ns ==> raw * elapsed_ns
            <= (second - first) * 1_000_000_000 < (raw + 1) * elapsed_ns,
{
    if second > first && (second - first) * 1_000_000_000 < 0x1_0000_0000_0000_0000 * elapsed_ns {
        the_measured_rate_is_ticks_over_time(second - first, elapsed_ns as int);
    }
}

} // verus!
