//! One leaky bucket.

use vstd::prelude::*;

verus! {

/// One byte, in the sub-byte units a bucket level is counted in.
///
/// The drain of one update rounds down, and the shortfall is charged to the burst. In whole
/// bytes that shortfall reaches one byte per packet; sub-byte units divide it by the scale.
pub const UNITS_PER_BYTE: u64 = 512;

/// Fraction bits of a [`Drain`] word: the update is one multiply and one shift by this many.
pub const DRAIN_FRACTION_BITS: u32 = 20;

/// Nanoseconds per drained unit at one byte per second: `10^9 / UNITS_PER_BYTE`.
const NS_PER_UNIT: u64 = 1_953_125;

/// One, at the scale of a [`Drain`] word.
const DRAIN_ONE: u64 = 0x10_0000;

/// Largest burst honoured, in bytes; a larger one is clamped to it.
///
/// A burst above 16 GiB is not a rate limit. Clamping it closes the arithmetic: a saturated
/// drain still empties every level that a bucket can reach.
pub const BURST_MAX: u64 = 0x4_0000_0000;

/// A leak, and the burst it tolerates, in bytes. A zero drain and a zero burst are both
/// reachable configurations, and a zero burst refuses every packet that carries a byte.
#[derive(Clone, Copy, PartialEq, Eq, Debug, Structural)]
pub struct Rate {
    pub drain: Drain,
    pub burst: u64,
}

/// How fast one bucket leaks, against the clock [`Bucket::charge`] is handed: bucket units per
/// tick of that clock, with [`DRAIN_FRACTION_BITS`] of fraction.
///
/// A type of its own, so that none is built without naming the tick it is built for.
#[derive(Clone, Copy, PartialEq, Eq, Debug, Structural)]
pub struct Drain(u64);

/// The smaller of two numbers.
pub open spec fn min(a: int, b: int) -> int {
    if a < b {
        a
    } else {
        b
    }
}

/// `a - b`, or zero where that is negative.
pub open spec fn monus(a: int, b: int) -> int {
    if a > b {
        a - b
    } else {
        0
    }
}

/// The later of two clock readings.
pub open spec fn later(a: u64, b: u64) -> u64 {
    if a > b {
        a
    } else {
        b
    }
}

/// The scaled word of a rate in bytes per second, for a clock that counts jiffies.
pub open spec fn jiffy_word(bytes_per_sec: u64, hz: u32) -> int {
    min(
        bytes_per_sec * (0x2000_0000int / (if hz == 0 {
            1
        } else {
            hz as int
        })),
        u64::MAX as int,
    )
}

/// The scaled word of a rate in bytes per second, for a clock that counts nanoseconds.
pub open spec fn nanosecond_word(bytes_per_sec: u64) -> int {
    bytes_per_sec * 0x10_0000 / 1_953_125
}

impl Drain {
    /// The scaled word itself.
    pub closed spec fn word(self) -> u64 {
        self.0
    }

    /// Never leaks: a bucket that does not drain admits exactly its burst whatever the clock
    /// does.
    pub fn none() -> (drain: Self)
        ensures
            drain.word() == 0,
    {
        Drain(0)
    }

    /// From bytes per second, what an operator configures, for a `charge` whose clock counts
    /// jiffies, `hz` to the second. Saturating, because the unconfigured budget is `u64::MAX`
    /// and scaling it must not wrap into a strict one. A rate of zero ticks is read as one.
    pub fn per_jiffy(bytes_per_sec: u64, hz: u32) -> (drain: Self)
        ensures
            drain.word() == jiffy_word(bytes_per_sec, hz),
            drain.word() == min(
                bytes_per_sec * (0x2000_0000int / (if hz == 0 {
                    1
                } else {
                    hz as int
                })),
                u64::MAX as int,
            ),
    {
        let hz: u64 = if hz == 0 {
            1
        } else {
            hz as u64
        };
        Drain(saturating_mul(bytes_per_sec, UNITS_PER_BYTE * DRAIN_ONE / hz))
    }

    /// From bytes per second, for a `charge` whose clock counts nanoseconds.
    pub fn per_nanosecond(bytes_per_sec: u64) -> (drain: Self)
        ensures
            drain.word() == nanosecond_word(bytes_per_sec),
            drain.word() == bytes_per_sec * 0x10_0000 / 1_953_125,
    {
        let whole: u64 = bytes_per_sec / NS_PER_UNIT;
        let rest: u64 = bytes_per_sec % NS_PER_UNIT;
        proof {
            assert(bytes_per_sec * 0x10_0000 == 1_953_125 * (whole * 0x10_0000) + rest * 0x10_0000);
        }
        Drain(whole * DRAIN_ONE + rest * DRAIN_ONE / NS_PER_UNIT)
    }

    /// A drain from the scaled word, as it crosses into the `.rodata` of the program.
    pub fn from_raw(raw: u64) -> (drain: Self)
        ensures
            drain.word() == raw,
    {
        Drain(raw)
    }

    /// The scaled word itself.
    pub fn into_raw(self) -> (raw: u64)
        ensures
            raw == self.word(),
    {
        self.0
    }
}

/// Level of one leaky bucket and the clock reading it was last drained at.
#[derive(Clone, Copy, PartialEq, Eq, Debug, Structural)]
pub struct Bucket {
    /// In units of `1 / UNITS_PER_BYTE` byte. Never in bytes.
    pub level: u64,
    /// The clock reading of the last update, in whatever tick the [`Drain`] was built
    /// against. Jiffies in the program.
    pub last_tick: u64,
}

/// Whether the packet fit under the burst. `Over` means the bucket was left as the drain found
/// it and this packet was not charged to it.
#[derive(Clone, Copy, PartialEq, Eq, Debug, Structural)]
#[must_use]
pub enum Charge {
    Within,
    Over,
}

/// `a * b`, saturating, computed in halves so that nothing asks for a 128-bit product.
pub fn saturating_mul(a: u64, b: u64) -> (product: u64)
    ensures
        product == min(a * b, u64::MAX as int),
{
    let a_hi: u64 = a >> 32;
    let a_lo: u64 = a & 0xffff_ffff;
    let b_hi: u64 = b >> 32;
    let b_lo: u64 = b & 0xffff_ffff;
    proof {
        lemma_halves(a);
        lemma_halves(b);
        assert(a * b == a_hi * b_hi * 0x1_0000_0000_0000_0000 + (a_hi * b_lo + a_lo * b_hi)
            * 0x1_0000_0000 + a_lo * b_lo) by (nonlinear_arith)
            requires
                a == a_hi * 0x1_0000_0000 + a_lo,
                b == b_hi * 0x1_0000_0000 + b_lo,
        ;
        assert(0 <= a_hi * b_lo <= 0xffff_ffff * 0xffff_ffff && 0 <= a_lo * b_hi <= 0xffff_ffff
            * 0xffff_ffff && 0 <= a_lo * b_lo <= 0xffff_ffff * 0xffff_ffff) by (nonlinear_arith)
            requires
                a_hi <= 0xffff_ffff,
                a_lo <= 0xffff_ffff,
                b_hi <= 0xffff_ffff,
                b_lo <= 0xffff_ffff,
        ;
        assert(a_hi * b_hi >= 0 && (a_hi != 0 && b_hi != 0 ==> a_hi * b_hi >= 1)
            && (a_hi == 0 || b_hi == 0 ==> a_hi * b_hi == 0) && (a_hi == 0 ==> a_hi * b_lo == 0)
            && (b_hi == 0 ==> a_lo * b_hi == 0)) by (nonlinear_arith)
            requires
                a_hi >= 0,
                b_hi >= 0,
        ;
    }
    // The product of the high halves weighs 2^64, so one bit in each is already too much.
    if a_hi != 0 && b_hi != 0 {
        return u64::MAX;
    }
    // One of the two terms is therefore zero. The sum weighs 2^32, so it has to fit in a half.
    let mid: u64 = a_hi * b_lo + a_lo * b_hi;
    if mid > 0xffff_ffff {
        return u64::MAX;
    }
    assert(mid << 32u64 == mid * 0x1_0000_0000) by (bit_vector)
        requires
            mid <= 0xffff_ffff,
    ;
    match (a_lo * b_lo).checked_add(mid << 32) {
        Some(product) => product,
        None => u64::MAX,
    }
}

proof fn lemma_halves(word: u64)
    by (bit_vector)
    ensures
        word == (word >> 32) * 0x1_0000_0000 + (word & 0xffff_ffff),
        word >> 32 <= 0xffff_ffff,
        word & 0xffff_ffff <= 0xffff_ffff,
{
}

/// The units a gap of `ticks` drains: the product of the drain word and the gap, saturated, with
/// the fraction dropped.
pub open spec fn drained(drain: Drain, ticks: int) -> int {
    min(drain.word() * ticks, u64::MAX as int) / 0x10_0000
}

/// The level above which a rate refuses, in units.
pub open spec fn ceiling(rate: Rate) -> int {
    min(rate.burst as int, BURST_MAX as int) * UNITS_PER_BYTE
}

/// What is left of a level at `now`, before the packet is charged.
pub open spec fn leaked(bucket: Bucket, rate: Rate, now: u64) -> int {
    monus(bucket.level as int, drained(rate.drain, monus(now as int, bucket.last_tick as int)))
}

/// Whether a packet fits under the burst.
pub open spec fn fits(bucket: Bucket, rate: Rate, now: u64, size: u32) -> bool {
    leaked(bucket, rate, now) + size * UNITS_PER_BYTE <= ceiling(rate)
}

/// The bucket one packet leaves behind: drained for the time since the last one, and charged
/// with this one where it fits. The tick is a high-water mark.
pub open spec fn charged(bucket: Bucket, rate: Rate, now: u64, size: u32) -> Bucket {
    Bucket {
        level: (leaked(bucket, rate, now) + (if fits(bucket, rate, now, size) {
            size * UNITS_PER_BYTE
        } else {
            0
        })) as u64,
        last_tick: later(bucket.last_tick, now),
    }
}

impl Bucket {
    /// Drains for the time elapsed since the last packet, then charges this one if the result
    /// stays under the burst.
    ///
    /// An over-budget packet is deliberately not charged: charging it would pin the level at
    /// the ceiling for as long as a flood lasts. A clock reading from the past is a gap of zero.
    /// `now` is in the ticks `rate.drain` was built against.
    pub fn charge(&mut self, rate: Rate, now: u64, size: u32) -> (charge: Charge)
        requires
            leaked(*old(self), rate, now) + size * UNITS_PER_BYTE <= u64::MAX,
        ensures
            *final(self) == charged(*old(self), rate, now, size),
            charge == (if fits(*old(self), rate, now, size) {
                Charge::Within
            } else {
                Charge::Over
            }),
    {
        let dt: u64 = now.saturating_sub(self.last_tick);
        if now > self.last_tick {
            self.last_tick = now;
        }
        let product: u64 = saturating_mul(rate.drain.into_raw(), dt);
        assert(product >> 20u64 == product / 0x10_0000) by (bit_vector);
        let drained: u64 = product >> DRAIN_FRACTION_BITS;
        self.level = self.level.saturating_sub(drained);
        let burst: u64 = if rate.burst < BURST_MAX {
            rate.burst
        } else {
            BURST_MAX
        };
        let ceiling: u64 = burst * UNITS_PER_BYTE;
        let cost: u64 = size as u64 * UNITS_PER_BYTE;
        if self.level + cost > ceiling {
            Charge::Over
        } else {
            self.level += cost;
            Charge::Within
        }
    }
}

} // verus!
