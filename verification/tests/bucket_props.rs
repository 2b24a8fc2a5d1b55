//! The leaky bucket and the bank, on generated arrivals.

use lorica::{
    BankLayout, Bucket, Charge, Drain, Rate, BANK_SLOT_BYTES, BURST_MAX, DEFAULT_BANK_BUCKETS,
    DRAIN_FRACTION_BITS, SHARE_SCALE, UNITS_PER_BYTE,
};

const CASES: usize = 256;
const NS_PER_SEC: u128 = 1_000_000_000;

/// A stream of words that a seed determines.
struct Words(u64);

impl Words {
    fn next(&mut self) -> u64 {
        self.0 = self.0.wrapping_add(0x9e37_79b9_7f4a_7c15);
        let mut word = self.0;
        word = (word ^ (word >> 30)).wrapping_mul(0xbf58_476d_1ce4_e5b9);
        word = (word ^ (word >> 27)).wrapping_mul(0x94d0_49bb_1331_11eb);
        word ^ (word >> 31)
    }

    /// A word from `low` on and below `high`.
    fn within(&mut self, low: u64, high: u64) -> u64 {
        low + self.next() % (high - low)
    }
}

fn empty() -> Bucket {
    Bucket {
        level: 0,
        last_tick: 0,
    }
}

/// A flow at half the leak rate, with room for four packets in the burst.
#[test]
fn a_flow_below_the_rate_is_never_over() {
    let mut words = Words(1);
    for _ in 0..CASES {
        let per_sec = words.within(1_000, 1_000_000_000);
        let size = words.within(64, 1_500) as u32;
        let packets = words.within(1, 512);
        let gap_ns = 2 * u64::from(size) * 1_000_000_000 / per_sec;
        let rate = Rate { drain: Drain::per_nanosecond(per_sec), burst: 4 * u64::from(size) };
        let mut bucket = empty();
        let mut now = 1_000_000_000u64;
        for _ in 0..packets {
            assert_eq!(bucket.charge(rate, now, size), Charge::Within);
            now += gap_ns;
        }
    }
}

/// Every update rounds its drain down, and the shortfall must not eat the burst of a flow that
/// keeps to its rate.
#[test]
fn jitter_at_the_leak_rate_does_not_accumulate_into_a_drop() {
    let mut words = Words(2);
    for _ in 0..CASES {
        let per_sec = words.within(100_000, 10_000_000);
        let size = words.within(64, 1_500) as u32;
        let jitter = words.within(1, 64);
        let pairs = words.within(1, 2_000);
        let mean = u64::from(size) * 1_000_000_000 / per_sec;
        if mean <= jitter {
            continue;
        }
        let rate = Rate { drain: Drain::per_nanosecond(per_sec), burst: 4 * u64::from(size) };
        let mut bucket = empty();
        let mut now = 1_000_000_000u64;
        for _ in 0..pairs {
            for gap in [mean - jitter, mean + jitter] {
                now += gap;
                assert_eq!(bucket.charge(rate, now, size), Charge::Within);
            }
        }
    }
}

/// Conservation, over a window that starts with an enormous gap.
#[test]
fn accepted_bytes_stay_under_rho_t_plus_burst() {
    let mut words = Words(3);
    for _ in 0..CASES {
        let per_sec = words.within(0, 10_000_000_000);
        let burst = words.within(0, 1_000_000);
        let arrivals = words.within(1, 2_000);
        let rate = Rate { drain: Drain::per_nanosecond(per_sec), burst };
        let mut bucket = empty();
        let start = 1u64 << 40;
        let mut now = start;
        let mut accepted = 0u128;
        for _ in 0..arrivals {
            now += words.within(0, 2_000_000);
            let size = words.within(0, 9_000) as u32;
            if bucket.charge(rate, now, size) == Charge::Within {
                accepted += u128::from(size);
            }
        }
        let elapsed = u128::from(now - start);
        let bound = u128::from(per_sec) * elapsed / NS_PER_SEC + u128::from(burst.min(BURST_MAX));
        assert!(
            accepted <= bound,
            "accepted {accepted} bytes over {elapsed} ns, bound {bound}"
        );
    }
}

/// Gaps of zero and of the whole clock range, at rates and sizes up to the type maximum.
#[test]
fn extreme_gaps_never_wrap_the_level() {
    let mut words = Words(4);
    for _ in 0..CASES {
        let per_sec = words.next();
        let burst = words.next();
        let size = words.next() as u32;
        let rate = Rate { drain: Drain::per_nanosecond(per_sec), burst };
        let mut bucket = empty();
        for _ in 0..words.within(1, 64) {
            let now = match words.within(0, 4) {
                0 => 0,
                1 => u64::MAX,
                2 => 1,
                _ => words.next(),
            };
            let _ = bucket.charge(rate, now, size);
            assert!(bucket.level <= BURST_MAX * UNITS_PER_BYTE);
        }
    }
}

/// A reading that does not advance, or goes backwards, is a gap of zero.
#[test]
fn a_clock_that_does_not_advance_drains_nothing() {
    let mut words = Words(5);
    for _ in 0..CASES {
        let per_sec = words.within(1, 10_000_000_000);
        let burst = words.within(1_000, 1_000_000);
        let now = words.within(1_000_000, u64::MAX / 2);
        let back = words.within(0, 1_000_000);
        let rate = Rate { drain: Drain::per_nanosecond(per_sec), burst };
        let mut bucket = Bucket { level: 0, last_tick: now };
        assert_eq!(bucket.charge(rate, now, 100), Charge::Within);
        let level = bucket.level;

        assert_eq!(bucket.charge(rate, now - back, 100), Charge::Within);
        assert_eq!(bucket.level, level + 100 * UNITS_PER_BYTE);
        assert_eq!(bucket.last_tick, now);
    }
}

/// The floor, over every share including zero and shares above the scale.
#[test]
fn a_shard_never_falls_below_its_share_of_the_rate() {
    let mut words = Words(6);
    for _ in 0..CASES {
        let buckets = words.next() as u32;
        let shards = words.within(0, 4_096) as u32;
        let drain = words.within(0, 10_000_000_000);
        let burst = words.within(0, 1_000_000_000);
        let share = words.within(0, 2 * u64::from(SHARE_SCALE)) as u32;
        let layout = BankLayout { buckets, shards };
        let global = Rate { drain: Drain::from_raw(drain), burst };
        let shard = layout.shard_rate(global, share);
        let n = u64::from(shards.max(1));
        let apportioned = shard.drain.into_raw();

        assert!(apportioned >= drain / n, "{} < {}", apportioned, drain / n);
        assert!(shard.burst >= burst / n, "{} < {}", shard.burst, burst / n);
        assert!(apportioned <= drain);
        assert!(shard.burst <= burst);
    }
}

#[test]
fn an_index_always_lands_inside_the_bank() {
    let mut words = Words(7);
    for _ in 0..CASES {
        let buckets = words.next() as u32;
        let layout = BankLayout { buckets, shards: 4 };
        assert!(layout.index(words.next()) < buckets.max(1));
    }
    assert_eq!(BankLayout { buckets: 0, shards: 4 }.index(u64::MAX), 0);
}

/// The drain is the wide product, shifted, or the largest word where the product leaves 64 bits.
#[test]
fn the_drain_is_the_wide_product_or_saturated() {
    let mut words = Words(8);
    for _ in 0..CASES {
        let per_sec = words.within(1, 1 << 34);
        let dt = words.within(1, 1 << 34);
        let drain = Drain::per_nanosecond(per_sec);
        let start = u64::MAX / 2;
        let expected = ((u128::from(drain.into_raw()) * u128::from(dt))
            .min(u128::from(u64::MAX))) >> DRAIN_FRACTION_BITS;

        // A burst of zero refuses the packet, so the drain is all the call changed.
        let mut bucket = Bucket { level: start, last_tick: 0 };
        assert_eq!(bucket.charge(Rate { drain, burst: 0 }, dt, 64), Charge::Over);
        assert_eq!(u128::from(start - bucket.level), expected.min(u128::from(start)));
    }
}

/// A shard an attacker has starved of observed traffic keeps an even share.
#[test]
fn a_starved_shard_keeps_its_floor() {
    let layout = BankLayout {
        buckets: 4_096,
        shards: 8,
    };
    let shard = layout.shard_rate(
        Rate {
            drain: Drain::from_raw(8_000_000),
            burst: 80_000,
        },
        0,
    );
    assert_eq!(shard.drain, Drain::from_raw(1_000_000));
    assert_eq!(shard.burst, 10_000);
}

/// Short of what is owed and never over, by one part in a million at most.
#[test]
fn half_a_second_of_jiffies_drains_half_a_second_of_bytes() {
    const HZ: u32 = 250;
    const BYTES_PER_SEC: u64 = 1_000_000;

    let rate = Rate {
        drain: Drain::per_jiffy(BYTES_PER_SEC, HZ),
        burst: BYTES_PER_SEC,
    };
    let full = BYTES_PER_SEC * UNITS_PER_BYTE;
    let mut bucket = Bucket {
        level: full,
        last_tick: 0,
    };

    assert_eq!(
        bucket.charge(rate, u64::from(HZ) / 2, 0),
        Charge::Within,
        "half the level is drained, so a zero-length packet fits under the burst"
    );
    let owed = full / 2;
    let drained = full - bucket.level;
    assert!(
        drained <= owed && owed - drained <= owed / 1_000_000,
        "half a second of jiffies drained {drained} units where {owed} are owed"
    );
}

#[test]
fn a_drain_word_is_units_per_tick_with_twenty_fraction_bits() {
    assert_eq!(Drain::none().into_raw(), 0);
    // 512 << 20 over 250, rounded down, times the rate.
    assert_eq!(Drain::per_jiffy(1_000_000, 250).into_raw(), 2_147_483_000_000);
    assert_eq!(Drain::per_jiffy(u64::MAX, 100).into_raw(), u64::MAX);
    assert_eq!(Drain::per_jiffy(7, 0).into_raw(), Drain::per_jiffy(7, 1).into_raw());
    // One unit per nanosecond is 10^9 over 512 bytes a second.
    assert_eq!(Drain::per_nanosecond(1_953_125).into_raw(), 1 << DRAIN_FRACTION_BITS);
    assert_eq!(Drain::from_raw(77).into_raw(), 77);
}

#[test]
fn a_refused_packet_leaves_the_level_and_moves_the_clock() {
    let rate = Rate { drain: Drain::none(), burst: 100 };
    let mut bucket = empty();
    assert_eq!(bucket.charge(rate, 5, 100), Charge::Within);
    assert_eq!(bucket, Bucket { level: 100 * UNITS_PER_BYTE, last_tick: 5 });
    assert_eq!(bucket.charge(rate, 9, 1), Charge::Over);
    assert_eq!(bucket, Bucket { level: 100 * UNITS_PER_BYTE, last_tick: 9 });
}

#[test]
fn a_share_of_the_whole_is_the_whole_rate() {
    let layout = BankLayout { buckets: 16, shards: 4 };
    let global = Rate { drain: Drain::from_raw(1_000), burst: 400 };
    let half = layout.shard_rate(global, SHARE_SCALE / 2);
    assert_eq!((half.drain.into_raw(), half.burst), (500, 200));
    let all = layout.shard_rate(global, SHARE_SCALE);
    assert_eq!((all.drain.into_raw(), all.burst), (1_000, 400));
    let more = layout.shard_rate(global, u32::MAX);
    assert_eq!((more.drain.into_raw(), more.burst), (1_000, 400));
    assert_eq!(DEFAULT_BANK_BUCKETS * BANK_SLOT_BYTES, 65_536);
}

/// A bucket that stops receiving drains to zero, and its level never rises on the way.
#[test]
fn an_idle_bucket_is_empty_in_the_end() {
    let rate = Rate { drain: Drain::per_nanosecond(1_000_000), burst: 1_500 };
    let mut filled = empty();
    assert_eq!(filled.charge(rate, 0, 1_500), Charge::Within);
    let mut last = filled.level;
    for now in (0..2_000_000u64).step_by(100_000) {
        let mut bucket = filled;
        assert_eq!(bucket.charge(Rate { burst: 0, ..rate }, now, 1), Charge::Over);
        assert!(bucket.level <= last);
        last = bucket.level;
    }
    // 1500 bytes at a megabyte a second take a millisecond and a half, and a little for rounding.
    let mut bucket = filled;
    assert_eq!(bucket.charge(rate, 1_501_000, 0), Charge::Within);
    assert_eq!(bucket.level, 0);
}

#[test]
fn a_bucket_that_never_leaks_admits_exactly_its_burst() {
    let rate = Rate { drain: Drain::none(), burst: 1_000 };
    let mut bucket = empty();
    for now in [7, u64::MAX, 3, 0] {
        assert_eq!(bucket.charge(rate, now, 250), Charge::Within);
    }
    assert_eq!(bucket.charge(rate, u64::MAX, 1), Charge::Over);
    assert_eq!(bucket.charge(rate, u64::MAX, 0), Charge::Within);
}

/// A gap that saturates the drain empties the largest level there is.
#[test]
fn a_saturated_gap_empties_the_largest_level() {
    let rate = Rate { drain: Drain::from_raw(u64::MAX), burst: u64::MAX };
    let mut bucket = Bucket { level: BURST_MAX * UNITS_PER_BYTE, last_tick: 0 };
    assert_eq!(bucket.charge(rate, u64::MAX, 0), Charge::Within);
    assert_eq!(bucket.level, 0);
}
