//! The bank of buckets, and the share of the rate each per-CPU shard enforces.

use vstd::prelude::*;

use super::leaky::{saturating_mul, Drain, Rate};

verus! {

/// Denominator of an observed share: a share of `SHARE_SCALE` is all the traffic.
pub const SHARE_SCALE: u32 = 0x1_0000;

/// Bytes of one slot of the bank: a cache line, so that no two buckets share one.
pub const BANK_SLOT_BYTES: u32 = 64;

/// Buckets of a bank whose configuration names no count.
pub const DEFAULT_BANK_BUCKETS: u32 = 1024;

/// Shape of a bucket bank: how many buckets it holds, and across how many per-CPU shards the
/// global rate is split.
#[derive(Clone, Copy, PartialEq, Eq, Debug, Structural)]
pub struct BankLayout {
    pub buckets: u32,
    pub shards: u32,
}

/// A total split by observed share, floored at one shard's equal part of it.
pub open spec fn apportioned(total: u64, share: int, shards: int) -> int {
    let measured = super::leaky::min(total * share, u64::MAX as int) / 0x1_0000;
    let floor = total as int / shards;
    if measured > floor {
        measured
    } else {
        floor
    }
}

/// The shards a total is split over: at least one.
pub open spec fn shard_count(layout: BankLayout) -> int {
    if layout.shards == 0 {
        1
    } else {
        layout.shards as int
    }
}

/// What one shard enforces of a rate and of a burst.
pub open spec fn shard_parts(layout: BankLayout, word: u64, burst: u64, observed: u32) -> (int, int) {
    (
        apportioned(word, clamped_share(observed), shard_count(layout)),
        apportioned(burst, clamped_share(observed), shard_count(layout)),
    )
}

/// A shard takes the same part of the burst as of the rate: neither falls below its equal part,
/// however little it sees, so that a shard with a rate lets its first packet in; both are the whole
/// where it sees everything or is alone.
pub proof fn a_shard_takes_the_same_part_of_both(
    layout: BankLayout,
    word: u64,
    burst: u64,
    observed: u32,
)
    ensures
        ({
            let (rate, room) = shard_parts(layout, word, burst, observed);
            &&& layout.shards <= 1 ==> rate == word && room == burst
            &&& layout.shards >= 1 ==> (rate + 1) * layout.shards > word && (room + 1)
                * layout.shards > burst
            &&& word == burst ==> rate == room
            &&& 0 <= rate <= word && 0 <= room <= burst
        }),
{
    let shards = shard_count(layout);
    a_shard_keeps_its_floor(word, observed, layout);
    a_shard_keeps_its_floor(burst, observed, layout);
    let (rate, room) = shard_parts(layout, word, burst, observed);
    assert(word as int / shards >= 0 && burst as int / shards >= 0 && (word as int / shards + 1)
        * shards > word && (burst as int / shards + 1) * shards > burst) by (nonlinear_arith)
        requires
            shards >= 1,
            word >= 0,
            burst >= 0,
    ;
    assert((rate + 1) * shards >= (word as int / shards + 1) * shards && (room + 1) * shards >= (
    burst as int / shards + 1) * shards) by (nonlinear_arith)
        requires
            rate >= word as int / shards,
            room >= burst as int / shards,
            shards >= 1,
    ;
    if layout.shards <= 1 {
        assert(word as int / 1 == word && burst as int / 1 == burst);
    }
}

/// An observed share, clamped to the whole.
pub open spec fn clamped_share(observed: u32) -> int {
    super::leaky::min(observed as int, SHARE_SCALE as int)
}

/// The bucket of a bank that a hash lands in.
pub open spec fn bucket_of(buckets: u32, hash: u64) -> int {
    if buckets == 0 {
        0
    } else {
        hash as int % buckets as int
    }
}

/// A hash lands in a bucket of the bank, and the hashes that land in one are so many buckets apart:
/// the count need not be a power of two for every bucket to be reached.
pub proof fn the_hashes_of_a_bucket_are_the_bank_apart(buckets: u32, hash: u64, bucket: u32)
    ensures
        buckets > 0 ==> 0 <= bucket_of(buckets, hash) < buckets,
        bucket < buckets ==> bucket_of(buckets, bucket as u64) == bucket,
        buckets > 0 && hash + buckets <= u64::MAX ==> bucket_of(buckets, (hash + buckets) as u64)
            == bucket_of(buckets, hash),
        bucket_of(0, hash) == 0,
{
    if buckets > 0 {
        let n = buckets as int;
        assert(0 <= hash as int % n < n) by (nonlinear_arith)
            requires
                n > 0,
        ;
        if bucket < buckets {
            vstd::arithmetic::div_mod::lemma_small_mod(bucket as nat, buckets as nat);
        }
        if hash + buckets <= u64::MAX {
            vstd::arithmetic::div_mod::lemma_mod_add_multiples_vanish(hash as int, n);
            assert((n + hash) % n == hash as int % n);
        }
    }
}

impl BankLayout {
    /// Bucket a keyed hash lands in.
    ///
    /// A modulo and not a mask: the bucket count comes from a configuration file and is not
    /// required to be a power of two. An empty bank answers `0`.
    pub fn index(&self, hash: u64) -> (index: u32)
        ensures
            index == bucket_of(self.buckets, hash),
            index == (if self.buckets == 0 {
                0int
            } else {
                hash as int % self.buckets as int
            }),
            self.buckets > 0 ==> index < self.buckets,
    {
        if self.buckets == 0 {
            return 0;
        }
        (hash % self.buckets as u64) as u32
    }

    /// Rate a single shard enforces, floored at `global / shards`.
    ///
    /// Apportioning strictly by observed share would let an attacker who keeps the share of one
    /// shard at zero drive the rate of that shard to zero with it. The burst takes the same
    /// floor, because a shard with a rate and no burst still drops its first packet.
    pub fn shard_rate(&self, global: Rate, observed_share: u32) -> (rate: Rate)
        ensures
            (rate.drain.word() as int, rate.burst as int) == shard_parts(
                *self,
                global.drain.word(),
                global.burst,
                observed_share,
            ),
            rate.drain.word() == apportioned(
                global.drain.word(),
                clamped_share(observed_share),
                shard_count(*self),
            ),
            rate.burst == apportioned(
                global.burst,
                clamped_share(observed_share),
                shard_count(*self),
            ),
    {
        let shards: u64 = if self.shards == 0 {
            1
        } else {
            self.shards as u64
        };
        let share: u64 = if observed_share < SHARE_SCALE {
            observed_share as u64
        } else {
            SHARE_SCALE as u64
        };
        Rate {
            drain: Drain::from_raw(apportion(global.drain.into_raw(), share, shards)),
            burst: apportion(global.burst, share, shards),
        }
    }
}

/// Saturating, so a nonsensically large total apportions low rather than wrapping; the floor
/// then decides, which is the strict direction.
fn apportion(total: u64, share: u64, shards: u64) -> (part: u64)
    requires
        shards > 0,
    ensures
        part == apportioned(total, share as int, shards as int),
{
    let measured: u64 = saturating_mul(total, share) / SHARE_SCALE as u64;
    let floor: u64 = total / shards;
    if measured > floor {
        measured
    } else {
        floor
    }
}

/// A shard never falls below its equal part of the rate and of the burst, whatever share was
/// observed, and never exceeds the whole of either.
pub proof fn a_shard_keeps_its_floor(total: u64, observed: u32, layout: BankLayout)
    ensures
        total as int / shard_count(layout) <= apportioned(
            total,
            clamped_share(observed),
            shard_count(layout),
        ) <= total,
{
    let share = clamped_share(observed);
    let shards = shard_count(layout);
    assert(total * share <= total * 0x1_0000) by (nonlinear_arith)
        requires
            total >= 0,
            share <= 0x1_0000,
    ;
    assert(total as int / shards <= total) by (nonlinear_arith)
        requires
            total >= 0,
            shards >= 1,
    ;
}

/// A shard that sees more than its equal part of the traffic gets that part of the whole: its
/// share of the total, in 65536ths, to less than one, wherever the product fits the word. So a
/// shard that sees all of it gets all of it.
pub proof fn a_shard_gets_its_share(total: u64, observed: u32, layout: BankLayout)
    requires
        total < 0x1_0000_0000_0000,
    ensures
        ({
            let part = apportioned(total, clamped_share(observed), shard_count(layout));
            &&& observed <= 0x1_0000 ==> (part + 1) * 0x1_0000 > total * observed
            &&& observed >= 0x1_0000 ==> part == total
            &&& part * 0x1_0000 <= total * observed || (part as int == total as int / (if layout.shards
                == 0 {
                1
            } else {
                layout.shards as int
            }))
        }),
{
    let share = clamped_share(observed);
    assert(0 <= total * share <= total * 0x1_0000) by (nonlinear_arith)
        requires
            total >= 0,
            0 <= share <= 0x1_0000,
    ;
    assert(total * share <= total * observed) by (nonlinear_arith)
        requires
            total >= 0,
            share <= observed,
    ;
    let shards = shard_count(layout);
    assert(total as int / shards <= total) by (nonlinear_arith)
        requires
            total >= 0,
            shards >= 1,
    ;
    if observed >= 0x1_0000 {
        assert(total * share == total * 0x1_0000);
    }
}

/// The floors of all shards together are never more than the whole, and fall short of it by less
/// than one a shard.
pub proof fn the_floors_add_up(total: u64, shards: int)
    requires
        shards >= 1,
    ensures
        ({
            let floor = apportioned(total, 0, shards);
            floor * shards <= total < (floor + 1) * shards
        }),
{
    let floor = total as int / shards;
    assert(floor >= 0 && floor * shards <= total < (floor + 1) * shards) by (nonlinear_arith)
        requires
            floor == total as int / shards,
            shards >= 1,
            total >= 0,
    ;
    assert(total * 0 == 0);
}

/// A larger share never gets a smaller part.
pub proof fn a_larger_share_never_gets_less(total: u64, less: u32, more: u32, layout: BankLayout)
    requires
        less <= more,
    ensures
        apportioned(total, clamped_share(less), shard_count(layout)) <= apportioned(
            total,
            clamped_share(more),
            shard_count(layout),
        ),
{
    assert(total * clamped_share(less) <= total * clamped_share(more)) by (nonlinear_arith)
        requires
            total >= 0,
            clamped_share(less) <= clamped_share(more),
    ;
}

} // verus!
