//! Bucketised cuckoo: two buckets of eight lanes, eight-bit signatures compared eight at a time.

use vstd::prelude::*;

use super::robin_hood::{fmix32, OA_MULTIPLIER};
use crate::wire::Action;

verus! {

/// Lanes in a bucket. Eight, so the signatures are one `u64` and the bucket is one cache line.
pub const CUCKOO_LANES: usize = 8;

/// Log2 of the bucket count: the slot count of the Robin Hood table divided by the lane count.
pub const CUCKOO_BUCKET_BITS: u32 = 18;

/// Bucket count.
pub const CUCKOO_BUCKETS: usize = 0x4_0000;

/// Mask taking any `u32` to a valid bucket index.
pub const CUCKOO_BUCKET_MASK: u32 = 0x3_ffff;

/// Size of the table in bytes, at one cache line a bucket.
pub const CUCKOO_BYTES: usize = 0x100_0000;

/// Symbol of the `.bss` global carrying [`CUCKOO_BUCKETS`] buckets.
pub const CUCKOO_TABLE_SYMBOL: &'static str = "CUCKOO_TABLE";

/// The second multiplier, for the alternate bucket.
pub const CUCKOO_DELTA_MULTIPLIER: u32 = 0x85eb_ca77;

/// Displacements one insertion is allowed to make before the table is declared unusable.
pub const CUCKOO_MAX_KICKS: u32 = 500;

/// One bucket.
#[derive(Clone, Copy, PartialEq, Eq, Debug)]
pub struct CuckooBucket {
    /// Eight signatures, lane `i` in byte `i`. Zero means free.
    pub sigs: u64,
    /// The full address, host order. Meaningful only where the signature is nonzero.
    pub keys: [u32; CUCKOO_LANES],
    /// The verdict, as an [`Action`] code. Read only where a signature matched.
    pub tags: [u8; CUCKOO_LANES],
    /// To the cache line.
    pub pad: [u8; 16],
}

/// One lane of a bucket.
pub struct Lane {
    /// Zero where the lane is free.
    pub sig: u8,
    pub key: u32,
    pub tag: u8,
}

/// Byte `lane` of a signature word.
pub open spec fn lane_sig(sigs: u64, lane: int) -> u8 {
    (sigs >> ((8 * lane) as u64)) as u8
}

impl View for CuckooBucket {
    type V = Seq<Lane>;

    open spec fn view(&self) -> Seq<Lane> {
        Seq::new(
            CUCKOO_LANES as nat,
            |i: int| Lane { sig: lane_sig(self.sigs, i), key: self.keys[i], tag: self.tags[i] },
        )
    }
}

impl CuckooBucket {
    /// A bucket whose lanes are all free.
    pub fn empty() -> (bucket: Self)
        ensures
            bucket.sigs == 0,
            forall|i: int|
                0 <= i < CUCKOO_LANES ==> #[trigger] bucket@[i] == (Lane { sig: 0, key: 0, tag: 0 }),
            forall|i: int| 0 <= i < 16 ==> #[trigger] bucket.pad[i] == 0,
    {
        proof {
            lemma_free_word();
        }
        CuckooBucket { sigs: 0, keys: [0; 8], tags: [0; 8], pad: [0; 16] }
    }
}

impl Default for CuckooBucket {
    fn default() -> (bucket: Self)
        ensures
            bucket.sigs == 0,
            forall|i: int|
                0 <= i < CUCKOO_LANES ==> #[trigger] bucket@[i] == (Lane { sig: 0, key: 0, tag: 0 }),
            forall|i: int| 0 <= i < 16 ==> #[trigger] bucket.pad[i] == 0,
    {
        Self::empty()
    }
}

proof fn lemma_free_word()
    ensures
        forall|i: int| 0 <= i < CUCKOO_LANES ==> #[trigger] lane_sig(0, i) == 0,
{
    assert forall|i: int| 0 <= i < CUCKOO_LANES implies #[trigger] lane_sig(0, i) == 0 by {
        let shift = (8 * i) as u64;
        assert((0u64 >> shift) as u8 == 0) by (bit_vector)
            requires
                shift < 64,
        ;
    }
}

/// The hash of a key: its home bucket in the top bits, its signature in the low byte.
#[verifier::opaque]
pub open spec fn bucket_hash(key: u32) -> u32 {
    super::robin_hood::mix(key.wrapping_mul(OA_MULTIPLIER))
}

/// The one hash, the same as that of the Robin Hood slot of the key.
pub fn cuckoo_hash(key: u32) -> (hash: u32)
    ensures
        hash == bucket_hash(key),
{
    reveal(bucket_hash);
    fmix32(key.wrapping_mul(OA_MULTIPLIER))
}

/// The home bucket: the top [`CUCKOO_BUCKET_BITS`] of the hash.
pub fn cuckoo_home(hash: u32) -> (bucket: u32)
    ensures
        bucket == hash / 0x4000,
        bucket < CUCKOO_BUCKETS,
{
    assert(hash >> 14u32 == hash / 0x4000 && hash / 0x4000 < 0x4_0000) by (bit_vector);
    hash >> (32 - CUCKOO_BUCKET_BITS)
}

/// The signature a hash carries: its low byte, with zero made one.
pub open spec fn hash_sig(hash: u32) -> u8 {
    if hash % 256 == 0 {
        1
    } else {
        (hash % 256) as u8
    }
}

/// The signature: the low byte of the same hash, forced nonzero, because zero marks a free lane.
pub fn cuckoo_sig(hash: u32) -> (sig: u8)
    ensures
        sig == hash_sig(hash),
        sig != 0,
{
    assert(hash as u8 == (hash % 256) as u8) by (bit_vector);
    let sig: u8 = hash as u8;
    if sig == 0 {
        1
    } else {
        sig
    }
}

/// The offset between the two buckets of a key.
#[verifier::opaque]
pub open spec fn bucket_offset(key: u32) -> u32 {
    (super::robin_hood::mix(key.wrapping_mul(CUCKOO_DELTA_MULTIPLIER)) & CUCKOO_BUCKET_MASK) | 1
}

/// The XOR offset between the two buckets of a key, forced nonzero so that they are two.
pub fn cuckoo_delta(key: u32) -> (delta: u32)
    ensures
        delta == bucket_offset(key),
        0 < delta < CUCKOO_BUCKETS,
{
    reveal(bucket_offset);
    let mixed: u32 = fmix32(key.wrapping_mul(CUCKOO_DELTA_MULTIPLIER));
    assert(0 < (mixed & 0x3_ffff) | 1 < 0x4_0000) by (bit_vector);
    (mixed & CUCKOO_BUCKET_MASK) | 1
}

/// The other bucket of a key, from either of them.
pub open spec fn other_bucket(bucket: u32, delta: u32) -> u32 {
    (bucket ^ delta) & CUCKOO_BUCKET_MASK
}

/// The other bucket of a key, from either of them.
pub fn cuckoo_alt(bucket: u32, delta: u32) -> (alt: u32)
    ensures
        alt == other_bucket(bucket, delta),
        alt < CUCKOO_BUCKETS,
{
    assert((bucket ^ delta) & 0x3_ffff < 0x4_0000) by (bit_vector);
    (bucket ^ delta) & CUCKOO_BUCKET_MASK
}

/// The alternate of the alternate is the bucket started from, and the two are never one.
pub proof fn cuckoo_alt_is_an_involution(bucket: u32, delta: u32)
    requires
        bucket < CUCKOO_BUCKETS,
        0 < delta < CUCKOO_BUCKETS,
    ensures
        other_bucket(other_bucket(bucket, delta), delta) == bucket,
        other_bucket(bucket, delta) != bucket,
        other_bucket(bucket, delta) < CUCKOO_BUCKETS,
{
    assert((((bucket ^ delta) & 0x3_ffff) ^ delta) & 0x3_ffff == bucket && (bucket ^ delta)
        & 0x3_ffff != bucket && (bucket ^ delta) & 0x3_ffff < 0x4_0000) by (bit_vector)
        requires
            bucket < 0x4_0000,
            0 < delta < 0x4_0000,
    ;
}

/// One per lane byte.
const LANE_ONES: u64 = 0x0101_0101_0101_0101;

/// The high bit of every lane byte.
const LANE_HIGH: u64 = 0x8080_8080_8080_8080;

/// Whether a match mask flags a lane: the high bit of its byte.
pub open spec fn flags_lane(mask: u64, lane: int) -> bool {
    (mask >> ((8 * lane + 7) as u64)) & 1 == 1
}

/// The zero-byte search: a lane that holds `sig` becomes zero, and subtracting one from every
/// lane borrows into the high bit of exactly the lanes that are.
spec fn match_mask(sigs: u64, sig: u8) -> u64 {
    let x = sigs ^ 0x0101_0101_0101_0101u64.wrapping_mul(sig as u64);
    x.wrapping_sub(0x0101_0101_0101_0101) & !x & 0x8080_8080_8080_8080
}

/// Lanes whose signature is `sig`, as the high bit of each matching lane byte.
///
/// The lowest flagged lane is a true match. A lane directly above a flagged one is flagged too
/// where it holds `sig ^ 1`, which is why the caller takes the lowest.
pub fn cuckoo_match(sigs: u64, sig: u8) -> (mask: u64)
    ensures
        mask & 0x8080_8080_8080_8080 == mask,
        forall|lane: int|
            0 <= lane < CUCKOO_LANES ==> (#[trigger] flags_lane(mask, lane) <==> (lane_sig(
                sigs,
                lane,
            ) == sig || (lane > 0 && flags_lane(mask, lane - 1) && lane_sig(sigs, lane) == sig
                ^ 1))),
        forall|lane: int|
            0 <= lane < CUCKOO_LANES && #[trigger] flags_lane(mask, lane) && (forall|below: int|
                0 <= below < lane ==> !#[trigger] flags_lane(mask, below)) ==> lane_sig(sigs, lane)
                == sig,
{
    let x: u64 = sigs ^ LANE_ONES.wrapping_mul(sig as u64);
    let mask: u64 = x.wrapping_sub(LANE_ONES) & !x & LANE_HIGH;
    proof {
        lemma_zero_byte_search(sigs, sig, 0);
        assert forall|lane: int| 0 <= lane < CUCKOO_LANES implies (#[trigger] flags_lane(mask, lane)
            <==> (lane_sig(sigs, lane) == sig || (lane > 0 && flags_lane(mask, lane - 1)
            && lane_sig(sigs, lane) == sig ^ 1))) by {
            lemma_zero_byte_search(sigs, sig, lane as u64);
        }
    }
    mask
}

proof fn lemma_zero_byte_search(sigs: u64, sig: u8, lane: u64)
    by (bit_vector)
    requires
        lane < 8,
    ensures
        match_mask(sigs, sig) & 0x8080_8080_8080_8080 == match_mask(sigs, sig),
        (match_mask(sigs, sig) >> ((8 * lane + 7) as u64)) & 1 == 1 <==> ((sigs >> ((8
            * lane) as u64)) as u8 == sig || (lane > 0 && (match_mask(sigs, sig) >> ((8 * (lane - 1)
            + 7) as u64)) & 1 == 1 && (sigs >> ((8 * lane) as u64)) as u8 == sig ^ 1)),
{
}

/// Maps `1 << (8 * i)` to `i`, for `i` in `0..8`, through the top three bits of a product: the
/// three-bit answer for lane `i` sits at bits `61 - 8i ..= 63 - 8i`.
const LANE_DECODE: u64 = 0x0020_4060_80a0_c0e0;

/// What the decoder makes of a mask: the lowest set bit of the mask, down to the low bit of its
/// lane byte, selects three bits of the decoder word.
pub open spec fn decoded_lane(mask: u64) -> u64 {
    ((mask & 0u64.wrapping_sub(mask)) >> 7).wrapping_mul(0x0020_4060_80a0_c0e0) >> 61
}

/// The lane a match mask points at, or `None` when nothing matched: for a mask of lane flags,
/// the lowest lane flagged.
pub fn cuckoo_lane(mask: u64) -> (lane: Option<usize>)
    ensures
        lane is None <==> mask == 0,
        lane matches Some(l) ==> l < CUCKOO_LANES && l == decoded_lane(mask),
        mask & 0x8080_8080_8080_8080 == mask ==> (lane matches Some(l) ==> flags_lane(mask, l as int)
            && forall|below: int| 0 <= below < l ==> !#[trigger] flags_lane(mask, below)),
{
    if mask == 0 {
        return None;
    }
    let lowest: u64 = mask & 0u64.wrapping_sub(mask);
    let one: u64 = lowest >> 7;
    let lane: u64 = one.wrapping_mul(LANE_DECODE) >> 61;
    proof {
        lemma_lane_decoder(mask, 0);
        if mask & 0x8080_8080_8080_8080 == mask {
            assert forall|below: int| 0 <= below < lane implies !#[trigger] flags_lane(mask, below) by {
                lemma_lane_decoder(mask, below as u64);
            }
        }
    }
    Some(lane as usize)
}

proof fn lemma_lane_decoder(mask: u64, below: u64)
    by (bit_vector)
    ensures
        decoded_lane(mask) < 8,
        mask != 0 && mask & 0x8080_8080_8080_8080 == mask ==> {
            &&& (mask >> ((8 * decoded_lane(mask) + 7) as u64)) & 1 == 1
            &&& below < decoded_lane(mask) ==> (mask >> ((8 * below + 7) as u64)) & 1 != 1
        },
{
}

/// The lanes of every bucket of a table.
pub open spec fn lanes(table: Seq<CuckooBucket>) -> Seq<Seq<Lane>> {
    table.map_values(|bucket: CuckooBucket| bucket@)
}

/// The signature of a key.
pub open spec fn key_sig(key: u32) -> u8 {
    hash_sig(bucket_hash(key))
}

/// The home bucket of a key.
pub open spec fn home_bucket(key: u32) -> u32 {
    bucket_hash(key) / 0x4000
}

/// The alternate bucket of a key.
pub open spec fn alt_bucket(key: u32) -> u32 {
    other_bucket(home_bucket(key), bucket_offset(key))
}

/// The first lane, from `from` on, whose signature is `sig`; [`CUCKOO_LANES`] where there is
/// none.
pub open spec fn first_lane(bucket: Seq<Lane>, sig: u8, from: int) -> int
    decreases CUCKOO_LANES - from,
{
    if from >= CUCKOO_LANES {
        CUCKOO_LANES as int
    } else if bucket[from].sig == sig {
        from
    } else {
        first_lane(bucket, sig, from + 1)
    }
}

proof fn lemma_first_lane(bucket: Seq<Lane>, sig: u8, from: int, lane: int)
    requires
        0 <= from <= lane <= CUCKOO_LANES,
        forall|below: int| from <= below < lane ==> #[trigger] bucket[below].sig != sig,
        lane < CUCKOO_LANES ==> bucket[lane].sig == sig,
    ensures
        first_lane(bucket, sig, from) == lane,
    decreases lane - from,
{
    if from < lane {
        assert(bucket[from].sig != sig);
        lemma_first_lane(bucket, sig, from + 1, lane);
    }
}

/// What one bucket answers for a key of signature `sig`: the verdict of the first lane carrying
/// that signature, where that lane holds the key.
pub open spec fn bucket_answer(bucket: Seq<Lane>, key: u32, sig: u8) -> Option<Action> {
    let lane = first_lane(bucket, sig, 0);
    if lane < CUCKOO_LANES && bucket[lane].key == key {
        Action::decode(bucket[lane].tag)
    } else {
        None
    }
}

/// What a table answers for a key: the home bucket first, then the alternate one.
pub open spec fn cuckoo_answer(table: Seq<Seq<Lane>>, key: u32) -> Option<Action> {
    match bucket_answer(table[home_bucket(key) as int], key, key_sig(key)) {
        Some(action) => Some(action),
        None => bucket_answer(table[alt_bucket(key) as int], key, key_sig(key)),
    }
}

/// The lookup: two buckets, and the key is read only where a signature matched.
pub fn cuckoo_lookup(table: &[CuckooBucket], key: u32) -> (action: Option<Action>)
    requires
        table@.len() >= CUCKOO_BUCKETS,
    ensures
        action == cuckoo_answer(lanes(table@), key),
{
    let hash: u32 = cuckoo_hash(key);
    let sig: u8 = cuckoo_sig(hash);
    let home: u32 = cuckoo_home(hash);
    if let Some(action) = probe(table, home, key, sig) {
        return Some(action);
    }
    let alt: u32 = cuckoo_alt(home, cuckoo_delta(key));
    probe(table, alt, key, sig)
}

/// One bucket of a lookup.
fn probe(table: &[CuckooBucket], bucket: u32, key: u32, sig: u8) -> (action: Option<Action>)
    requires
        bucket < table@.len(),
    ensures
        action == bucket_answer(lanes(table@)[bucket as int], key, sig),
{
    let sigs: u64 = table[bucket as usize].sigs;
    let ghost held = table@[bucket as int]@;
    let mask: u64 = cuckoo_match(sigs, sig);
    match cuckoo_lane(mask) {
        None => {
            proof {
                lemma_no_flag();
                assert forall|lane: int| 0 <= lane < CUCKOO_LANES implies #[trigger] held[lane].sig
                    != sig by {
                    assert(!flags_lane(mask, lane));
                }
                lemma_first_lane(held, sig, 0, CUCKOO_LANES as int);
            }
            None
        },
        Some(lane) => {
            proof {
                assert forall|below: int| 0 <= below < lane implies #[trigger] held[below].sig
                    != sig by {
                    assert(!flags_lane(mask, below));
                }
                assert(flags_lane(mask, lane as int));
                assert(lane > 0 ==> !flags_lane(mask, lane - 1));
                lemma_first_lane(held, sig, 0, lane as int);
            }
            if table[bucket as usize].keys[lane] != key {
                return None;
            }
            Action::from_u8(table[bucket as usize].tags[lane])
        },
    }
}

proof fn lemma_no_flag()
    ensures
        forall|lane: int| 0 <= lane < CUCKOO_LANES ==> !#[trigger] flags_lane(0, lane),
{
    assert forall|lane: int| 0 <= lane < CUCKOO_LANES implies !#[trigger] flags_lane(0, lane) by {
        let shift = (8 * lane + 7) as u64;
        assert((0u64 >> shift) & 1 != 1) by (bit_vector);
    }
}

/// How many of the lanes below `end` are occupied.
pub open spec fn occupied_lanes(sigs: u64, end: int) -> int
    decreases end,
{
    if end <= 0 {
        0
    } else {
        occupied_lanes(sigs, end - 1) + (if lane_sig(sigs, end - 1) != 0 {
            1int
        } else {
            0
        })
    }
}

/// Occupied lanes of a bucket.
pub fn cuckoo_occupancy(sigs: u64) -> (count: u32)
    ensures
        count == occupied_lanes(sigs, CUCKOO_LANES as int),
{
    let mut lane: usize = 0;
    let mut count: u32 = 0;
    while lane < CUCKOO_LANES
        invariant
            lane <= CUCKOO_LANES,
            count <= lane,
            count == occupied_lanes(sigs, lane as int),
        decreases CUCKOO_LANES - lane,
    {
        if sig_in(sigs, lane) != 0 {
            count += 1;
        }
        lane += 1;
    }
    count
}

/// The signature of one lane.
fn sig_in(sigs: u64, lane: usize) -> (sig: u8)
    requires
        lane < CUCKOO_LANES,
    ensures
        sig == lane_sig(sigs, lane as int),
{
    (sigs >> (8 * lane as u64)) as u8
}

/// A lane of `bucket` a key may occupy: the one already holding this exact key, or else the
/// first free one. There is none where another key of the bucket has the same signature.
pub open spec fn place_lane(bucket: Seq<Lane>, key: u32) -> Option<int> {
    let same = first_lane(bucket, key_sig(key), 0);
    let free = first_lane(bucket, 0, 0);
    if same < CUCKOO_LANES {
        if bucket[same].key == key {
            Some(same)
        } else {
            None
        }
    } else if free < CUCKOO_LANES {
        Some(free)
    } else {
        None
    }
}

fn place(slot: &CuckooBucket, key: u32, sig: u8) -> (lane: Option<usize>)
    requires
        sig == key_sig(key),
    ensures
        match lane {
            Some(l) => l < CUCKOO_LANES && place_lane(slot@, key) == Some(l as int),
            None => place_lane(slot@, key) is None,
        },
{
    let mut free: Option<usize> = None;
    let mut lane: usize = 0;
    let ghost held = slot@;
    while lane < CUCKOO_LANES
        invariant
            lane <= CUCKOO_LANES,
            sig == key_sig(key),
            sig != 0,
            held == slot@,
            forall|below: int| 0 <= below < lane ==> #[trigger] held[below].sig != sig,
            match free {
                Some(f) => f < lane && held[f as int].sig == 0 && forall|below: int|
                    0 <= below < f ==> #[trigger] held[below].sig != 0,
                None => forall|below: int| 0 <= below < lane ==> #[trigger] held[below].sig != 0,
            },
        decreases CUCKOO_LANES - lane,
    {
        let lane_sig: u8 = sig_in(slot.sigs, lane);
        assert(held[lane as int].sig == lane_sig);
        if lane_sig == 0 {
            if free.is_none() {
                free = Some(lane);
            }
        } else if lane_sig == sig {
            proof {
                lemma_first_lane(held, sig, 0, lane as int);
            }
            return if slot.keys[lane] == key {
                Some(lane)
            } else {
                None
            };
        }
        lane += 1;
    }
    proof {
        lemma_first_lane(held, sig, 0, CUCKOO_LANES as int);
        match free {
            Some(f) => lemma_first_lane(held, 0, 0, f as int),
            None => lemma_first_lane(held, 0, 0, CUCKOO_LANES as int),
        }
    }
    free
}

/// The occupied lane carrying `sig`, if any.
fn colliding_lane(slot: &CuckooBucket, sig: u8) -> (lane: Option<usize>)
    ensures
        match lane {
            Some(l) => l < CUCKOO_LANES && first_lane(slot@, sig, 0) == l,
            None => first_lane(slot@, sig, 0) == CUCKOO_LANES,
        },
{
    let mut lane: usize = 0;
    let ghost held = slot@;
    while lane < CUCKOO_LANES
        invariant
            lane <= CUCKOO_LANES,
            held == slot@,
            forall|below: int| 0 <= below < lane ==> #[trigger] held[below].sig != sig,
        decreases CUCKOO_LANES - lane,
    {
        let lane_sig: u8 = sig_in(slot.sigs, lane);
        assert(held[lane as int].sig == lane_sig);
        if lane_sig == sig {
            proof {
                lemma_first_lane(held, sig, 0, lane as int);
            }
            return Some(lane);
        }
        lane += 1;
    }
    proof {
        lemma_first_lane(held, sig, 0, CUCKOO_LANES as int);
    }
    None
}

/// Why an insertion could not be made.
#[derive(Clone, Copy, PartialEq, Eq, Debug, Structural)]
pub enum CuckooFull {
    /// The displacement chain reached [`CUCKOO_MAX_KICKS`] without finding a free lane. The
    /// table is not necessarily full; this is the signal to rebuild with different constants.
    Kicked,
}

/// What one insertion cost.
#[derive(Clone, Copy, PartialEq, Eq, Debug, Structural)]
pub struct Placement {
    /// How long the displacement chain got.
    pub kicks: u32,
    /// Lanes displaced only because two equal signatures would have met in one bucket.
    pub sig_evictions: u32,
}

impl Default for Placement {
    fn default() -> (cost: Self)
        ensures
            cost == (Placement { kicks: 0, sig_evictions: 0 }),
    {
        Placement { kicks: 0, sig_evictions: 0 }
    }
}

/// A table with a key written to one lane.
pub open spec fn with_key(
    table: Seq<Seq<Lane>>,
    bucket: int,
    lane: int,
    key: u32,
    action: Action,
) -> Seq<Seq<Lane>> {
    table.update(
        bucket,
        table[bucket].update(lane, Lane { sig: key_sig(key), key, tag: action.code() }),
    )
}

/// Writes a key to one lane.
fn write_lane(
    table: &mut [CuckooBucket],
    bucket: u32,
    lane: usize,
    key: u32,
    sig: u8,
    action: Action,
)
    requires
        bucket < old(table)@.len(),
        lane < CUCKOO_LANES,
        sig == key_sig(key),
    ensures
        final(table)@.len() == old(table)@.len(),
        lanes(final(table)@) == with_key(
            lanes(old(table)@),
            bucket as int,
            lane as int,
            key,
            action,
        ),
        forall|b: int|
            0 <= b < old(table)@.len() ==> #[trigger] final(table)@[b].pad == old(table)@[b].pad,
{
    let at: usize = bucket as usize;
    let sigs: u64 = table[at].sigs;
    let shift: u64 = 8 * lane as u64;
    let byte: u64 = 0xff;
    let written: u64 = (sigs & !(byte << shift)) | ((sig as u64) << shift);
    table[at].sigs = written;
    table[at].keys[lane] = key;
    table[at].tags[lane] = action.to_u8();
    proof {
        assert forall|l: int| 0 <= l < CUCKOO_LANES implies #[trigger] lane_sig(written, l) == (if l
            == lane {
            sig
        } else {
            lane_sig(sigs, l)
        }) by {
            lemma_write_sig(sigs, sig, lane as u64, l as u64);
        }
        let before = lanes(old(table)@);
        let after = lanes(table@);
        assert(after[at as int] =~= before[at as int].update(
            lane as int,
            Lane { sig, key, tag: action.code() },
        ));
        assert(after =~= with_key(before, bucket as int, lane as int, key, action));
    }
}

proof fn lemma_write_sig(sigs: u64, sig: u8, lane: u64, other: u64)
    by (bit_vector)
    requires
        lane < 8,
        other < 8,
    ensures
        (((sigs & !(0xffu64 << ((8 * lane) as u64))) | ((sig as u64) << ((8 * lane) as u64))) >> ((8
            * other) as u64)) as u8 == (if other == lane {
            sig
        } else {
            (sigs >> ((8 * other) as u64)) as u8
        }),
{
}

/// Puts a key into one bucket without displacing anybody, where it has a place there.
pub fn cuckoo_settle(table: &mut [CuckooBucket], bucket: u32, key: u32, action: Action) -> (settled:
    bool)
    requires
        bucket < old(table)@.len(),
    ensures
        match place_lane(lanes(old(table)@)[bucket as int], key) {
            Some(lane) => settled && lanes(final(table)@) == with_key(
                lanes(old(table)@),
                bucket as int,
                lane,
                key,
                action,
            ),
            None => !settled && final(table)@ == old(table)@,
        },
        final(table)@.len() == old(table)@.len(),
        forall|b: int|
            0 <= b < old(table)@.len() ==> #[trigger] final(table)@[b].pad == old(table)@[b].pad,
{
    let sig: u8 = cuckoo_sig(cuckoo_hash(key));
    match place(&table[bucket as usize], key, sig) {
        Some(lane) => {
            write_lane(table, bucket, lane, key, sig, action);
            true
        },
        None => false,
    }
}

/// The verdict a displaced lane carries on: a byte no verdict has is carried as `Continue`.
pub open spec fn carried_action(tag: u8) -> Action {
    match Action::decode(tag) {
        Some(action) => action,
        None => Action::Continue,
    }
}

/// Takes one lane of a bucket for a key, and hands back the key and the verdict that were there.
pub fn cuckoo_displace(
    table: &mut [CuckooBucket],
    bucket: u32,
    lane: usize,
    key: u32,
    action: Action,
) -> (victim: (u32, Action))
    requires
        bucket < old(table)@.len(),
        lane < CUCKOO_LANES,
    ensures
        lanes(final(table)@) == with_key(
            lanes(old(table)@),
            bucket as int,
            lane as int,
            key,
            action,
        ),
        victim.0 == lanes(old(table)@)[bucket as int][lane as int].key,
        victim.1 == carried_action(lanes(old(table)@)[bucket as int][lane as int].tag),
        final(table)@.len() == old(table)@.len(),
        forall|b: int|
            0 <= b < old(table)@.len() ==> #[trigger] final(table)@[b].pad == old(table)@[b].pad,
{
    let victim_key: u32 = table[bucket as usize].keys[lane];
    let victim_tag: u8 = table[bucket as usize].tags[lane];
    write_lane(table, bucket, lane, key, cuckoo_sig(cuckoo_hash(key)), action);
    let victim_action: Action = match Action::from_u8(victim_tag) {
        Some(action) => action,
        None => Action::Continue,
    };
    (victim_key, victim_action)
}

/// The run of an insertion that carries a key to `bucket`, with what the run cost before and the
/// random words it may draw: the table it leaves and what it returns.
///
/// A key settles in that bucket or in its other one. Where it has a place in neither, it takes a
/// lane of that bucket: the one whose signature equals its own, else one drawn at random. What
/// was in the lane is carried to its own other bucket.
pub open spec fn insert_run(
    table: Seq<Seq<Lane>>,
    bucket: u32,
    key: u32,
    action: Action,
    cost: Placement,
    draws: Seq<u32>,
) -> (Seq<Seq<Lane>>, Result<Placement, CuckooFull>)
    decreases CUCKOO_MAX_KICKS - cost.kicks,
{
    let alt = other_bucket(bucket, bucket_offset(key));
    match (place_lane(table[bucket as int], key), place_lane(table[alt as int], key)) {
        (Some(lane), _) => (with_key(table, bucket as int, lane, key, action), Ok(cost)),
        (None, Some(lane)) => (with_key(table, alt as int, lane, key, action), Ok(cost)),
        (None, None) => if cost.kicks >= CUCKOO_MAX_KICKS {
            (table, Err(CuckooFull::Kicked))
        } else {
            let same = first_lane(table[bucket as int], key_sig(key), 0);
            let collides = same < CUCKOO_LANES;
            let lane = if collides {
                same
            } else {
                draws[0] as int % 8
            };
            let victim = table[bucket as int][lane];
            insert_run(
                with_key(table, bucket as int, lane, key, action),
                other_bucket(bucket, bucket_offset(victim.key)),
                victim.key,
                carried_action(victim.tag),
                Placement {
                    kicks: (cost.kicks + 1) as u32,
                    sig_evictions: if collides {
                        (cost.sig_evictions + 1) as u32
                    } else {
                        cost.sig_evictions
                    },
                },
                if collides {
                    draws
                } else {
                    draws.skip(1)
                },
            )
        },
    }
}

/// How many random words the run of an insertion draws: one for each displacement whose lane no
/// equal signature decides.
pub open spec fn words_drawn(
    table: Seq<Seq<Lane>>,
    bucket: u32,
    key: u32,
    action: Action,
    cost: Placement,
    draws: Seq<u32>,
) -> nat
    decreases CUCKOO_MAX_KICKS - cost.kicks,
{
    let alt = other_bucket(bucket, bucket_offset(key));
    if place_lane(table[bucket as int], key) is Some || place_lane(table[alt as int], key) is Some
        || cost.kicks >= CUCKOO_MAX_KICKS {
        0
    } else {
        let same = first_lane(table[bucket as int], key_sig(key), 0);
        let collides = same < CUCKOO_LANES;
        let lane = if collides {
            same
        } else {
            draws[0] as int % 8
        };
        let victim = table[bucket as int][lane];
        let rest = words_drawn(
            with_key(table, bucket as int, lane, key, action),
            other_bucket(bucket, bucket_offset(victim.key)),
            victim.key,
            carried_action(victim.tag),
            Placement {
                kicks: (cost.kicks + 1) as u32,
                sig_evictions: if collides {
                    (cost.sig_evictions + 1) as u32
                } else {
                    cost.sig_evictions
                },
            },
            if collides {
                draws
            } else {
                draws.skip(1)
            },
        );
        if collides {
            rest
        } else {
            1 + rest
        }
    }
}

/// Inserts one key, displacing others as needed. Returns the displacements it made.
///
/// `random` is a caller-supplied stream so that a build is reproducible. The table left and the
/// result are those of a run over words that the stream may return, and the run draws exactly
/// those words: one for each displacement that an equal signature did not decide, and none past
/// the last.
pub fn cuckoo_insert(
    table: &mut [CuckooBucket],
    key: u32,
    action: Action,
    random: &mut impl FnMut() -> u32,
) -> (result: Result<Placement, CuckooFull>)
    requires
        old(table)@.len() >= CUCKOO_BUCKETS,
        call_requires(*old(random), ()),
    ensures
        exists|draws: Seq<u32>|
            (lanes(final(table)@), result) == #[trigger] insert_run(
                lanes(old(table)@),
                home_bucket(key),
                key,
                action,
                Placement { kicks: 0, sig_evictions: 0 },
                draws,
            ) && draws.len() == words_drawn(
                lanes(old(table)@),
                home_bucket(key),
                key,
                action,
                Placement { kicks: 0, sig_evictions: 0 },
                draws,
            ) && (result matches Ok(cost) ==> cost.sig_evictions <= cost.kicks <= CUCKOO_MAX_KICKS
                && draws.len() == cost.kicks - cost.sig_evictions) && (forall|i: int|
                0 <= i < draws.len() ==> call_ensures(*old(random), (), #[trigger] draws[i])),
        final(table)@.len() == old(table)@.len(),
        forall|b: int|
            0 <= b < old(table)@.len() ==> #[trigger] final(table)@[b].pad == old(table)@[b].pad,
{
    let ghost start = lanes(table@);
    let ghost stream = *random;
    let ghost free = Placement { kicks: 0, sig_evictions: 0 };
    let ghost mut drawn: Seq<u32> = Seq::empty();
    let mut carried_key: u32 = key;
    let mut carried: Action = action;
    let mut bucket: u32 = cuckoo_home(cuckoo_hash(carried_key));
    let mut cost: Placement = Placement { kicks: 0, sig_evictions: 0 };
    assert forall|rest: Seq<u32>| #[trigger] (drawn + rest) == rest by {
        assert(drawn + rest =~= rest);
    }
    loop
        invariant
            table@.len() == old(table)@.len(),
            table@.len() >= CUCKOO_BUCKETS,
            bucket < CUCKOO_BUCKETS,
            cost.kicks <= CUCKOO_MAX_KICKS,
            cost.sig_evictions <= cost.kicks,
            drawn.len() == cost.kicks - cost.sig_evictions,
            *random == stream,
            stream == *old(random),
            call_requires(stream, ()),
            forall|i: int| 0 <= i < drawn.len() ==> call_ensures(stream, (), #[trigger] drawn[i]),
            forall|rest: Seq<u32>|
                insert_run(start, home_bucket(key), key, action, free, #[trigger] (drawn + rest))
                    == insert_run(lanes(table@), bucket, carried_key, carried, cost, rest),
            forall|rest: Seq<u32>|
                words_drawn(start, home_bucket(key), key, action, free, #[trigger] (drawn + rest))
                    == drawn.len() + words_drawn(
                    lanes(table@),
                    bucket,
                    carried_key,
                    carried,
                    cost,
                    rest,
                ),
            forall|b: int|
                0 <= b < old(table)@.len() ==> #[trigger] table@[b].pad == old(table)@[b].pad,
            start == lanes(old(table)@),
            free == (Placement { kicks: 0, sig_evictions: 0 }),
        decreases CUCKOO_MAX_KICKS - cost.kicks,
    {
        let ghost here = lanes(table@);
        let alt: u32 = cuckoo_alt(bucket, cuckoo_delta(carried_key));
        if cuckoo_settle(table, bucket, carried_key, carried) {
            proof {
                lemma_drawn(start, key, action, free, drawn, here, bucket, carried_key, carried, cost);
            }
            return Ok(cost);
        }
        if cuckoo_settle(table, alt, carried_key, carried) {
            proof {
                lemma_drawn(start, key, action, free, drawn, here, bucket, carried_key, carried, cost);
            }
            return Ok(cost);
        }
        if cost.kicks >= CUCKOO_MAX_KICKS {
            proof {
                lemma_drawn(start, key, action, free, drawn, here, bucket, carried_key, carried, cost);
            }
            return Err(CuckooFull::Kicked);
        }
        let sig: u8 = cuckoo_sig(cuckoo_hash(carried_key));
        let ghost before_draw = drawn;
        let lane: usize = match colliding_lane(&table[bucket as usize], sig) {
            Some(lane) => {
                cost.sig_evictions += 1;
                lane
            },
            None => {
                let word: u32 = random();
                proof {
                    drawn = drawn.push(word);
                }
                (word % 8) as usize
            },
        };
        let (victim_key, victim_action) = cuckoo_displace(table, bucket, lane, carried_key, carried);
        let next: u32 = cuckoo_alt(bucket, cuckoo_delta(victim_key));
        proof {
            let new_cost = Placement {
                kicks: (cost.kicks + 1) as u32,
                sig_evictions: cost.sig_evictions,
            };
            assert forall|rest: Seq<u32>|
                insert_run(start, home_bucket(key), key, action, free, #[trigger] (drawn + rest))
                    == insert_run(lanes(table@), next, victim_key, victim_action, new_cost, rest)
                    && words_drawn(start, home_bucket(key), key, action, free, drawn + rest)
                    == drawn.len() + words_drawn(
                    lanes(table@),
                    next,
                    victim_key,
                    victim_action,
                    new_cost,
                    rest,
                ) by {
                if drawn.len() > before_draw.len() {
                    let tail = seq![drawn.last()] + rest;
                    assert(drawn + rest =~= before_draw + tail);
                    assert(tail.skip(1) =~= rest);
                } else {
                    assert(before_draw + rest == drawn + rest);
                }
            }
        }
        carried_key = victim_key;
        carried = victim_action;
        bucket = next;
        cost.kicks += 1;
    }
}

/// A run that has drawn its words goes on as the run of what is left.
proof fn lemma_drawn(
    start: Seq<Seq<Lane>>,
    key: u32,
    action: Action,
    free: Placement,
    drawn: Seq<u32>,
    here: Seq<Seq<Lane>>,
    bucket: u32,
    carried_key: u32,
    carried: Action,
    cost: Placement,
)
    requires
        forall|rest: Seq<u32>|
            insert_run(start, home_bucket(key), key, action, free, #[trigger] (drawn + rest))
                == insert_run(here, bucket, carried_key, carried, cost, rest),
        forall|rest: Seq<u32>|
            words_drawn(start, home_bucket(key), key, action, free, #[trigger] (drawn + rest))
                == drawn.len() + words_drawn(here, bucket, carried_key, carried, cost, rest),
    ensures
        insert_run(start, home_bucket(key), key, action, free, drawn) == insert_run(
            here,
            bucket,
            carried_key,
            carried,
            cost,
            Seq::empty(),
        ),
        words_drawn(start, home_bucket(key), key, action, free, drawn) == drawn.len() + words_drawn(
            here,
            bucket,
            carried_key,
            carried,
            cost,
            Seq::empty(),
        ),
{
    assert(drawn + Seq::<u32>::empty() =~= drawn);
}

/// An insertion that succeeds makes at most [`CUCKOO_MAX_KICKS`] displacements, and draws one word
/// for each of them that an equal signature did not decide: none where nothing is displaced. One
/// that gives up has made them all, and draws no more than one word for each.
pub proof fn one_word_is_drawn_for_each_undecided_displacement(
    table: Seq<Seq<Lane>>,
    key: u32,
    action: Action,
    draws: Seq<u32>,
)
    ensures
        ({
            let free = Placement { kicks: 0, sig_evictions: 0 };
            let words = words_drawn(table, home_bucket(key), key, action, free, draws);
            match insert_run(table, home_bucket(key), key, action, free, draws).1 {
                Ok(cost) => cost.sig_evictions <= cost.kicks <= CUCKOO_MAX_KICKS && words
                    == cost.kicks - cost.sig_evictions,
                Err(_) => words <= CUCKOO_MAX_KICKS,
            }
        }),
{
    lemma_words_of_a_run(
        table,
        home_bucket(key),
        key,
        action,
        Placement { kicks: 0, sig_evictions: 0 },
        draws,
    );
}

proof fn lemma_words_of_a_run(
    table: Seq<Seq<Lane>>,
    bucket: u32,
    key: u32,
    action: Action,
    cost: Placement,
    draws: Seq<u32>,
)
    requires
        cost.sig_evictions <= cost.kicks <= CUCKOO_MAX_KICKS,
    ensures
        ({
            let words = words_drawn(table, bucket, key, action, cost, draws);
            match insert_run(table, bucket, key, action, cost, draws).1 {
                Ok(last) => cost.kicks <= last.kicks && last.sig_evictions <= last.kicks
                    <= CUCKOO_MAX_KICKS && words == (
                last.kicks - last.sig_evictions) - (cost.kicks - cost.sig_evictions),
                Err(_) => words <= CUCKOO_MAX_KICKS - cost.kicks,
            }
        }),
    decreases CUCKOO_MAX_KICKS - cost.kicks,
{
    let alt = other_bucket(bucket, bucket_offset(key));
    if place_lane(table[bucket as int], key) is None && place_lane(table[alt as int], key) is None
        && cost.kicks < CUCKOO_MAX_KICKS {
        let same = first_lane(table[bucket as int], key_sig(key), 0);
        let collides = same < CUCKOO_LANES;
        let lane = if collides {
            same
        } else {
            draws[0] as int % 8
        };
        let victim = table[bucket as int][lane];
        lemma_words_of_a_run(
            with_key(table, bucket as int, lane, key, action),
            other_bucket(bucket, bucket_offset(victim.key)),
            victim.key,
            carried_action(victim.tag),
            Placement {
                kicks: (cost.kicks + 1) as u32,
                sig_evictions: if collides {
                    (cost.sig_evictions + 1) as u32
                } else {
                    cost.sig_evictions
                },
            },
            if collides {
                draws
            } else {
                draws.skip(1)
            },
        );
    }
}

/// A build is reproducible: two streams that agree on the words a run draws lead to the same table
/// and the same result.
pub proof fn the_words_drawn_decide_the_run(
    table: Seq<Seq<Lane>>,
    key: u32,
    action: Action,
    draws: Seq<u32>,
    others: Seq<u32>,
)
    requires
        ({
            let free = Placement { kicks: 0, sig_evictions: 0 };
            let words = words_drawn(table, home_bucket(key), key, action, free, draws);
            &&& words <= draws.len()
            &&& words <= others.len()
            &&& draws.take(words as int) == others.take(words as int)
        }),
    ensures
        ({
            let free = Placement { kicks: 0, sig_evictions: 0 };
            insert_run(table, home_bucket(key), key, action, free, draws) == insert_run(
                table,
                home_bucket(key),
                key,
                action,
                free,
                others,
            )
        }),
{
    let free = Placement { kicks: 0, sig_evictions: 0 };
    let words = words_drawn(table, home_bucket(key), key, action, free, draws) as int;
    assert forall|i: int| 0 <= i < words implies draws[i] == others[i] by {
        assert(draws.take(words)[i] == others.take(words)[i]);
    }
    lemma_words_decide(table, home_bucket(key), key, action, free, draws, others);
}

proof fn lemma_words_decide(
    table: Seq<Seq<Lane>>,
    bucket: u32,
    key: u32,
    action: Action,
    cost: Placement,
    draws: Seq<u32>,
    others: Seq<u32>,
)
    requires
        words_drawn(table, bucket, key, action, cost, draws) <= draws.len(),
        words_drawn(table, bucket, key, action, cost, draws) <= others.len(),
        forall|i: int|
            0 <= i < words_drawn(table, bucket, key, action, cost, draws) ==> draws[i] == others[i],
    ensures
        insert_run(table, bucket, key, action, cost, draws) == insert_run(
            table,
            bucket,
            key,
            action,
            cost,
            others,
        ),
    decreases CUCKOO_MAX_KICKS - cost.kicks,
{
    let alt = other_bucket(bucket, bucket_offset(key));
    if place_lane(table[bucket as int], key) is None && place_lane(table[alt as int], key) is None
        && cost.kicks < CUCKOO_MAX_KICKS {
        let same = first_lane(table[bucket as int], key_sig(key), 0);
        let collides = same < CUCKOO_LANES;
        let lane = if collides {
            same
        } else {
            draws[0] as int % 8
        };
        let victim = table[bucket as int][lane];
        lemma_words_decide(
            with_key(table, bucket as int, lane, key, action),
            other_bucket(bucket, bucket_offset(victim.key)),
            victim.key,
            carried_action(victim.tag),
            Placement {
                kicks: (cost.kicks + 1) as u32,
                sig_evictions: if collides {
                    (cost.sig_evictions + 1) as u32
                } else {
                    cost.sig_evictions
                },
            },
            if collides {
                draws
            } else {
                draws.skip(1)
            },
            if collides {
                others
            } else {
                others.skip(1)
            },
        );
    }
}

/// Whether a lane of a table holds a key.
pub open spec fn lane_used(table: Seq<Seq<Lane>>, bucket: int, lane: int) -> bool {
    0 <= bucket < CUCKOO_BUCKETS && 0 <= lane < CUCKOO_LANES && table[bucket][lane].sig != 0
}

/// Whether a bucket has no place for a new key of signature `sig`: it carries that signature, or
/// it is full.
pub open spec fn bucket_closed(bucket: Seq<Lane>, sig: u8) -> bool {
    ||| exists|lane: int| 0 <= lane < CUCKOO_LANES && #[trigger] bucket[lane].sig == sig
    ||| forall|lane: int| 0 <= lane < CUCKOO_LANES ==> #[trigger] bucket[lane].sig != 0
}

/// Whether a used lane is one that insertion writes: the signature of its key, a verdict, and one
/// of the two buckets of the key, the alternate one only where home had no place.
pub open spec fn lane_in_order(table: Seq<Seq<Lane>>, bucket: int, lane: int) -> bool {
    let held = table[bucket][lane];
    &&& held.sig == key_sig(held.key)
    &&& Action::decode(held.tag) is Some
    &&& bucket == home_bucket(held.key) || (bucket == alt_bucket(held.key) && bucket_closed(
        table[home_bucket(held.key) as int],
        key_sig(held.key),
    ))
}

/// The invariant of a table: every used lane is in order, no bucket carries a signature twice,
/// and no key has two lanes.
pub open spec fn buckets_in_order(table: Seq<Seq<Lane>>) -> bool {
    &&& table.len() >= CUCKOO_BUCKETS
    &&& forall|b: int| 0 <= b < table.len() ==> #[trigger] table[b].len() == CUCKOO_LANES
    &&& forall|b: int, l: int| #[trigger] lane_used(table, b, l) ==> lane_in_order(table, b, l)
    &&& forall|b: int, l: int, m: int|
        #[trigger] lane_used(table, b, l) && #[trigger] lane_used(table, b, m) && table[b][l].sig
            == table[b][m].sig ==> l == m
    &&& forall|b: int, l: int, c: int, m: int|
        #[trigger] lane_used(table, b, l) && #[trigger] lane_used(table, c, m) && table[b][l].key
            == table[c][m].key ==> b == c && l == m
}

/// Whether a key has a lane.
pub open spec fn stores_key(table: Seq<Seq<Lane>>, key: u32) -> bool {
    exists|b: int, l: int| #[trigger] lane_used(table, b, l) && table[b][l].key == key
}

/// The lane of a key.
pub open spec fn lane_of(table: Seq<Seq<Lane>>, key: u32) -> (int, int) {
    choose|b: int, l: int| #[trigger] lane_used(table, b, l) && table[b][l].key == key
}

/// The verdicts a table holds, by key.
pub open spec fn cuckoo_contents(table: Seq<Seq<Lane>>) -> Map<u32, Action> {
    Map::new(
        |key: u32| stores_key(table, key),
        |key: u32|
            {
                let (b, l) = lane_of(table, key);
                Action::decode(table[b][l].tag)->0
            },
    )
}

proof fn lemma_lane_of(table: Seq<Seq<Lane>>, bucket: int, lane: int)
    requires
        buckets_in_order(table),
        lane_used(table, bucket, lane),
    ensures
        stores_key(table, table[bucket][lane].key),
        lane_of(table, table[bucket][lane].key) == (bucket, lane),
{
    let key = table[bucket][lane].key;
    let (b, l) = lane_of(table, key);
    assert(lane_used(table, bucket, lane) && table[bucket][lane].key == key);
    assert(lane_used(table, b, l) && table[b][l].key == key);
}

proof fn lemma_first_lane_is_first(bucket: Seq<Lane>, sig: u8, from: int)
    requires
        0 <= from <= CUCKOO_LANES,
    ensures
        from <= first_lane(bucket, sig, from) <= CUCKOO_LANES,
        first_lane(bucket, sig, from) < CUCKOO_LANES ==> bucket[first_lane(bucket, sig, from)].sig
            == sig,
        forall|l: int| from <= l < first_lane(bucket, sig, from) ==> #[trigger] bucket[l].sig != sig,
    decreases CUCKOO_LANES - from,
{
    if from < CUCKOO_LANES && bucket[from].sig != sig {
        lemma_first_lane_is_first(bucket, sig, from + 1);
    }
}

/// The two buckets of a key are two, and each is the other of the other.
proof fn lemma_two_buckets(key: u32)
    ensures
        home_bucket(key) < CUCKOO_BUCKETS,
        alt_bucket(key) < CUCKOO_BUCKETS,
        home_bucket(key) != alt_bucket(key),
        other_bucket(alt_bucket(key), bucket_offset(key)) == home_bucket(key),
        key_sig(key) != 0,
{
    reveal(bucket_offset);
    let mixed = super::robin_hood::mix(key.wrapping_mul(CUCKOO_DELTA_MULTIPLIER));
    assert(0 < (mixed & 0x3_ffff) | 1 < 0x4_0000) by (bit_vector);
    cuckoo_alt_is_an_involution(home_bucket(key), bucket_offset(key));
}

/// What a bucket of a table in order answers is whether it holds the key.
proof fn lemma_bucket_answer(table: Seq<Seq<Lane>>, bucket: int, key: u32)
    requires
        buckets_in_order(table),
        0 <= bucket < CUCKOO_BUCKETS,
    ensures
        match bucket_answer(table[bucket], key, key_sig(key)) {
            Some(action) => exists|l: int|
                #[trigger] lane_used(table, bucket, l) && table[bucket][l].key == key
                    && Action::decode(table[bucket][l].tag) == Some(action),
            None => forall|l: int|
                #[trigger] lane_used(table, bucket, l) ==> table[bucket][l].key != key,
        },
{
    lemma_two_buckets(key);
    lemma_first_lane_is_first(table[bucket], key_sig(key), 0);
    let lane = first_lane(table[bucket], key_sig(key), 0);
    if lane < CUCKOO_LANES {
        assert(lane_used(table, bucket, lane));
        assert(lane_in_order(table, bucket, lane));
    }
    assert forall|l: int|
        #[trigger] lane_used(table, bucket, l) && table[bucket][l].key == key implies l == lane by {
        assert(lane_in_order(table, bucket, l));
        assert(lane <= l);
    }
}

/// A table in order answers for exactly the keys it holds, each with its own verdict.
pub proof fn cuckoo_lookup_finds_what_the_table_holds(table: Seq<Seq<Lane>>, key: u32)
    requires
        buckets_in_order(table),
    ensures
        cuckoo_answer(table, key) == (if cuckoo_contents(table).contains_key(key) {
            Some(cuckoo_contents(table)[key])
        } else {
            None
        }),
{
    let home = home_bucket(key) as int;
    let alt = alt_bucket(key) as int;
    lemma_two_buckets(key);
    lemma_bucket_answer(table, home, key);
    lemma_bucket_answer(table, alt, key);
    if stores_key(table, key) {
        let (b, l) = lane_of(table, key);
        assert(lane_used(table, b, l) && table[b][l].key == key);
        assert(lane_in_order(table, b, l));
        assert(b == home || b == alt);
    }
}

/// In whatever state a table is, what it answers comes from a lane holding the very key, so a
/// signature that collides costs a probe and never a wrong verdict.
pub proof fn cuckoo_verdict_belongs_to_its_key(table: Seq<Seq<Lane>>, key: u32)
    ensures
        cuckoo_answer(table, key) matches Some(action) ==> exists|b: int, l: int|
            #[trigger] lane_used(table, b, l) && table[b][l].key == key && Action::decode(
                table[b][l].tag,
            ) == Some(action),
{
    let home = home_bucket(key) as int;
    let alt = alt_bucket(key) as int;
    let sig = key_sig(key);
    lemma_two_buckets(key);
    lemma_first_lane_is_first(table[home], sig, 0);
    lemma_first_lane_is_first(table[alt], sig, 0);
    if bucket_answer(table[home], key, sig) is Some {
        assert(lane_used(table, home, first_lane(table[home], sig, 0)));
    } else if bucket_answer(table[alt], key, sig) is Some {
        assert(lane_used(table, alt, first_lane(table[alt], sig, 0)));
    }
}

/// A table of free lanes is in order and holds nothing.
pub proof fn cuckoo_free_table_is_empty(table: Seq<Seq<Lane>>)
    requires
        table.len() >= CUCKOO_BUCKETS,
        forall|b: int| 0 <= b < table.len() ==> #[trigger] table[b].len() == CUCKOO_LANES,
        forall|b: int, l: int| !#[trigger] lane_used(table, b, l),
    ensures
        buckets_in_order(table),
        cuckoo_contents(table) == Map::<u32, Action>::empty(),
{
    assert(cuckoo_contents(table) =~= Map::<u32, Action>::empty());
}

/// What one write leaves.
proof fn lemma_with_key_in_order(
    table: Seq<Seq<Lane>>,
    bucket: int,
    lane: int,
    key: u32,
    action: Action,
)
    requires
        buckets_in_order(table),
        0 <= lane < CUCKOO_LANES,
        bucket == home_bucket(key) || (bucket == alt_bucket(key) && bucket_closed(
            table[home_bucket(key) as int],
            key_sig(key),
        )),
        forall|b: int, l: int|
            #[trigger] lane_used(table, b, l) && table[b][l].key == key ==> b == bucket && l == lane,
        forall|l: int|
            #[trigger] lane_used(table, bucket, l) && table[bucket][l].sig == key_sig(key) ==> l
                == lane,
        table[bucket][lane].sig == 0 || table[bucket][lane].sig == key_sig(key) || (forall|l: int|
            0 <= l < CUCKOO_LANES ==> #[trigger] table[bucket][l].sig != 0),
    ensures
        ({
            let after = with_key(table, bucket, lane, key, action);
            let held = table[bucket][lane];
            &&& buckets_in_order(after)
            &&& forall|k: u32, sig: u8|
                #![trigger bucket_closed(table[home_bucket(k) as int], sig)]
                sig != 0 && bucket_closed(table[home_bucket(k) as int], sig) ==> bucket_closed(
                    after[home_bucket(k) as int],
                    sig,
                )
            &&& held.sig == 0 || held.key == key ==> cuckoo_contents(after) == cuckoo_contents(
                table,
            ).insert(key, action)
            &&& held.sig != 0 && held.key != key ==> !stores_key(after, held.key)
                && cuckoo_contents(after).insert(held.key, Action::decode(held.tag)->0)
                == cuckoo_contents(table).insert(key, action)
        }),
{
    let after = with_key(table, bucket, lane, key, action);
    let held = table[bucket][lane];
    lemma_two_buckets(key);
    crate::wire::verdict::action_round_trip(action);
    assert(0 <= bucket < CUCKOO_BUCKETS);
    assert(after[bucket][lane].key == key && after[bucket][lane].sig == key_sig(key));
    assert forall|b: int, l: int| !(b == bucket && l == lane) implies (lane_used(after, b, l)
        <==> lane_used(table, b, l)) && (lane_used(table, b, l) ==> after[b][l] == table[b][l]) by {}
    assert(lane_used(after, bucket, lane));
    assert forall|b: int, sig: u8|
        0 <= b < CUCKOO_BUCKETS && sig != 0 && #[trigger] bucket_closed(
            table[b],
            sig,
        ) implies bucket_closed(after[b], sig) by {
        if b == bucket {
            let full = forall|l: int| 0 <= l < CUCKOO_LANES ==> #[trigger] table[b][l].sig != 0;
            if full {
                assert forall|l: int| 0 <= l < CUCKOO_LANES implies #[trigger] after[b][l].sig
                    != 0 by {
                    assert(table[b][l].sig != 0);
                }
            } else {
                let l = choose|l: int| 0 <= l < CUCKOO_LANES && #[trigger] table[b][l].sig == sig;
                if l == lane {
                    assert(after[b][lane].sig == sig);
                } else {
                    assert(after[b][l].sig == sig);
                }
            }
        }
    }
    assert forall|k: u32, sig: u8|
        #![trigger bucket_closed(table[home_bucket(k) as int], sig)]
        sig != 0 && bucket_closed(table[home_bucket(k) as int], sig) implies bucket_closed(
        after[home_bucket(k) as int],
        sig,
    ) by {
        lemma_two_buckets(k);
    }
    assert forall|b: int, l: int| #[trigger] lane_used(after, b, l) implies lane_in_order(
        after,
        b,
        l,
    ) by {
        if b == bucket && l == lane {
            if bucket != home_bucket(key) {
                assert(bucket_closed(table[home_bucket(key) as int], key_sig(key)));
            }
        } else {
            assert(lane_used(table, b, l));
            assert(lane_in_order(table, b, l));
            lemma_two_buckets(table[b][l].key);
        }
    }
    assert forall|b: int, l: int, m: int|
        #[trigger] lane_used(after, b, l) && #[trigger] lane_used(after, b, m) && after[b][l].sig
            == after[b][m].sig implies l == m by {
        if !(b == bucket && l == lane) {
            assert(lane_used(table, b, l));
        }
        if !(b == bucket && m == lane) {
            assert(lane_used(table, b, m));
        }
    }
    assert forall|b: int, l: int, c: int, m: int|
        #[trigger] lane_used(after, b, l) && #[trigger] lane_used(after, c, m) && after[b][l].key
            == after[c][m].key implies b == c && l == m by {
        if !(b == bucket && l == lane) {
            assert(lane_used(table, b, l));
        }
        if !(c == bucket && m == lane) {
            assert(lane_used(table, c, m));
        }
    }
    assert(buckets_in_order(after));
    let carried = held.sig != 0 && held.key != key;
    if carried {
        assert(lane_used(table, bucket, lane));
        if stores_key(after, held.key) {
            let (b, l) = lane_of(after, held.key);
            assert(lane_used(after, b, l) && after[b][l].key == held.key);
            assert(lane_used(table, b, l));
        }
    }
    let left = if carried {
        cuckoo_contents(after).insert(held.key, Action::decode(held.tag)->0)
    } else {
        cuckoo_contents(after)
    };
    let right = cuckoo_contents(table).insert(key, action);
    lemma_lane_of(after, bucket, lane);
    assert forall|k: u32| left.contains_key(k) <==> right.contains_key(k) by {
        if stores_key(table, k) && k != key {
            let (b, l) = lane_of(table, k);
            assert(lane_used(table, b, l) && table[b][l].key == k);
            if !(b == bucket && l == lane) {
                assert(lane_used(after, b, l) && after[b][l].key == k);
            }
        }
        if stores_key(after, k) && k != key {
            let (b, l) = lane_of(after, k);
            assert(lane_used(after, b, l) && after[b][l].key == k);
            assert(lane_used(table, b, l) && table[b][l].key == k);
        }
        if carried {
            assert(lane_used(table, bucket, lane) && table[bucket][lane].key == held.key);
        }
    }
    assert forall|k: u32| left.contains_key(k) implies left[k] == right[k] by {
        if k != key {
            assert(stores_key(table, k));
            let (b, l) = lane_of(table, k);
            assert(lane_used(table, b, l) && table[b][l].key == k);
            if b == bucket && l == lane {
                assert(k == held.key);
                lemma_lane_of(table, bucket, lane);
            } else {
                assert(lane_used(after, b, l));
                lemma_lane_of(after, b, l);
                lemma_lane_of(table, b, l);
                if carried {
                    lemma_lane_of(table, bucket, lane);
                }
            }
        }
    }
    assert(left =~= right);
}

/// How many of the lanes of a bucket below `end` hold a key.
pub open spec fn used_lanes(bucket: Seq<Lane>, end: int) -> int
    decreases end,
{
    if end <= 0 {
        0
    } else {
        used_lanes(bucket, end - 1) + (if bucket[end - 1].sig != 0 {
            1int
        } else {
            0
        })
    }
}

/// How many lanes of the buckets of a table below `end` hold a key.
pub open spec fn table_lanes(table: Seq<Seq<Lane>>, end: int) -> int
    decreases end,
{
    if end <= 0 {
        0
    } else {
        table_lanes(table, end - 1) + used_lanes(table[end - 1], CUCKOO_LANES as int)
    }
}

/// Whether each bucket of two tables has as many lanes in use in one as in the other.
pub open spec fn lanes_kept(before: Seq<Seq<Lane>>, after: Seq<Seq<Lane>>) -> bool {
    &&& after.len() == before.len()
    &&& forall|b: int|
        0 <= b < before.len() ==> #[trigger] used_lanes(after[b], CUCKOO_LANES as int)
            == used_lanes(before[b], CUCKOO_LANES as int)
}

/// Whether bucket `at` has one lane more in use than before, and each other one as many.
pub open spec fn lane_filled(before: Seq<Seq<Lane>>, after: Seq<Seq<Lane>>, at: int) -> bool {
    &&& after.len() == before.len()
    &&& 0 <= at < before.len()
    &&& forall|b: int|
        0 <= b < before.len() ==> #[trigger] used_lanes(after[b], CUCKOO_LANES as int)
            == used_lanes(before[b], CUCKOO_LANES as int) + (if b == at {
            1int
        } else {
            0
        })
}

/// The occupancy of a bucket is read off its signatures alone: a lane holds a key where its
/// signature is not zero.
pub proof fn occupancy_counts_the_used_lanes(bucket: CuckooBucket, end: int)
    requires
        end <= CUCKOO_LANES,
    ensures
        occupied_lanes(bucket.sigs, end) == used_lanes(bucket@, end),
    decreases end,
{
    if end > 0 {
        occupancy_counts_the_used_lanes(bucket, end - 1);
        assert(bucket@[end - 1].sig == lane_sig(bucket.sigs, end - 1));
    }
}

/// What one write does to the count of a bucket.
proof fn lemma_used_lanes(bucket: Seq<Lane>, lane: int, held: Lane, end: int)
    requires
        0 <= lane < bucket.len(),
        end <= bucket.len(),
        held.sig != 0,
    ensures
        used_lanes(bucket.update(lane, held), end) == used_lanes(bucket, end) + (if lane < end
            && bucket[lane].sig == 0 {
            1int
        } else {
            0
        }),
    decreases end,
{
    if end > 0 {
        lemma_used_lanes(bucket, lane, held, end - 1);
    }
}

/// A write to a lane in use keeps every count; one to a free lane adds one.
proof fn lemma_with_key_lanes(
    table: Seq<Seq<Lane>>,
    bucket: int,
    lane: int,
    key: u32,
    action: Action,
)
    requires
        buckets_in_order(table),
        0 <= bucket < CUCKOO_BUCKETS,
        0 <= lane < CUCKOO_LANES,
    ensures
        ({
            let after = with_key(table, bucket, lane, key, action);
            if table[bucket][lane].sig == 0 {
                lane_filled(table, after, bucket)
            } else {
                lanes_kept(table, after)
            }
        }),
{
    lemma_two_buckets(key);
    lemma_used_lanes(
        table[bucket],
        lane,
        Lane { sig: key_sig(key), key, tag: action.code() },
        CUCKOO_LANES as int,
    );
}

/// The count of a table is the sum of those of its buckets.
proof fn lemma_table_lanes(before: Seq<Seq<Lane>>, after: Seq<Seq<Lane>>, end: int)
    requires
        end <= before.len(),
    ensures
        lanes_kept(before, after) ==> table_lanes(after, end) == table_lanes(before, end),
        forall|at: int| #[trigger]
            lane_filled(before, after, at) ==> table_lanes(after, end) == table_lanes(before, end)
                + (if at < end {
                1int
            } else {
                0
            }),
    decreases end,
{
    if end > 0 {
        lemma_table_lanes(before, after, end - 1);
    }
}

/// Where a key that the table does not hold may go: a free lane of a bucket without its
/// signature, or nowhere, and then the bucket is closed to it.
proof fn lemma_place_new_key(table: Seq<Seq<Lane>>, bucket: int, key: u32)
    requires
        buckets_in_order(table),
        0 <= bucket < CUCKOO_BUCKETS,
        !stores_key(table, key),
    ensures
        match place_lane(table[bucket], key) {
            Some(lane) => 0 <= lane < CUCKOO_LANES && table[bucket][lane].sig == 0 && forall|l: int|
                #[trigger] lane_used(table, bucket, l) ==> table[bucket][l].sig != key_sig(key),
            None => bucket_closed(table[bucket], key_sig(key)),
        },
{
    lemma_two_buckets(key);
    lemma_first_lane_is_first(table[bucket], key_sig(key), 0);
    lemma_first_lane_is_first(table[bucket], 0, 0);
    let same = first_lane(table[bucket], key_sig(key), 0);
    if same < CUCKOO_LANES {
        assert(lane_used(table, bucket, same));
        assert(table[bucket][same].sig == key_sig(key));
    }
}

/// The run of an insertion that carries a key the table does not hold.
proof fn lemma_run_adds_one_key(
    table: Seq<Seq<Lane>>,
    bucket: u32,
    key: u32,
    action: Action,
    cost: Placement,
    draws: Seq<u32>,
)
    requires
        buckets_in_order(table),
        !stores_key(table, key),
        bucket == home_bucket(key) || (bucket == alt_bucket(key) && bucket_closed(
            table[home_bucket(key) as int],
            key_sig(key),
        )),
    ensures
        ({
            let (after, result) = insert_run(table, bucket, key, action, cost, draws);
            let full = cuckoo_contents(table).insert(key, action);
            &&& buckets_in_order(after)
            &&& result is Ok ==> cuckoo_contents(after) == full
            &&& result is Err ==> exists|lost: u32|
                #[trigger] full.contains_key(lost) && cuckoo_contents(after) == full.remove(lost)
            &&& result is Ok ==> exists|at: int| #[trigger] lane_filled(table, after, at)
            &&& result is Err ==> lanes_kept(table, after)
        }),
    decreases CUCKOO_MAX_KICKS - cost.kicks,
{
    let alt = other_bucket(bucket, bucket_offset(key));
    let sig = key_sig(key);
    let full = cuckoo_contents(table).insert(key, action);
    lemma_two_buckets(key);
    assert(alt == home_bucket(key) || alt == alt_bucket(key));
    lemma_place_new_key(table, bucket as int, key);
    lemma_place_new_key(table, alt as int, key);
    match (place_lane(table[bucket as int], key), place_lane(table[alt as int], key)) {
        (Some(lane), _) => {
            lemma_with_key_in_order(table, bucket as int, lane, key, action);
            lemma_with_key_lanes(table, bucket as int, lane, key, action);
        },
        (None, Some(lane)) => {
            lemma_with_key_in_order(table, alt as int, lane, key, action);
            lemma_with_key_lanes(table, alt as int, lane, key, action);
        },
        (None, None) => if cost.kicks >= CUCKOO_MAX_KICKS {
            assert(full.contains_key(key) && cuckoo_contents(table) =~= full.remove(key));
        } else {
            let held = table[bucket as int];
            let same = first_lane(held, sig, 0);
            lemma_first_lane_is_first(held, sig, 0);
            lemma_first_lane_is_first(held, 0, 0);
            let collides = same < CUCKOO_LANES;
            let lane = if collides {
                same
            } else {
                draws[0] as int % 8
            };
            let victim = held[lane];
            assert(lane_used(table, bucket as int, lane));
            assert(lane_in_order(table, bucket as int, lane));
            assert forall|l: int|
                #[trigger] lane_used(table, bucket as int, l) && held[l].sig == sig implies l
                == lane by {
                assert(held[l].sig == sig);
            }
            lemma_with_key_in_order(table, bucket as int, lane, key, action);
            lemma_with_key_lanes(table, bucket as int, lane, key, action);
            assert(victim.key != key);
            let written = with_key(table, bucket as int, lane, key, action);
            lemma_two_buckets(victim.key);
            let next = other_bucket(bucket, bucket_offset(victim.key));
            if next == alt_bucket(victim.key) {
                let after = written[bucket as int];
                assert(bucket == home_bucket(victim.key));
                if collides {
                    assert(after[lane].sig == key_sig(victim.key));
                } else {
                    assert forall|l: int| 0 <= l < CUCKOO_LANES implies #[trigger] after[l].sig
                        != 0 by {
                        assert(held[l].sig != 0);
                    }
                }
                assert(bucket_closed(after, key_sig(victim.key)));
            }
            assert(carried_action(victim.tag) == Action::decode(victim.tag)->0);
            lemma_run_adds_one_key(
                written,
                next,
                victim.key,
                carried_action(victim.tag),
                Placement {
                    kicks: (cost.kicks + 1) as u32,
                    sig_evictions: if collides {
                        (cost.sig_evictions + 1) as u32
                    } else {
                        cost.sig_evictions
                    },
                },
                if collides {
                    draws
                } else {
                    draws.skip(1)
                },
            );
            let (after, result) = insert_run(table, bucket, key, action, cost, draws);
            if result is Ok {
                let at = choose|at: int| #[trigger] lane_filled(written, after, at);
                assert(lane_filled(table, after, at));
            }
        },
    }
}

/// A key already in the table is replaced rather than duplicated, at no cost and in no other lane.
pub proof fn cuckoo_insert_replaces(
    table: Seq<Seq<Lane>>,
    key: u32,
    action: Action,
    draws: Seq<u32>,
)
    requires
        buckets_in_order(table),
        cuckoo_contents(table).contains_key(key),
    ensures
        ({
            let free = Placement { kicks: 0, sig_evictions: 0 };
            let (after, result) = insert_run(table, home_bucket(key), key, action, free, draws);
            &&& result == Ok::<Placement, CuckooFull>(free)
            &&& buckets_in_order(after)
            &&& cuckoo_contents(after) == cuckoo_contents(table).insert(key, action)
            &&& lanes_kept(table, after)
        }),
{
    let home = home_bucket(key) as int;
    let alt = alt_bucket(key) as int;
    let sig = key_sig(key);
    let (bucket, lane) = lane_of(table, key);
    assert(lane_used(table, bucket, lane) && table[bucket][lane].key == key);
    assert(lane_in_order(table, bucket, lane));
    lemma_two_buckets(key);
    lemma_first_lane_is_first(table[home], sig, 0);
    lemma_first_lane_is_first(table[home], 0, 0);
    lemma_first_lane_is_first(table[bucket], sig, 0);
    let same = first_lane(table[bucket], sig, 0);
    assert(lane_used(table, bucket, same));
    assert(same == lane);
    if bucket != home {
        let other = first_lane(table[home], sig, 0);
        if other < CUCKOO_LANES {
            assert(lane_used(table, home, other));
            assert(table[home][other].key != key);
        }
        assert(place_lane(table[home], key) is None);
    }
    lemma_with_key_in_order(table, bucket, lane, key, action);
    lemma_with_key_lanes(table, bucket, lane, key, action);
}

/// Insertion into a table in order leaves a table in order, whatever words are drawn. Where it
/// succeeds, the table holds the key with the verdict given and every other key as before; where
/// it gives up, exactly one key is missing, which may be the new one.
pub proof fn cuckoo_insert_adds_one_key(
    table: Seq<Seq<Lane>>,
    key: u32,
    action: Action,
    draws: Seq<u32>,
)
    requires
        buckets_in_order(table),
    ensures
        ({
            let free = Placement { kicks: 0, sig_evictions: 0 };
            let (after, result) = insert_run(table, home_bucket(key), key, action, free, draws);
            let full = cuckoo_contents(table).insert(key, action);
            &&& buckets_in_order(after)
            &&& result is Ok ==> cuckoo_contents(after) == full
            &&& result is Err ==> exists|lost: u32|
                #[trigger] full.contains_key(lost) && cuckoo_contents(after) == full.remove(lost)
        }),
{
    if stores_key(table, key) {
        cuckoo_insert_replaces(table, key, action, draws);
    } else {
        let free = Placement { kicks: 0, sig_evictions: 0 };
        lemma_run_adds_one_key(table, home_bucket(key), key, action, free, draws);
    }
}

/// A new key that is inserted takes exactly one free lane, wherever the keys it displaced went. A
/// key already held takes none, and an insertion that gives up leaves as many lanes in use in
/// every bucket as there were.
pub proof fn cuckoo_insert_fills_one_lane(
    table: Seq<Seq<Lane>>,
    key: u32,
    action: Action,
    draws: Seq<u32>,
)
    requires
        buckets_in_order(table),
    ensures
        ({
            let free = Placement { kicks: 0, sig_evictions: 0 };
            let (after, result) = insert_run(table, home_bucket(key), key, action, free, draws);
            let end = table.len() as int;
            if result is Ok && !cuckoo_contents(table).contains_key(key) {
                &&& exists|at: int| #[trigger] lane_filled(table, after, at)
                &&& table_lanes(after, end) == table_lanes(table, end) + 1
            } else {
                &&& lanes_kept(table, after)
                &&& table_lanes(after, end) == table_lanes(table, end)
            }
        }),
{
    let free = Placement { kicks: 0, sig_evictions: 0 };
    let (after, result) = insert_run(table, home_bucket(key), key, action, free, draws);
    if stores_key(table, key) {
        cuckoo_insert_replaces(table, key, action, draws);
    } else {
        lemma_run_adds_one_key(table, home_bucket(key), key, action, free, draws);
    }
    lemma_table_lanes(table, after, table.len() as int);
}

/// Two tables that hold the same verdicts answer alike, whichever way each is laid out.
pub proof fn both_tables_answer_alike(
    robin_hood: Seq<super::robin_hood::OaSlot>,
    cuckoo: Seq<Seq<Lane>>,
    key: u32,
)
    requires
        super::robin_hood::table_in_order(robin_hood),
        buckets_in_order(cuckoo),
        super::robin_hood::table_contents(robin_hood) == cuckoo_contents(cuckoo),
    ensures
        super::robin_hood::table_answer(robin_hood, key) == cuckoo_answer(cuckoo, key),
{
    super::robin_hood::oa_lookup_finds_what_the_table_holds(robin_hood, key);
    cuckoo_lookup_finds_what_the_table_holds(cuckoo, key);
}

/// A new key displaces another only where both of its buckets are closed to it, each full or
/// carrying its signature already. Where one is not, it costs nothing.
pub proof fn cuckoo_insert_displaces_only_where_it_must(
    table: Seq<Seq<Lane>>,
    key: u32,
    action: Action,
    draws: Seq<u32>,
)
    requires
        buckets_in_order(table),
        !cuckoo_contents(table).contains_key(key),
    ensures
        ({
            let free = Placement { kicks: 0, sig_evictions: 0 };
            let result = insert_run(table, home_bucket(key), key, action, free, draws).1;
            let closed = bucket_closed(table[home_bucket(key) as int], key_sig(key)) && bucket_closed(
                table[alt_bucket(key) as int],
                key_sig(key),
            );
            &&& !closed ==> result == Ok::<Placement, CuckooFull>(free)
            &&& closed && result is Ok ==> result->Ok_0.kicks > 0
        }),
{
    let free = Placement { kicks: 0, sig_evictions: 0 };
    let home = home_bucket(key);
    let alt = alt_bucket(key);
    lemma_two_buckets(key);
    lemma_place_new_key(table, home as int, key);
    lemma_place_new_key(table, alt as int, key);
    lemma_first_lane_is_first(table[home as int], 0, 0);
    lemma_first_lane_is_first(table[alt as int], 0, 0);
    assert(place_lane(table[home as int], key) is Some ==> !bucket_closed(
        table[home as int],
        key_sig(key),
    )) by {
        lemma_open_bucket(table, home as int, key);
    }
    assert(place_lane(table[alt as int], key) is Some ==> !bucket_closed(
        table[alt as int],
        key_sig(key),
    )) by {
        lemma_open_bucket(table, alt as int, key);
    }
    if place_lane(table[home as int], key) is None && place_lane(table[alt as int], key) is None {
        let same = first_lane(table[home as int], key_sig(key), 0);
        let collides = same < CUCKOO_LANES;
        let lane = if collides {
            same
        } else {
            draws[0] as int % 8
        };
        let victim = table[home as int][lane];
        lemma_words_of_a_run(
            with_key(table, home as int, lane, key, action),
            other_bucket(home, bucket_offset(victim.key)),
            victim.key,
            carried_action(victim.tag),
            Placement {
                kicks: 1,
                sig_evictions: if collides {
                    1
                } else {
                    0
                },
            },
            if collides {
                draws
            } else {
                draws.skip(1)
            },
        );
    }
}

/// A bucket that has a place for a new key is not closed to it.
proof fn lemma_open_bucket(table: Seq<Seq<Lane>>, bucket: int, key: u32)
    requires
        buckets_in_order(table),
        0 <= bucket < CUCKOO_BUCKETS,
        !stores_key(table, key),
    ensures
        place_lane(table[bucket], key) is Some ==> !bucket_closed(table[bucket], key_sig(key)),
{
    lemma_two_buckets(key);
    lemma_place_new_key(table, bucket, key);
    if let Some(lane) = place_lane(table[bucket], key) {
        assert(table[bucket][lane].sig == 0);
        assert forall|l: int| 0 <= l < CUCKOO_LANES implies #[trigger] table[bucket][l].sig
            != key_sig(key) by {
            if table[bucket][l].sig != 0 {
                assert(lane_used(table, bucket, l));
            }
        }
    }
}

/// A new key that its home bucket is open to goes there, to the first lane that is free, and
/// nothing else moves; where home is closed and the other bucket is open, it goes there likewise.
pub proof fn cuckoo_insert_prefers_home(
    table: Seq<Seq<Lane>>,
    key: u32,
    action: Action,
    draws: Seq<u32>,
    bucket: int,
    lane: int,
)
    requires
        buckets_in_order(table),
        !cuckoo_contents(table).contains_key(key),
        bucket == home_bucket(key) || (bucket == alt_bucket(key) && bucket_closed(
            table[home_bucket(key) as int],
            key_sig(key),
        )),
        0 <= lane < 8,
        table[bucket][lane].sig == 0,
        forall|l: int| 0 <= l < lane ==> #[trigger] table[bucket][l].sig != 0,
        forall|l: int| 0 <= l < 8 ==> #[trigger] table[bucket][l].sig != key_sig(key),
    ensures
        ({
            let free = Placement { kicks: 0, sig_evictions: 0 };
            let after = insert_run(table, home_bucket(key), key, action, free, draws).0;
            &&& after[bucket][lane] == (Lane { sig: key_sig(key), key, tag: action.code() })
            &&& after.len() == table.len()
            &&& forall|b: int| 0 <= b < table.len() && b != bucket ==> #[trigger] after[b] == table[b]
            &&& forall|l: int| 0 <= l < 8 && l != lane ==> #[trigger] after[bucket][l]
                == table[bucket][l]
        }),
{
    lemma_two_buckets(key);
    lemma_first_lane_is_first(table[bucket], 0, 0);
    lemma_first_lane_is_first(table[bucket], key_sig(key), 0);
    lemma_open_bucket(table, home_bucket(key) as int, key);
    let free = first_lane(table[bucket], 0, 0);
    assert(free == lane) by {
        if free < lane {
            assert(table[bucket][free].sig != 0);
        }
    }
    let same = first_lane(table[bucket], key_sig(key), 0);
    assert(same == CUCKOO_LANES) by {
        if same < CUCKOO_LANES {
            assert(table[bucket][same].sig != key_sig(key));
        }
    }
    assert(place_lane(table[bucket], key) == Some(lane));
}

/// The home bucket and the signature are the two ends of one hash: its top eighteen bits, and its
/// low eight with zero made one.
pub proof fn a_home_bucket_and_a_signature_are_of_one_hash(key: u32)
    ensures
        home_bucket(key) * 0x4000 <= bucket_hash(key) < (home_bucket(key) + 1) * 0x4000,
        key_sig(key) != 0,
        bucket_hash(key) % 0x100 != 0 ==> key_sig(key) == bucket_hash(key) % 0x100,
        bucket_hash(key) == super::robin_hood::key_hash(key),
{
    reveal(bucket_hash);
    reveal(super::robin_hood::key_hash);
}

/// A key on its way: the table as it stands, the bucket it is carried to, and the words that are
/// left to draw.
pub struct Carried {
    pub table: Seq<Seq<Lane>>,
    pub bucket: u32,
    pub key: u32,
    pub action: Action,
    pub draws: Seq<u32>,
}

/// Whether a carried key has a place in either of its buckets.
pub open spec fn settles(carried: Carried) -> bool {
    place_lane(carried.table[carried.bucket as int], carried.key) is Some || place_lane(
        carried.table[other_bucket(carried.bucket, bucket_offset(carried.key)) as int],
        carried.key,
    ) is Some
}

/// One displacement: the carried key takes a lane, and what was in it is carried to its other
/// bucket.
pub open spec fn displaced(carried: Carried) -> Carried {
    let same = first_lane(carried.table[carried.bucket as int], key_sig(carried.key), 0);
    let lane = if same < 8 {
        same
    } else {
        carried.draws[0] as int % 8
    };
    let victim = carried.table[carried.bucket as int][lane];
    Carried {
        table: with_key(
            carried.table,
            carried.bucket as int,
            lane,
            carried.key,
            carried.action,
        ),
        bucket: other_bucket(carried.bucket, bucket_offset(victim.key)),
        key: victim.key,
        action: carried_action(victim.tag),
        draws: if same < 8 {
            carried.draws
        } else {
            carried.draws.skip(1)
        },
    }
}

/// What is carried after so many displacements, of which there may be any number.
pub open spec fn displaced_times(carried: Carried, times: nat) -> Carried
    decreases times,
{
    if times == 0 {
        carried
    } else {
        displaced_times(displaced(carried), (times - 1) as nat)
    }
}

/// An insertion gives up after five hundred displacements and no sooner: it fails exactly where
/// none of the keys carried up to then has a place. Where it succeeds, the displacements it reports
/// are those up to the first key that has one.
pub proof fn cuckoo_insert_gives_up_after_five_hundred_displacements(
    table: Seq<Seq<Lane>>,
    key: u32,
    action: Action,
    draws: Seq<u32>,
)
    ensures
        ({
            let free = Placement { kicks: 0, sig_evictions: 0 };
            let start = Carried { table, bucket: home_bucket(key), key, action, draws };
            let result = insert_run(table, home_bucket(key), key, action, free, draws).1;
            &&& result is Err <==> forall|times: nat|
                times <= 500 ==> !settles(#[trigger] displaced_times(start, times))
            &&& result matches Ok(cost) ==> cost.kicks <= 500 && settles(
                displaced_times(start, cost.kicks as nat),
            ) && forall|times: nat|
                times < cost.kicks ==> !settles(#[trigger] displaced_times(start, times))
        }),
{
    lemma_gives_up(
        Carried { table, bucket: home_bucket(key), key, action, draws },
        Placement { kicks: 0, sig_evictions: 0 },
    );
}

proof fn lemma_gives_up(carried: Carried, cost: Placement)
    requires
        cost.sig_evictions <= cost.kicks <= CUCKOO_MAX_KICKS,
    ensures
        ({
            let left = (CUCKOO_MAX_KICKS - cost.kicks) as nat;
            let result = insert_run(
                carried.table,
                carried.bucket,
                carried.key,
                carried.action,
                cost,
                carried.draws,
            ).1;
            &&& result is Err <==> forall|times: nat|
                times <= left ==> !settles(#[trigger] displaced_times(carried, times))
            &&& result matches Ok(last) ==> cost.kicks <= last.kicks <= CUCKOO_MAX_KICKS && settles(
                displaced_times(carried, (last.kicks - cost.kicks) as nat),
            ) && forall|times: nat|
                times < last.kicks - cost.kicks ==> !settles(
                    #[trigger] displaced_times(carried, times),
                )
        }),
    decreases CUCKOO_MAX_KICKS - cost.kicks,
{
    let left = (CUCKOO_MAX_KICKS - cost.kicks) as nat;
    assert(displaced_times(carried, 0) == carried);
    if settles(carried) {
        assert(settles(displaced_times(carried, 0)));
    } else if cost.kicks >= CUCKOO_MAX_KICKS {
        assert forall|times: nat| times <= left implies !settles(
            #[trigger] displaced_times(carried, times),
        ) by {
            assert(times == 0);
        }
    } else {
        let next = displaced(carried);
        let same = first_lane(carried.table[carried.bucket as int], key_sig(carried.key), 0);
        let spent = Placement {
            kicks: (cost.kicks + 1) as u32,
            sig_evictions: if same < CUCKOO_LANES {
                (cost.sig_evictions + 1) as u32
            } else {
                cost.sig_evictions
            },
        };
        lemma_gives_up(next, spent);
        let result = insert_run(
            carried.table,
            carried.bucket,
            carried.key,
            carried.action,
            cost,
            carried.draws,
        ).1;
        assert(result == insert_run(next.table, next.bucket, next.key, next.action, spent, next.draws).1);
        assert forall|times: nat| times > 0 implies #[trigger] displaced_times(carried, times)
            == displaced_times(next, (times - 1) as nat) by {}
        if result is Err {
            assert forall|times: nat| times <= left implies !settles(
                #[trigger] displaced_times(carried, times),
            ) by {
                if times > 0 {
                    assert(!settles(displaced_times(next, (times - 1) as nat)));
                }
            }
        } else {
            let last = result->Ok_0;
            let times = (last.kicks - cost.kicks) as nat;
            assert(displaced_times(carried, times) == displaced_times(next, (times - 1) as nat));
            assert forall|earlier: nat| earlier < times implies !settles(
                #[trigger] displaced_times(carried, earlier),
            ) by {
                if earlier > 0 {
                    assert(!settles(displaced_times(next, (earlier - 1) as nat)));
                }
            }
        }
    }
}

} // verus!
