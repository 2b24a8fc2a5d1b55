//! The open-addressed table of exact IPv4 keys.
//!
//! Robin Hood insertion bounds the maximum probe length, and the maximum is the only thing an
//! unrolled lookup can be compiled against. A slot carries the fingerprint of the key it was
//! written for, so a slot torn between two snapshots reads as somebody else's instead of
//! answering with a verdict nobody decided.

use vstd::prelude::*;

use crate::wire::Action;

verus! {

/// Log2 of the slot count. Sized so a million keys sit at a load factor of 0.477.
pub const OA_INDEX_BITS: u32 = 21;

/// Slot count. A power of two, so [`OA_INDEX_MASK`] takes any `u32` to a valid index.
pub const OA_SLOTS: usize = 0x20_0000;

/// Mask taking any `u32` to a valid slot index.
pub const OA_INDEX_MASK: u32 = 0x1f_ffff;

/// Size of the table. 16 MiB.
pub const OA_BYTES: usize = 0x100_0000;

/// Symbol of the `.bss` global carrying [`OA_SLOTS`] slots.
pub const OA_TABLE_SYMBOL: &'static str = "OA_TABLE";

/// Largest number of keys a snapshot may carry: a load factor of one half.
pub const OA_MAX_KEYS: usize = 0x10_0000;

/// Probes the packet path unrolls, and one more than the longest probe sequence length an
/// insertion may reach.
pub const OA_PROBES: u32 = 16;

/// Set when the slot holds a key. Without it a free slot and `0.0.0.0` would be the same bit
/// pattern.
pub const OA_TAG_OCCUPIED: u32 = 1;

/// Shift of the three verdict bits.
pub const OA_TAG_ACTION_SHIFT: u32 = 1;

/// Mask of the verdict field, before shifting.
pub const OA_TAG_ACTION_MASK: u32 = 0b111;

/// Shift of the probe sequence length.
pub const OA_TAG_PSL_SHIFT: u32 = 8;

/// Mask of the probe sequence length field, before shifting.
pub const OA_TAG_PSL_MASK: u32 = 0xff;

/// Shift of the key fingerprint.
pub const OA_TAG_FINGERPRINT_SHIFT: u32 = 16;

/// Mask of the key fingerprint, before shifting.
pub const OA_TAG_FINGERPRINT_MASK: u32 = 0xff;

/// Odd multiplier of the multiply-shift, 2^32 divided by the golden ratio.
pub const OA_MULTIPLIER: u32 = 0x9e37_79b1;

/// Symbol of the `.rodata` boolean that keeps the `LPM_TRIE` stage in the program.
pub const BLOCKLIST_TRIE_SYMBOL: &'static str = "BLOCKLIST_TRIE";

/// One slot: key and tag, eight bytes.
#[derive(Clone, Copy, PartialEq, Eq, Debug, Structural)]
pub struct OaSlot {
    /// The full IPv4 address, host order. Meaningful only when the tag says occupied.
    pub key: u32,
    /// Occupancy, verdict, probe sequence length and fingerprint. See [`oa_tag`].
    pub tag: u32,
}

impl Default for OaSlot {
    /// A free slot, as a zeroed table holds it.
    fn default() -> (slot: Self)
        ensures
            slot == (OaSlot { key: 0, tag: 0 }),
    {
        OaSlot { key: 0, tag: 0 }
    }
}

/// Murmur3's 32-bit finalizer.
pub open spec fn mix(h: u32) -> u32 {
    let a = h ^ (h >> 16);
    let b = a.wrapping_mul(0x85eb_ca6b);
    let c = b ^ (b >> 13);
    let d = c.wrapping_mul(0xc2b2_ae35);
    d ^ (d >> 16)
}

/// Murmur3's 32-bit finalizer.
pub fn fmix32(h: u32) -> (mixed: u32)
    ensures
        mixed == mix(h),
{
    let a: u32 = h ^ (h >> 16);
    let b: u32 = a.wrapping_mul(0x85eb_ca6b);
    let c: u32 = b ^ (b >> 13);
    let d: u32 = c.wrapping_mul(0xc2b2_ae35);
    d ^ (d >> 16)
}

/// The hash of a key, whose top bits are its home slot and whose low byte is its fingerprint.
#[verifier::opaque]
pub open spec fn key_hash(key: u32) -> u32 {
    mix(key.wrapping_mul(OA_MULTIPLIER))
}

/// The home slot of a key.
pub open spec fn home_slot(key: u32) -> int {
    key_hash(key) as int / 2048
}

/// The fingerprint of a key.
pub open spec fn fingerprint(key: u32) -> u8 {
    (key_hash(key) % 256) as u8
}

/// Home index of a key.
pub fn oa_index(key: u32) -> (index: u32)
    ensures
        index == home_slot(key),
        index < OA_SLOTS,
{
    reveal(key_hash);
    let hash: u32 = fmix32(key.wrapping_mul(OA_MULTIPLIER));
    assert(hash >> 11u32 == hash / 2048 && hash / 2048 < 0x20_0000) by (bit_vector);
    hash >> (32 - OA_INDEX_BITS)
}

/// Eight bits of the key's own hash, stored in the tag beside the verdict.
pub fn oa_fingerprint(key: u32) -> (byte: u8)
    ensures
        byte == fingerprint(key),
{
    reveal(key_hash);
    let hash: u32 = fmix32(key.wrapping_mul(OA_MULTIPLIER));
    assert(hash as u8 == (hash % 256) as u8) by (bit_vector);
    hash as u8
}

/// The next slot in a probe sequence.
pub fn oa_step(index: u32) -> (next: u32)
    ensures
        next == (index as int + 1) % (OA_SLOTS as int),
{
    let next: u32 = index.wrapping_add(1);
    assert(next & 0x1f_ffff == next % 0x20_0000) by (bit_vector);
    next & OA_INDEX_MASK
}

proof fn lemma_masked_index(index: u32)
    by (bit_vector)
    requires
        index < 0x20_0000,
    ensures
        index & 0x1f_ffff == index,
{
}

/// Whether a tag marks an occupied slot.
pub open spec fn tag_occupied(tag: u32) -> bool {
    tag % 2 == 1
}

/// The verdict field of a tag.
pub open spec fn tag_action(tag: u32) -> Option<Action> {
    Action::decode((tag / 2 % 8) as u8)
}

/// The probe sequence length field of a tag: how far the slot sits from the home of its key.
pub open spec fn tag_psl(tag: u32) -> u8 {
    (tag / 256 % 256) as u8
}

/// The fingerprint field of a tag.
pub open spec fn tag_fingerprint(tag: u32) -> u8 {
    (tag / 65536 % 256) as u8
}

/// The tag of a key: the four fields side by side.
pub open spec fn tag_of(key: u32, action: Action, psl: u8) -> u32 {
    (1 + 2 * action.code() + 256 * psl + 65536 * fingerprint(key)) as u32
}

/// Builds a tag for a key. It takes the key rather than a fingerprint, so a caller cannot write
/// a tag whose fingerprint belongs to another key.
pub fn oa_tag(key: u32, action: Action, psl: u8) -> (tag: u32)
    ensures
        tag == tag_of(key, action, psl),
{
    let code: u32 = action.to_u8() as u32;
    let distance: u32 = psl as u32;
    let print: u32 = oa_fingerprint(key) as u32;
    assert(1u32 | ((code & 0b111) << 1) | (distance << 8) | (print << 16) == 1 + 2 * code + 256
        * distance + 65536 * print) by (bit_vector)
        requires
            code <= 4,
            distance < 256,
            print < 256,
    ;
    OA_TAG_OCCUPIED | (code & OA_TAG_ACTION_MASK) << OA_TAG_ACTION_SHIFT | distance
        << OA_TAG_PSL_SHIFT | print << OA_TAG_FINGERPRINT_SHIFT
}

/// Whether a tag marks an occupied slot.
pub fn oa_occupied(tag: u32) -> (occupied: bool)
    ensures
        occupied == tag_occupied(tag),
{
    assert(tag & 1 == tag % 2) by (bit_vector);
    tag & OA_TAG_OCCUPIED != 0
}

/// The verdict a tag carries. `None` for a code no [`Action`] has, which is a corrupt table
/// rather than a configuration choice.
pub fn oa_action(tag: u32) -> (action: Option<Action>)
    ensures
        action == tag_action(tag),
{
    assert((tag >> 1u32) & 0b111 == tag / 2 % 8) by (bit_vector);
    Action::from_u8(((tag >> OA_TAG_ACTION_SHIFT) & OA_TAG_ACTION_MASK) as u8)
}

/// The probe sequence length a tag carries: how far the slot sits from its home index.
pub fn oa_psl(tag: u32) -> (psl: u8)
    ensures
        psl == tag_psl(tag),
{
    assert((tag >> 8u32) & 0xff == tag / 256 % 256) by (bit_vector);
    ((tag >> OA_TAG_PSL_SHIFT) & OA_TAG_PSL_MASK) as u8
}

/// The fingerprint a tag carries.
pub fn oa_tag_fingerprint(tag: u32) -> (byte: u8)
    ensures
        byte == tag_fingerprint(tag),
{
    assert((tag >> 16u32) & 0xff == tag / 65536 % 256) by (bit_vector);
    ((tag >> OA_TAG_FINGERPRINT_SHIFT) & OA_TAG_FINGERPRINT_MASK) as u8
}

/// A tag gives back the four things it was built from.
pub proof fn oa_tag_round_trip(key: u32, action: Action, psl: u8)
    ensures
        tag_occupied(tag_of(key, action, psl)),
        tag_action(tag_of(key, action, psl)) == Some(action),
        tag_psl(tag_of(key, action, psl)) == psl,
        tag_fingerprint(tag_of(key, action, psl)) == fingerprint(key),
{
    let code = action.code() as u32;
    let distance = psl as u32;
    let print = fingerprint(key) as u32;
    let tag = tag_of(key, action, psl);
    assert(tag % 2 == 1 && tag / 2 % 8 == code && tag / 256 % 256 == distance && tag / 65536 % 256
        == print) by (bit_vector)
        requires
            tag == 1 + 2 * code + 256 * distance + 65536 * print,
            code <= 4,
            distance < 256,
            print < 256,
    ;
}

/// The slot `distance` steps along the probe sequence of a key.
pub open spec fn probe_slot(key: u32, distance: int) -> int {
    (home_slot(key) + distance) % (OA_SLOTS as int)
}

/// Whether the slot at `distance` answers for the key: occupied, written for a key of the same
/// fingerprint, and holding this key.
pub open spec fn slot_answers(table: Seq<OaSlot>, key: u32, distance: int) -> bool {
    let slot = table[probe_slot(key, distance)];
    tag_occupied(slot.tag) && tag_fingerprint(slot.tag) == fingerprint(key) && slot.key == key
}

/// Whether the probe sequence of a key ends at `distance`: the slot is free, or it answers, or
/// it sits closer to its own home than the distance walked.
pub open spec fn probe_ends(table: Seq<OaSlot>, key: u32, distance: int) -> bool {
    let slot = table[probe_slot(key, distance)];
    !tag_occupied(slot.tag) || slot_answers(table, key, distance) || tag_psl(slot.tag) < distance
}

/// The first distance, from `distance` on, at which the probe sequence ends; [`OA_PROBES`]
/// where it does not.
pub open spec fn probe_length(table: Seq<OaSlot>, key: u32, distance: int) -> int
    decreases OA_PROBES - distance,
{
    if distance >= OA_PROBES {
        OA_PROBES as int
    } else if probe_ends(table, key, distance) {
        distance
    } else {
        probe_length(table, key, distance + 1)
    }
}

/// What a table answers for a key: the verdict of the slot the probe sequence ends at, where
/// that slot answers for the key.
pub open spec fn table_answer(table: Seq<OaSlot>, key: u32) -> Option<Action> {
    let distance = probe_length(table, key, 0);
    if distance < OA_PROBES && slot_answers(table, key, distance) {
        tag_action(table[probe_slot(key, distance)].tag)
    } else {
        None
    }
}

/// The reference lookup.
///
/// Three exits, and the third is the Robin Hood invariant: a slot whose own probe sequence
/// length is shorter than the distance walked cannot be followed by the key, because insertion
/// would have displaced it.
pub fn oa_lookup(table: &[OaSlot], key: u32) -> (action: Option<Action>)
    requires
        table@.len() >= OA_SLOTS,
    ensures
        action == table_answer(table@, key),
{
    let mut index: u32 = oa_index(key);
    let mut distance: u32 = 0;
    let print: u8 = oa_fingerprint(key);
    while distance < OA_PROBES
        invariant
            table@.len() >= OA_SLOTS,
            distance <= OA_PROBES,
            index == probe_slot(key, distance as int),
            index < OA_SLOTS,
            print == fingerprint(key),
            probe_length(table@, key, 0) == probe_length(table@, key, distance as int),
        decreases OA_PROBES - distance,
    {
        proof {
            lemma_masked_index(index);
        }
        let slot: OaSlot = table[(index & OA_INDEX_MASK) as usize];
        if !oa_occupied(slot.tag) {
            return None;
        }
        if print == oa_tag_fingerprint(slot.tag) && slot.key == key {
            return oa_action(slot.tag);
        }
        if (oa_psl(slot.tag) as u32) < distance {
            return None;
        }
        index = oa_step(index);
        distance += 1;
    }
    None
}

/// How much probe sequence length the slots of a table can still gain before each sits at
/// [`OA_PROBES`].
pub open spec fn table_slack(table: Seq<OaSlot>) -> nat
    decreases table.len(),
{
    if table.len() == 0 {
        0
    } else {
        table_slack(table.drop_last()) + slot_slack(table.last())
    }
}

/// What one slot contributes to [`table_slack`].
pub open spec fn slot_slack(slot: OaSlot) -> nat {
    if tag_psl(slot.tag) >= OA_PROBES {
        0
    } else {
        (OA_PROBES - tag_psl(slot.tag)) as nat
    }
}

proof fn lemma_slack_update(table: Seq<OaSlot>, at: int, slot: OaSlot)
    requires
        0 <= at < table.len(),
    ensures
        table_slack(table.update(at, slot)) + slot_slack(table[at]) == table_slack(table)
            + slot_slack(slot),
    decreases table.len(),
{
    let updated = table.update(at, slot);
    if at == table.len() - 1 {
        assert(updated.drop_last() =~= table.drop_last());
    } else {
        assert(updated.drop_last() =~= table.drop_last().update(at, slot));
        lemma_slack_update(table.drop_last(), at, slot);
    }
}

/// An occupant that sits closer to its home than the key taking its slot leaves less slack.
pub proof fn lemma_displacing_uses_slack(
    table: Seq<OaSlot>,
    at: int,
    key: u32,
    action: Action,
    distance: int,
)
    requires
        0 <= at < table.len(),
        tag_psl(table[at].tag) < distance < OA_PROBES,
    ensures
        table_slack(
            table.update(at, OaSlot { key, tag: tag_of(key, action, distance as u8) }),
        ) < table_slack(table),
{
    oa_tag_round_trip(key, action, distance as u8);
    lemma_slack_update(table, at, OaSlot { key, tag: tag_of(key, action, distance as u8) });
}

/// The walk of an insertion that carries a key at slot `index`, `distance` steps from the home
/// of that key: the table it leaves, and the probe sequence length of the first key it wrote,
/// which is `placed` where one was written before.
///
/// A slot is taken when it is free, or when its occupant sits closer to its own home than the
/// carried key does; the occupant is then carried on from the next slot. The walk fails where
/// it would place a key [`OA_PROBES`] or more from home, or carry a slot that holds no verdict.
pub open spec fn insert_walk(
    table: Seq<OaSlot>,
    index: int,
    key: u32,
    action: Action,
    distance: int,
    placed: Option<u8>,
) -> (Seq<OaSlot>, Option<u8>)
    decreases table_slack(table), OA_PROBES - distance,
    when table.len() >= OA_SLOTS && 0 <= index < OA_SLOTS
{
    let slot = table[index];
    let next = (index + 1) % (OA_SLOTS as int);
    if distance >= OA_PROBES {
        (table, None)
    } else if tag_occupied(slot.tag) && tag_psl(slot.tag) >= distance {
        insert_walk(table, next, key, action, distance + 1, placed)
    } else {
        let written = table.update(
            index,
            OaSlot { key, tag: tag_of(key, action, distance as u8) },
        );
        let first = if placed is None {
            Some(distance as u8)
        } else {
            placed
        };
        if !tag_occupied(slot.tag) {
            (written, first)
        } else {
            match tag_action(slot.tag) {
                None => (written, None),
                Some(carried) => {
                    proof {
                        lemma_displacing_uses_slack(table, index, key, action, distance);
                    }
                    insert_walk(written, next, slot.key, carried, tag_psl(slot.tag) + 1, first)
                },
            }
        }
    }
}

/// The reference insertion.
///
/// Returns the probe sequence length the key was placed at, or `None` where the sequence ran
/// past [`OA_PROBES`]: the signal to refuse the snapshot rather than publish a table that the
/// unrolled lookup cannot read.
pub fn oa_insert(table: &mut [OaSlot], key: u32, action: Action) -> (placed: Option<u8>)
    requires
        old(table)@.len() >= OA_SLOTS,
    ensures
        (final(table)@, placed) == insert_walk(
            old(table)@,
            home_slot(key),
            key,
            action,
            0,
            None,
        ),
        final(table)@.len() == old(table)@.len(),
{
    let mut index: u32 = oa_index(key);
    let mut distance: u32 = 0;
    let mut carried_key: u32 = key;
    let mut carried_action: Action = action;
    let mut placed: Option<u8> = None;
    loop
        invariant
            table@.len() == old(table)@.len(),
            table@.len() >= OA_SLOTS,
            index < OA_SLOTS,
            distance <= OA_PROBES,
            insert_walk(old(table)@, home_slot(key), key, action, 0, None) == insert_walk(
                table@,
                index as int,
                carried_key,
                carried_action,
                distance as int,
                placed,
            ),
        decreases table_slack(table@), OA_PROBES - distance,
    {
        if distance >= OA_PROBES {
            return None;
        }
        proof {
            lemma_masked_index(index);
        }
        let at: usize = (index & OA_INDEX_MASK) as usize;
        let slot: OaSlot = table[at];
        let displace: u32 = oa_psl(slot.tag) as u32;
        if !oa_occupied(slot.tag) || displace < distance {
            proof {
                if displace < distance {
                    lemma_displacing_uses_slack(
                        table@,
                        at as int,
                        carried_key,
                        carried_action,
                        distance as int,
                    );
                }
            }
            table[at] = OaSlot {
                key: carried_key,
                tag: oa_tag(carried_key, carried_action, distance as u8),
            };
            if placed.is_none() {
                placed = Some(distance as u8);
            }
            if !oa_occupied(slot.tag) {
                return placed;
            }
            carried_key = slot.key;
            carried_action = match oa_action(slot.tag) {
                Some(carried) => carried,
                None => return None,
            };
            distance = displace;
        }
        index = oa_step(index);
        distance += 1;
    }
}

/// Whether slot `at` holds a key.
pub open spec fn occupied_at(table: Seq<OaSlot>, at: int) -> bool {
    0 <= at < OA_SLOTS && tag_occupied(table[at].tag)
}

/// Whether the slot `distance` steps from the home of a key is held by a key at least as far
/// from its own home.
pub open spec fn outranked_at(table: Seq<OaSlot>, key: u32, distance: int) -> bool {
    let slot = table[probe_slot(key, distance)];
    tag_occupied(slot.tag) && tag_psl(slot.tag) >= distance
}

/// Whether every slot short of `distance` on the probe sequence of a key is so held.
pub open spec fn outranked_before(table: Seq<OaSlot>, key: u32, distance: int) -> bool {
    forall|d: int| 0 <= d < distance ==> #[trigger] outranked_at(table, key, d)
}

/// Whether an occupied slot is one that insertion writes: its tag belongs to its key, it sits
/// where its probe sequence length says, and no key closer to its own home stands before it.
pub open spec fn slot_in_order(table: Seq<OaSlot>, at: int) -> bool {
    let slot = table[at];
    &&& tag_fingerprint(slot.tag) == fingerprint(slot.key)
    &&& tag_action(slot.tag) is Some
    &&& tag_psl(slot.tag) < OA_PROBES
    &&& at == probe_slot(slot.key, tag_psl(slot.tag) as int)
    &&& outranked_before(table, slot.key, tag_psl(slot.tag) as int)
}

/// The invariant of a table: every occupied slot is in order, and no key has two slots.
pub open spec fn table_in_order(table: Seq<OaSlot>) -> bool {
    &&& table.len() >= OA_SLOTS
    &&& forall|at: int| #[trigger] occupied_at(table, at) ==> slot_in_order(table, at)
    &&& forall|a: int, b: int|
        #[trigger] occupied_at(table, a) && #[trigger] occupied_at(table, b) && table[a].key
            == table[b].key ==> a == b
}

/// Whether a key has a slot.
pub open spec fn holds_key(table: Seq<OaSlot>, key: u32) -> bool {
    exists|at: int| #[trigger] occupied_at(table, at) && table[at].key == key
}

/// The slot of a key.
pub open spec fn slot_of(table: Seq<OaSlot>, key: u32) -> int {
    choose|at: int| #[trigger] occupied_at(table, at) && table[at].key == key
}

/// The verdicts a table holds, by key.
pub open spec fn table_contents(table: Seq<OaSlot>) -> Map<u32, Action> {
    Map::new(
        |key: u32| holds_key(table, key),
        |key: u32| tag_action(table[slot_of(table, key)].tag)->0,
    )
}

proof fn lemma_slot_of(table: Seq<OaSlot>, at: int)
    requires
        table_in_order(table),
        occupied_at(table, at),
    ensures
        holds_key(table, table[at].key),
        slot_of(table, table[at].key) == at,
{
    let key = table[at].key;
    assert(occupied_at(table, at) && table[at].key == key);
    assert(occupied_at(table, slot_of(table, key)));
}

/// A table in order answers for exactly the keys it holds, each with its own verdict.
pub proof fn oa_lookup_finds_what_the_table_holds(table: Seq<OaSlot>, key: u32)
    requires
        table_in_order(table),
    ensures
        table_answer(table, key) == (if table_contents(table).contains_key(key) {
            Some(table_contents(table)[key])
        } else {
            None
        }),
{
    lemma_probe_length_bounds(table, key, 0);
    let reached = probe_length(table, key, 0);
    if holds_key(table, key) {
        let at = slot_of(table, key);
        assert(occupied_at(table, at) && slot_in_order(table, at));
        let psl = tag_psl(table[at].tag) as int;
        assert(slot_answers(table, key, psl));
        assert(probe_ends(table, key, psl));
        assert(reached <= psl);
        if reached < psl {
            assert(outranked_at(table, key, reached));
            assert(slot_answers(table, key, reached));
            assert(occupied_at(table, probe_slot(key, reached)));
            assert(probe_slot(key, reached) == at);
        }
    } else if reached < OA_PROBES && slot_answers(table, key, reached) {
        assert(occupied_at(table, probe_slot(key, reached)));
    }
}

proof fn lemma_probe_length_bounds(table: Seq<OaSlot>, key: u32, from: int)
    requires
        0 <= from <= OA_PROBES,
    ensures
        from <= probe_length(table, key, from) <= OA_PROBES,
        probe_length(table, key, from) < OA_PROBES ==> probe_ends(
            table,
            key,
            probe_length(table, key, from),
        ),
        forall|d: int|
            from <= d < probe_length(table, key, from) ==> !#[trigger] probe_ends(table, key, d),
    decreases OA_PROBES - from,
{
    if from < OA_PROBES && !probe_ends(table, key, from) {
        lemma_probe_length_bounds(table, key, from + 1);
    }
}

/// In whatever state a table is, what it answers comes from a slot holding the very key, so a
/// collision costs probes and never a wrong verdict.
pub proof fn oa_verdict_belongs_to_its_key(table: Seq<OaSlot>, key: u32)
    ensures
        table_answer(table, key) matches Some(action) ==> exists|at: int|
            #[trigger] occupied_at(table, at) && table[at].key == key && tag_action(table[at].tag)
                == Some(action),
{
    let at = probe_slot(key, probe_length(table, key, 0));
    if table_answer(table, key) is Some {
        assert(occupied_at(table, at) && table[at].key == key);
    }
}

/// A table of free slots is in order and holds nothing.
pub proof fn oa_free_table_is_empty(table: Seq<OaSlot>)
    requires
        table.len() >= OA_SLOTS,
        forall|at: int| 0 <= at < OA_SLOTS ==> !tag_occupied(#[trigger] table[at].tag),
    ensures
        table_in_order(table),
        table_contents(table) == Map::<u32, Action>::empty(),
{
    assert(table_contents(table) =~= Map::<u32, Action>::empty());
}

/// A slot torn between two snapshots answers for nobody: where each slot holding a key carries
/// the fingerprint of another, the table has no verdict for that key.
pub proof fn oa_torn_slot_has_no_verdict(table: Seq<OaSlot>, key: u32)
    requires
        forall|at: int|
            0 <= at < OA_SLOTS && #[trigger] table[at].key == key ==> tag_fingerprint(table[at].tag)
                != fingerprint(key),
    ensures
        table_answer(table, key) is None,
{
    let reached = probe_length(table, key, 0);
    assert(0 <= probe_slot(key, reached) < OA_SLOTS);
}

/// The slot a write leaves behind, and who else it leaves where they were.
proof fn lemma_write_in_order(
    table: Seq<OaSlot>,
    key: u32,
    action: Action,
    distance: int,
    written: Seq<OaSlot>,
)
    requires
        table_in_order(table),
        !holds_key(table, key),
        0 <= distance < OA_PROBES,
        outranked_before(table, key, distance),
        !outranked_at(table, key, distance),
        written == table.update(
            probe_slot(key, distance),
            OaSlot { key, tag: tag_of(key, action, distance as u8) },
        ),
    ensures
        table_in_order(written),
        !occupied_at(table, probe_slot(key, distance)) ==> table_contents(written)
            == table_contents(table).insert(key, action),
        occupied_at(table, probe_slot(key, distance)) ==> {
            let evicted = table[probe_slot(key, distance)];
            &&& !holds_key(written, evicted.key)
            &&& outranked_before(written, evicted.key, tag_psl(evicted.tag) + 1)
            &&& tag_action(evicted.tag) is Some
            &&& table_contents(written).insert(evicted.key, tag_action(evicted.tag)->0)
                == table_contents(table).insert(key, action)
        },
{
    oa_tag_round_trip(key, action, distance as u8);
    let at = probe_slot(key, distance);
    let evicted = table[at];
    assert(forall|i: int|
        #![trigger occupied_at(written, i)]
        #![trigger occupied_at(table, i)]
        i != at ==> (occupied_at(written, i) <==> occupied_at(table, i)));
    assert(occupied_at(written, at));
    assert forall|k: u32, d: int| #[trigger] outranked_at(table, k, d) && d <= 16 implies outranked_at(
        written,
        k,
        d,
    ) by {
        if probe_slot(k, d) == at {
            assert(occupied_at(table, at));
        }
    }
    assert forall|i: int| #[trigger] occupied_at(written, i) implies slot_in_order(written, i) by {
        if i == at {
            assert forall|d: int| 0 <= d < distance implies #[trigger] outranked_at(
                written,
                key,
                d,
            ) by {
                assert(outranked_at(table, key, d));
            }
        } else {
            assert(occupied_at(table, i));
            let slot = table[i];
            assert forall|d: int| 0 <= d < tag_psl(slot.tag) implies #[trigger] outranked_at(
                written,
                slot.key,
                d,
            ) by {
                assert(outranked_at(table, slot.key, d));
            }
        }
    }
    assert forall|a: int, b: int|
        #[trigger] occupied_at(written, a) && #[trigger] occupied_at(written, b) && written[a].key
            == written[b].key implies a == b by {
        if a != at && b != at {
            assert(occupied_at(table, a) && occupied_at(table, b));
        } else if a != at {
            assert(occupied_at(table, a));
        } else if b != at {
            assert(occupied_at(table, b));
        }
    }
    let was_occupied = occupied_at(table, at);
    if was_occupied {
        assert(slot_in_order(table, at));
        assert(!holds_key(written, evicted.key)) by {
            if holds_key(written, evicted.key) {
                let other = slot_of(written, evicted.key);
                assert(occupied_at(written, other));
                if other != at {
                    assert(occupied_at(table, other));
                }
            }
        }
        let psl = tag_psl(evicted.tag) as int;
        assert forall|d: int| 0 <= d < psl + 1 implies #[trigger] outranked_at(
            written,
            evicted.key,
            d,
        ) by {
            if d < psl {
                assert(outranked_at(table, evicted.key, d));
            }
        }
    }
    let left = if was_occupied {
        table_contents(written).insert(evicted.key, tag_action(evicted.tag)->0)
    } else {
        table_contents(written)
    };
    let right = table_contents(table).insert(key, action);
    lemma_slot_of(written, at);
    assert forall|k: u32| left.contains_key(k) <==> right.contains_key(k) by {
        if holds_key(table, k) {
            let i = slot_of(table, k);
            assert(occupied_at(table, i));
            if i != at {
                assert(occupied_at(written, i) && written[i].key == k);
            }
        }
        if holds_key(written, k) {
            let i = slot_of(written, k);
            assert(occupied_at(written, i));
            if i != at {
                assert(occupied_at(table, i) && table[i].key == k);
            }
        }
        if was_occupied {
            assert(occupied_at(table, at) && table[at].key == evicted.key);
        }
    }
    assert forall|k: u32| left.contains_key(k) implies left[k] == right[k] by {
        if k != key {
            let i = slot_of(table, k);
            assert(holds_key(table, k));
            assert(occupied_at(table, i));
            if i == at {
                assert(k == evicted.key);
            } else {
                assert(occupied_at(written, i));
                lemma_slot_of(written, i);
                lemma_slot_of(table, i);
                if was_occupied {
                    lemma_slot_of(table, at);
                }
            }
        } else if was_occupied {
            lemma_slot_of(table, at);
        }
    }
    assert(left =~= right);
}

/// Insertion of a key that a table in order does not hold leaves a table in order. Where it
/// reports a length, the table holds one key more, with the verdict given; where it refuses,
/// exactly one key is missing, which may be the new one.
pub proof fn oa_insert_adds_one_key(
    table: Seq<OaSlot>,
    key: u32,
    action: Action,
)
    requires
        table_in_order(table),
        !table_contents(table).contains_key(key),
    ensures
        ({
            let (after, placed) = insert_walk(table, home_slot(key), key, action, 0, None);
            let full = table_contents(table).insert(key, action);
            &&& table_in_order(after)
            &&& placed is Some ==> table_contents(after) == full
            &&& placed is None ==> exists|lost: u32|
                #[trigger] full.contains_key(lost) && table_contents(after) == full.remove(lost)
        }),
{
    lemma_walk_adds_one_key(table, home_slot(key), key, action, 0, None);
}

proof fn lemma_walk_adds_one_key(
    table: Seq<OaSlot>,
    index: int,
    key: u32,
    action: Action,
    distance: int,
    placed: Option<u8>,
)
    requires
        table_in_order(table),
        !holds_key(table, key),
        0 <= distance <= OA_PROBES,
        index == probe_slot(key, distance),
        outranked_before(table, key, distance),
    ensures
        ({
            let (after, reported) = insert_walk(table, index, key, action, distance, placed);
            let full = table_contents(table).insert(key, action);
            &&& table_in_order(after)
            &&& reported is Some ==> table_contents(after) == full
            &&& reported is None ==> exists|lost: u32|
                #[trigger] full.contains_key(lost) && table_contents(after) == full.remove(lost)
                    && outranked_before(after, lost, OA_PROBES as int)
        }),
    decreases table_slack(table), OA_PROBES - distance,
{
    let slot = table[index];
    let next = (index + 1) % (OA_SLOTS as int);
    let full = table_contents(table).insert(key, action);
    if distance >= OA_PROBES {
        assert(full.contains_key(key) && table_contents(table) =~= full.remove(key));
    } else if tag_occupied(slot.tag) && tag_psl(slot.tag) >= distance {
        assert(outranked_at(table, key, distance));
        lemma_walk_adds_one_key(table, next, key, action, distance + 1, placed);
    } else {
        let written = table.update(
            index,
            OaSlot { key, tag: tag_of(key, action, distance as u8) },
        );
        lemma_write_in_order(table, key, action, distance, written);
        if tag_occupied(slot.tag) {
            let first = if placed is None {
                Some(distance as u8)
            } else {
                placed
            };
            assert(occupied_at(table, index) && slot_in_order(table, index));
            lemma_displacing_uses_slack(table, index, key, action, distance);
            lemma_walk_adds_one_key(
                written,
                next,
                slot.key,
                tag_action(slot.tag)->0,
                tag_psl(slot.tag) + 1,
                first,
            );
        }
    }
}

/// The length an insertion reports is where the key ended up.
pub proof fn oa_insert_reports_where_the_key_is(table: Seq<OaSlot>, key: u32, action: Action)
    requires
        table.len() >= OA_SLOTS,
    ensures
        ({
            let (after, placed) = insert_walk(table, home_slot(key), key, action, 0, None);
            placed matches Some(psl) ==> after[probe_slot(key, psl as int)] == (OaSlot {
                key,
                tag: tag_of(key, action, psl),
            })
        }),
{
    if exists|free: int| 0 <= free < OA_SLOTS && !#[trigger] occupied_at(table, free) {
        let free = choose|free: int|
            0 <= free < OA_SLOTS && !#[trigger] occupied_at(table, free);
        lemma_walk_reports(table, home_slot(key), key, action, 0, free);
    } else {
        lemma_full_table_refuses(table, home_slot(key), key, action, 0, None);
    }
}

/// A walk over a table without a free slot places nothing.
proof fn lemma_full_table_refuses(
    table: Seq<OaSlot>,
    index: int,
    key: u32,
    action: Action,
    distance: int,
    placed: Option<u8>,
)
    requires
        table.len() >= OA_SLOTS,
        0 <= index < OA_SLOTS,
        forall|at: int| 0 <= at < OA_SLOTS ==> #[trigger] occupied_at(table, at),
    ensures
        insert_walk(table, index, key, action, distance, placed).1 is None,
    decreases table_slack(table), OA_PROBES - distance,
{
    let slot = table[index];
    let next = (index + 1) % (OA_SLOTS as int);
    assert(occupied_at(table, index));
    if distance >= OA_PROBES {
    } else if tag_psl(slot.tag) >= distance {
        lemma_full_table_refuses(table, next, key, action, distance + 1, placed);
    } else if tag_action(slot.tag) is Some {
        let written = table.update(
            index,
            OaSlot { key, tag: tag_of(key, action, distance as u8) },
        );
        oa_tag_round_trip(key, action, distance as u8);
        lemma_displacing_uses_slack(table, index, key, action, distance);
        assert forall|at: int| 0 <= at < OA_SLOTS implies #[trigger] occupied_at(written, at) by {
            assert(occupied_at(table, at));
        }
        let first = if placed is None {
            Some(distance as u8)
        } else {
            placed
        };
        lemma_full_table_refuses(
            written,
            next,
            slot.key,
            tag_action(slot.tag)->0,
            tag_psl(slot.tag) + 1,
            first,
        );
    }
}

proof fn lemma_walk_reports(
    table: Seq<OaSlot>,
    index: int,
    key: u32,
    action: Action,
    distance: int,
    free: int,
)
    requires
        table.len() >= OA_SLOTS,
        0 <= free < OA_SLOTS,
        !occupied_at(table, free),
        0 <= distance <= OA_PROBES,
        index == probe_slot(key, distance),
    ensures
        ({
            let (after, placed) = insert_walk(table, index, key, action, distance, None);
            placed matches Some(psl) ==> after[probe_slot(key, psl as int)] == (OaSlot {
                key,
                tag: tag_of(key, action, psl),
            })
        }),
    decreases OA_PROBES - distance,
{
    let slot = table[index];
    let next = (index + 1) % (OA_SLOTS as int);
    if distance >= OA_PROBES {
    } else if tag_occupied(slot.tag) && tag_psl(slot.tag) >= distance {
        lemma_walk_reports(table, next, key, action, distance + 1, free);
    } else if tag_occupied(slot.tag) && tag_action(slot.tag) is Some {
        let written = table.update(
            index,
            OaSlot { key, tag: tag_of(key, action, distance as u8) },
        );
        lemma_walk_spares(
            written,
            next,
            slot.key,
            tag_action(slot.tag)->0,
            tag_psl(slot.tag) + 1,
            Some(distance as u8),
            index,
            free,
        );
    }
}

/// A walk stops at the first free slot: it reports what was placed before it, and does not touch
/// a slot beyond.
proof fn lemma_walk_spares(
    table: Seq<OaSlot>,
    index: int,
    key: u32,
    action: Action,
    distance: int,
    placed: Option<u8>,
    spared: int,
    free: int,
)
    requires
        table.len() >= OA_SLOTS,
        placed is Some,
        0 <= index < OA_SLOTS,
        0 <= free < OA_SLOTS,
        0 <= spared < OA_SLOTS,
        !occupied_at(table, free),
        (free - index) % (OA_SLOTS as int) < (spared - index) % (OA_SLOTS as int),
    ensures
        ({
            let (after, reported) = insert_walk(table, index, key, action, distance, placed);
            &&& after[spared] == table[spared]
            &&& reported is None || reported == placed
        }),
    decreases table_slack(table), OA_PROBES - distance,
{
    let slot = table[index];
    let next = (index + 1) % (OA_SLOTS as int);
    if distance >= OA_PROBES {
    } else if tag_occupied(slot.tag) && tag_psl(slot.tag) >= distance {
        lemma_walk_spares(table, next, key, action, distance + 1, placed, spared, free);
    } else if tag_occupied(slot.tag) && tag_action(slot.tag) is Some {
        let written = table.update(
            index,
            OaSlot { key, tag: tag_of(key, action, distance as u8) },
        );
        lemma_displacing_uses_slack(table, index, key, action, distance);
        lemma_walk_spares(
            written,
            next,
            slot.key,
            tag_action(slot.tag)->0,
            tag_psl(slot.tag) + 1,
            placed,
            spared,
            free,
        );
    }
}

/// Whether a key has no slot to go to: each of the sixteen from its home on is held, by a key at
/// least as far from its own home.
pub open spec fn no_slot_left(table: Seq<OaSlot>, key: u32) -> bool {
    forall|d: int|
        0 <= d < 16 ==> #[trigger] probe_slot(key, d) == (home_slot(key) + d) % 0x20_0000
            && table[probe_slot(key, d)].tag % 2 == 1 && table[probe_slot(key, d)].tag as int / 256
            % 256 >= d
}

/// An insertion refuses only where a key has no slot left, and it is that key which is missing
/// afterwards.
pub proof fn oa_insert_refuses_only_where_no_slot_is_left(table: Seq<OaSlot>, key: u32, action: Action)
    requires
        table_in_order(table),
        !table_contents(table).contains_key(key),
        insert_walk(table, home_slot(key), key, action, 0, None).1 is None,
    ensures
        ({
            let after = insert_walk(table, home_slot(key), key, action, 0, None).0;
            let full = table_contents(table).insert(key, action);
            exists|lost: u32| #[trigger]
                full.contains_key(lost) && table_contents(after) == full.remove(lost)
                    && no_slot_left(after, lost)
        }),
{
    lemma_walk_adds_one_key(table, home_slot(key), key, action, 0, None);
    let after = insert_walk(table, home_slot(key), key, action, 0, None).0;
    let full = table_contents(table).insert(key, action);
    let lost = choose|lost: u32| #[trigger]
        full.contains_key(lost) && table_contents(after) == full.remove(lost) && outranked_before(
            after,
            lost,
            OA_PROBES as int,
        );
    assert forall|d: int| 0 <= d < 16 implies #[trigger] probe_slot(lost, d) == (home_slot(lost) + d)
        % 0x20_0000 && after[probe_slot(lost, d)].tag % 2 == 1 && after[probe_slot(lost, d)].tag as int
        / 256 % 256 >= d by {
        assert(outranked_at(after, lost, d));
        let tag = after[probe_slot(lost, d)].tag;
        assert(tag_psl(tag) == tag as int / 256 % 256);
    }
}

/// A key is placed at its first slot that is free, or held by a key closer to its own home: the
/// length reported is below sixteen, and every slot short of it is held by a key at least as far
/// from home.
pub proof fn oa_insert_places_a_key_at_its_first_slot(table: Seq<OaSlot>, key: u32, action: Action, d: int)
    requires
        table.len() >= 0x20_0000,
        insert_walk(table, home_slot(key), key, action, 0, None).1 is Some,
    ensures
        ({
            let psl = insert_walk(table, home_slot(key), key, action, 0, None).1->0;
            let slot = table[(home_slot(key) + d) % 0x20_0000];
            &&& psl < 16
            &&& 0 <= d < psl ==> slot.tag % 2 == 1 && slot.tag as int / 256 % 256 >= d
            &&& d == psl ==> slot.tag % 2 == 0 || slot.tag as int / 256 % 256 < d
        }),
{
    lemma_first_place(table, home_slot(key), key, action, 0);
    let psl = insert_walk(table, home_slot(key), key, action, 0, None).1->0;
    let tag = table[probe_slot(key, d)].tag;
    assert(tag_psl(tag) == tag as int / 256 % 256);
    if 0 <= d < psl {
        assert(outranked_at(table, key, d));
    }
}

proof fn lemma_first_place(table: Seq<OaSlot>, index: int, key: u32, action: Action, distance: int)
    requires
        table.len() >= OA_SLOTS,
        0 <= distance <= OA_PROBES,
        index == probe_slot(key, distance),
        outranked_before(table, key, distance),
    ensures
        insert_walk(table, index, key, action, distance, None).1 matches Some(psl) ==> psl < OA_PROBES
            && outranked_before(table, key, psl as int) && !outranked_at(table, key, psl as int),
    decreases OA_PROBES - distance,
{
    let slot = table[index];
    let next = (index + 1) % (OA_SLOTS as int);
    if distance >= OA_PROBES {
    } else if tag_occupied(slot.tag) && tag_psl(slot.tag) >= distance {
        assert(outranked_at(table, key, distance));
        lemma_first_place(table, next, key, action, distance + 1);
    } else if tag_occupied(slot.tag) && tag_action(slot.tag) is Some {
        let written = table.update(
            index,
            OaSlot { key, tag: tag_of(key, action, distance as u8) },
        );
        lemma_walk_keeps_the_first(
            written,
            next,
            slot.key,
            tag_action(slot.tag)->0,
            tag_psl(slot.tag) + 1,
            Some(distance as u8),
        );
    }
}

proof fn lemma_walk_keeps_the_first(
    table: Seq<OaSlot>,
    index: int,
    key: u32,
    action: Action,
    distance: int,
    placed: Option<u8>,
)
    requires
        table.len() >= OA_SLOTS,
        0 <= index < OA_SLOTS,
        placed is Some,
    ensures
        insert_walk(table, index, key, action, distance, placed).1 is None || insert_walk(
            table,
            index,
            key,
            action,
            distance,
            placed,
        ).1 == placed,
    decreases table_slack(table), OA_PROBES - distance,
{
    let slot = table[index];
    let next = (index + 1) % (OA_SLOTS as int);
    if distance >= OA_PROBES {
    } else if tag_occupied(slot.tag) && tag_psl(slot.tag) >= distance {
        lemma_walk_keeps_the_first(table, next, key, action, distance + 1, placed);
    } else if tag_occupied(slot.tag) && tag_action(slot.tag) is Some {
        let written = table.update(
            index,
            OaSlot { key, tag: tag_of(key, action, distance as u8) },
        );
        lemma_displacing_uses_slack(table, index, key, action, distance);
        lemma_walk_keeps_the_first(
            written,
            next,
            slot.key,
            tag_action(slot.tag)->0,
            tag_psl(slot.tag) + 1,
            placed,
        );
    }
}

/// Where the four things of a tag sit in its bits: one bit that it is taken, three of the verdict,
/// eight of the distance from home from bit 8 on, and eight of the fingerprint from bit 16 on.
pub proof fn the_fields_of_a_tag(key: u32, action: Action, psl: u8)
    ensures
        tag_of(key, action, psl) == 1 + 2 * action.code() + 0x100 * psl + 0x1_0000 * fingerprint(key),
        tag_of(key, action, psl) < 0x100_0000,
{
}

/// The home slot and the fingerprint are the two ends of one hash: its top twenty-one bits and its
/// low eight.
pub proof fn a_home_slot_and_a_fingerprint_are_of_one_hash(key: u32)
    ensures
        home_slot(key) * 0x800 <= key_hash(key) < (home_slot(key) + 1) * 0x800,
        0 <= home_slot(key) < 0x20_0000,
        (key_hash(key) - fingerprint(key)) % 0x100 == 0,
{
    let hash = key_hash(key);
    assert((hash % 256) as u8 == hash % 256);
}

} // verus!
