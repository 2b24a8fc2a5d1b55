//! The two flat blocklist tables: what a cell, a slot and a tag hold, and what is found again.

use lorica::blocklist::{
    class24_get, class24_index, class24_set, class24_shift, oa_action, oa_fingerprint, oa_index,
    oa_insert, oa_lookup, oa_occupied, oa_psl, oa_step, oa_tag, oa_tag_fingerprint, Class24, OaSlot,
    CLASS24_BYTES, CLASS24_ENTRIES, OA_BYTES, OA_INDEX_MASK, OA_MAX_KEYS, OA_PROBES, OA_SLOTS,
};
use lorica::wire::Action;

fn v4(a: u8, b: u8, c: u8, d: u8) -> u32 {
    u32::from_be_bytes([a, b, c, d])
}

#[test]
fn the_index_is_the_top_twenty_four_bits() {
    assert_eq!(class24_index(v4(0, 0, 0, 0)), 0);
    assert_eq!(class24_index(v4(0, 0, 0, 255)), 0);
    assert_eq!(class24_index(v4(0, 0, 1, 0)), 1);
    assert_eq!(class24_index(v4(255, 255, 255, 255)), CLASS24_ENTRIES - 1);
}

#[test]
fn four_adjacent_blocks_share_a_byte_without_disturbing_each_other() {
    let mut table = vec![0u8; CLASS24_BYTES];
    let codes = [Class24::Nothing, Class24::Deny, Class24::Allow, Class24::Table];

    // 10.0.0.0/24 through 10.0.3.0/24 are the four cells of one byte.
    for (i, code) in codes.iter().enumerate() {
        class24_set(&mut table, v4(10, 0, i as u8, 7), *code);
    }
    for (i, code) in codes.iter().enumerate() {
        assert_eq!(class24_get(&table, v4(10, 0, i as u8, 200)), *code);
    }

    // Overwriting the middle one leaves the other three alone.
    class24_set(&mut table, v4(10, 0, 1, 0), Class24::Allow);
    assert_eq!(class24_get(&table, v4(10, 0, 0, 0)), Class24::Nothing);
    assert_eq!(class24_get(&table, v4(10, 0, 1, 0)), Class24::Allow);
    assert_eq!(class24_get(&table, v4(10, 0, 2, 0)), Class24::Allow);
    assert_eq!(class24_get(&table, v4(10, 0, 3, 0)), Class24::Table);
}

#[test]
fn a_cell_is_two_bits_of_its_byte() {
    let mut table = vec![0u8; CLASS24_BYTES];
    class24_set(&mut table, v4(0, 0, 6, 0), Class24::Table);
    assert_eq!(table[1], 0b0011_0000);
    assert_eq!(class24_shift(6), 4);
    assert_eq!(table.iter().filter(|byte| **byte != 0).count(), 1);
}

#[test]
fn the_tag_round_trips_every_verdict_and_every_reachable_psl() {
    let actions = [
        Action::Continue,
        Action::Allow,
        Action::Drop,
        Action::RateLimit,
        Action::Mark,
    ];
    // Four fields in one word, so the keys are part of the trip. 0.0.0.0 is the key a zeroed
    // table already holds.
    let keys = [0u32, 1, 0x0a00_0001, 0xffff_ffff, 0x8000_0000, 0x7f00_0001];
    for action in actions {
        for psl in 0..=OA_PROBES as u8 {
            for key in keys {
                let tag = oa_tag(key, action, psl);
                assert!(oa_occupied(tag));
                assert_eq!(oa_action(tag), Some(action));
                assert_eq!(oa_psl(tag), psl);
                assert_eq!(oa_tag_fingerprint(tag), oa_fingerprint(key));
            }
        }
    }
}

/// A half-copied slot: the key of one snapshot and the tag of another. It answers nothing, unless
/// the two keys share a fingerprint, which one pair in 256 does.
#[test]
fn a_slot_torn_between_two_snapshots_reads_as_no_verdict() {
    let mut table = vec![OaSlot::default(); OA_SLOTS];

    let old_key = v4(203, 0, 113, 7);
    let new_key = v4(198, 51, 100, 42);
    oa_insert(&mut table, old_key, Action::Drop).expect("the old snapshot places its key");
    assert_eq!(oa_lookup(&table, old_key), Some(Action::Drop));

    let torn_at = table
        .iter()
        .position(|slot| slot.key == old_key)
        .expect("the key is somewhere");
    table[torn_at].key = new_key;

    assert_eq!(
        oa_lookup(&table, new_key),
        None,
        "a torn slot answered with the previous snapshot's verdict, which is a drop nobody decided"
    );
    assert_eq!(
        oa_lookup(&table, old_key),
        None,
        "the old key is no longer in the table and must not be found"
    );

    let queried = v4(192, 0, 2, 99);
    let sharing = (0..=u32::MAX)
        .find(|&key| key != queried && oa_fingerprint(key) == oa_fingerprint(queried))
        .expect("one key in 256 shares a fingerprint");
    let elsewhere = (0..=u32::MAX)
        .find(|&key| oa_fingerprint(key) != oa_fingerprint(queried))
        .expect("255 keys in 256 do not");

    let home = (oa_index(queried) & OA_INDEX_MASK) as usize;

    table[home] = OaSlot {
        key: queried,
        tag: oa_tag(elsewhere, Action::Drop, 0),
    };
    assert_eq!(
        oa_lookup(&table, queried),
        None,
        "a slot whose tag was written for another key must not answer for this one"
    );

    table[home] = OaSlot {
        key: queried,
        tag: oa_tag(sharing, Action::Drop, 0),
    };
    assert_eq!(
        oa_lookup(&table, queried),
        Some(Action::Drop),
        "a torn slot whose two keys share a fingerprint cannot be told from a whole one"
    );
}

/// A zeroed table is free, and `0.0.0.0` is the key zero: only the occupancy bit tells them apart.
#[test]
fn an_empty_slot_and_the_zero_address_are_not_the_same_pattern() {
    let empty = vec![OaSlot::default(); OA_SLOTS];
    assert_eq!(oa_lookup(&empty, 0), None);

    let mut table = empty.clone();
    let home = oa_index(0) as usize;
    table[home] = OaSlot {
        key: 0,
        tag: oa_tag(0, Action::Drop, 0),
    };
    assert_eq!(oa_lookup(&table, 0), Some(Action::Drop));

    let membership_only = |slots: &[OaSlot], key: u32| slots[oa_index(key) as usize].key == key;
    assert!(
        membership_only(&empty, 0),
        "the version without an occupancy bit answers for 0.0.0.0 on an empty table"
    );
    assert!(!membership_only(&empty, v4(203, 0, 113, 1)));
}

#[test]
fn the_reference_lookup_finds_every_key_a_correct_insertion_placed() {
    // At the full permitted load, which is what the compiled probe count has to serve.
    let count = OA_MAX_KEYS;
    let mut state = 0x243f_6a88_85a3_08d3u64;
    let mut keys = Vec::with_capacity(count);
    for i in 0..count {
        state = state
            .wrapping_mul(6364136223846793005)
            .wrapping_add(1442695040888963407);
        let action = if i % 3 == 0 {
            Action::Allow
        } else {
            Action::Drop
        };
        keys.push(((state >> 32) as u32, action));
    }
    keys.sort_unstable_by_key(|&(key, _)| key);
    keys.dedup_by_key(|&mut (key, _)| key);

    let mut table = vec![OaSlot::default(); OA_SLOTS];
    for &(key, action) in &keys {
        oa_insert(&mut table, key, action)
            .unwrap_or_else(|| panic!("key {key:#010x} ran past the compiled probe count"));
    }

    // Off the finished table: a key displaced later ends up further from home than its own
    // insertion said.
    let worst = table
        .iter()
        .filter(|slot| oa_occupied(slot.tag))
        .map(|slot| oa_psl(slot.tag))
        .max()
        .expect("the table is not empty");
    println!(
        "oa-psl keys={} slots={OA_SLOTS} load={:.3} worst_psl={worst} compiled_probes={OA_PROBES}",
        keys.len(),
        keys.len() as f64 / OA_SLOTS as f64
    );
    assert!(
        (worst as u32) < OA_PROBES,
        "measured maximum probe sequence length {worst} against a compiled {OA_PROBES}"
    );

    for &(key, action) in &keys {
        assert_eq!(oa_lookup(&table, key), Some(action), "key {key:#010x}");
    }

    let mut misses = 0;
    for probe in 0u32..10_000 {
        if keys.binary_search_by_key(&probe, |&(key, _)| key).is_err() {
            assert_eq!(oa_lookup(&table, probe), None);
            misses += 1;
        }
    }
    assert!(misses > 9_000, "only {misses} of 10 000 probes were misses");
}

#[test]
fn a_probe_goes_round_the_end_of_the_table() {
    assert_eq!(OA_BYTES, 8 * OA_SLOTS);
    assert_eq!(oa_step(0), 1);
    assert_eq!(oa_step(OA_INDEX_MASK), 0);
}

/// The keys of one home slot, in the order the table meets them.
fn keys_of_one_home(count: usize) -> Vec<u32> {
    let home = oa_index(0);
    (0..=u32::MAX)
        .filter(|&key| oa_index(key) == home)
        .take(count)
        .collect()
}

/// As many keys of one home as there are probes fit; the next one is refused, and every key that
/// was placed is still found.
#[test]
fn a_run_longer_than_the_probes_is_refused() {
    let keys = keys_of_one_home(OA_PROBES as usize + 1);
    let mut table = vec![OaSlot::default(); OA_SLOTS];
    for (i, &key) in keys.iter().take(OA_PROBES as usize).enumerate() {
        assert_eq!(oa_insert(&mut table, key, Action::Drop), Some(i as u8));
    }
    assert_eq!(oa_insert(&mut table, keys[OA_PROBES as usize], Action::Drop), None);
    for &key in keys.iter().take(OA_PROBES as usize) {
        assert_eq!(oa_lookup(&table, key), Some(Action::Drop));
    }
}

/// A slot that holds another key does not answer, though it stands at the home of this one.
#[test]
fn a_collision_is_never_a_wrong_verdict() {
    let keys = keys_of_one_home(2);
    let mut table = vec![OaSlot::default(); OA_SLOTS];
    oa_insert(&mut table, keys[0], Action::Drop).expect("a free slot");
    assert_eq!(oa_lookup(&table, keys[1]), None);
    oa_insert(&mut table, keys[1], Action::Allow).expect("a free slot");
    assert_eq!(oa_lookup(&table, keys[0]), Some(Action::Drop));
    assert_eq!(oa_lookup(&table, keys[1]), Some(Action::Allow));
}
