//! The cuckoo table: the arithmetic of its lookup over whole domains, and its insertion.

use lorica::blocklist::cuckoo::{
    cuckoo_alt, cuckoo_delta, cuckoo_displace, cuckoo_hash, cuckoo_home, cuckoo_insert,
    cuckoo_lane, cuckoo_lookup, cuckoo_match, cuckoo_occupancy, cuckoo_settle, cuckoo_sig,
    CuckooBucket, CuckooFull, Placement, CUCKOO_BUCKETS, CUCKOO_BUCKET_MASK, CUCKOO_BYTES,
    CUCKOO_LANES,
};
use lorica::blocklist::{oa_insert, oa_lookup, OaSlot, OA_SLOTS};
use lorica::Action;

/// Eight masks and the empty one are the whole domain of the decoder.
#[test]
fn the_lane_decoder_is_exact_over_its_whole_domain() {
    assert_eq!(cuckoo_lane(0), None);
    for lane in 0..CUCKOO_LANES {
        let mask = 0x80u64 << (8 * lane);
        assert_eq!(
            cuckoo_lane(mask),
            Some(lane),
            "the decoder maps the lane-{lane} mask {mask:#018x} to the wrong lane"
        );
    }
}

/// Every lane, every signature, and every byte in the lane above, which is where the borrow of
/// the zero-byte search lands.
#[test]
fn the_signature_search_finds_the_lane_that_holds_it() {
    for lane in 0..CUCKOO_LANES {
        for sig in 1..=255u8 {
            let sigs = u64::from(sig) << (8 * lane);
            assert_eq!(
                cuckoo_lane(cuckoo_match(sigs, sig)),
                Some(lane),
                "signature {sig} in lane {lane} alone was not found there"
            );
            if lane + 1 < CUCKOO_LANES {
                for neighbour in 0..=255u8 {
                    let sigs = sigs | (u64::from(neighbour) << (8 * (lane + 1)));
                    assert_eq!(
                        cuckoo_lane(cuckoo_match(sigs, sig)),
                        Some(lane),
                        "signature {sig} in lane {lane} with {neighbour} above it resolved wrong"
                    );
                }
            }
        }
    }
}

#[test]
fn a_signature_no_lane_holds_is_not_found() {
    for lane in 0..CUCKOO_LANES {
        for held in 1..=255u8 {
            let sigs = u64::from(held) << (8 * lane);
            for sig in 1..=255u8 {
                if sig == held {
                    continue;
                }
                assert_eq!(
                    cuckoo_lane(cuckoo_match(sigs, sig)),
                    None,
                    "querying {sig} against a bucket holding only {held} in lane {lane} matched"
                );
            }
        }
    }
}

/// Zero is what marks a lane free.
#[test]
fn no_key_has_a_zero_signature() {
    for high in 0..=0xffffffu32 {
        assert_ne!(cuckoo_sig(high << 8), 0);
    }
    let mut key = 0x1234_5678u32;
    for _ in 0..1_000_000 {
        assert_ne!(cuckoo_sig(cuckoo_hash(key)), 0);
        key = key.wrapping_mul(0x0019_660d).wrapping_add(0x3c6e_f35f);
    }
}

#[test]
fn the_alternate_bucket_is_an_involution_and_never_the_home_one() {
    let mut key = 1u32;
    for _ in 0..2_000_000 {
        let delta = cuckoo_delta(key);
        let home = cuckoo_home(cuckoo_hash(key)) & CUCKOO_BUCKET_MASK;
        let alt = cuckoo_alt(home, delta);
        assert_ne!(alt, home, "key {key} has one bucket and not two");
        assert_eq!(
            cuckoo_alt(alt, delta),
            home,
            "key {key} cannot be moved back from its alternate bucket"
        );
        key = key.wrapping_mul(0x0019_660d).wrapping_add(0x3c6e_f35f);
    }
}

#[test]
fn occupancy_counts_the_lanes_that_are_set() {
    assert_eq!(cuckoo_occupancy(0), 0);
    assert_eq!(cuckoo_occupancy(u64::MAX), CUCKOO_LANES as u32);
    assert_eq!(cuckoo_occupancy(0x0000_0000_00ff_ffff), 3);
}

#[test]
fn a_bucket_holds_what_was_written_into_it() {
    let mut bucket = CuckooBucket::empty();
    assert_eq!(cuckoo_occupancy(bucket.sigs), 0);
    bucket.sigs = 0x00_00_00_00_00_00_2a_00;
    bucket.keys[1] = 0x0a00_0001;
    bucket.tags[1] = Action::Drop as u8;
    assert_eq!(cuckoo_occupancy(bucket.sigs), 1);
    assert_eq!(cuckoo_lane(cuckoo_match(bucket.sigs, 0x2a)), Some(1));
    assert_eq!(
        Action::from_u8(bucket.tags[1]),
        Some(Action::Drop),
        "the verdict has to survive the byte it is stored in"
    );
}

fn empty_table() -> Vec<CuckooBucket> {
    vec![CuckooBucket::empty(); CUCKOO_BUCKETS]
}

/// A stream that starts from a seed and never ends.
fn stream(seed: u32) -> impl FnMut() -> u32 {
    let mut state = seed;
    move || {
        state = state.wrapping_mul(0x0019_660d).wrapping_add(0x3c6e_f35f);
        state >> 8
    }
}

#[test]
fn a_bucket_is_one_cache_line() {
    assert_eq!(CUCKOO_BYTES, 64 * CUCKOO_BUCKETS);
    assert_eq!(CuckooBucket::default(), CuckooBucket::empty());
}

#[test]
fn a_key_goes_to_the_first_lane_of_its_home_bucket() {
    let mut table = empty_table();
    let mut random = stream(1);
    assert_eq!(cuckoo_lookup(&table, 0x0a00_0001), None);
    let cost = cuckoo_insert(&mut table, 0x0a00_0001, Action::Drop, &mut random);
    assert_eq!(cost, Ok(Placement { kicks: 0, sig_evictions: 0 }));
    assert_eq!(cuckoo_lookup(&table, 0x0a00_0001), Some(Action::Drop));

    let home = (cuckoo_home(cuckoo_hash(0x0a00_0001)) & CUCKOO_BUCKET_MASK) as usize;
    assert_eq!(table[home].keys[0], 0x0a00_0001);
    assert_eq!(table[home].sigs, u64::from(cuckoo_sig(cuckoo_hash(0x0a00_0001))));
    assert_eq!(cuckoo_lookup(&table, 0x0a00_0002), None);
}

#[test]
fn inserting_again_replaces_the_verdict() {
    let mut table = empty_table();
    let mut random = stream(2);
    for action in [Action::Drop, Action::Allow, Action::Mark] {
        assert!(cuckoo_insert(&mut table, 7, action, &mut random).is_ok());
        assert_eq!(cuckoo_lookup(&table, 7), Some(action));
    }
    let held: u32 = table.iter().map(|bucket| cuckoo_occupancy(bucket.sigs)).sum();
    assert_eq!(held, 1);
}

#[test]
fn a_settled_key_is_found_and_a_full_bucket_settles_nothing() {
    let mut table = empty_table();
    let key = 0xc0a8_0101;
    let home = cuckoo_home(cuckoo_hash(key)) & CUCKOO_BUCKET_MASK;
    assert!(cuckoo_settle(&mut table, home, key, Action::Allow));
    assert_eq!(cuckoo_lookup(&table, key), Some(Action::Allow));

    let sig = cuckoo_sig(cuckoo_hash(key));
    let full = CuckooBucket {
        sigs: u64::from_le_bytes([1, 2, 3, 4, 5, 6, 7, 8].map(|lane| if lane == sig { 9 } else { lane })),
        keys: [1; CUCKOO_LANES],
        tags: [0; CUCKOO_LANES],
        pad: [0; 16],
    };
    let mut table = empty_table();
    table[home as usize] = full;
    assert!(!cuckoo_settle(&mut table, home, key, Action::Allow));
    assert_eq!(table[home as usize], full);
}

#[test]
fn a_displacement_hands_back_what_was_there() {
    let mut table = empty_table();
    table[9].keys[2] = 0x0102_0304;
    table[9].tags[2] = Action::Allow as u8;
    assert_eq!(
        cuckoo_displace(&mut table, 9, 2, 0xc0a8_0101, Action::Drop),
        (0x0102_0304, Action::Allow)
    );
    assert_eq!(table[9].keys[2], 0xc0a8_0101);
    assert_eq!(table[9].tags[2], Action::Drop as u8);

    // A byte that stands for no verdict is carried on as none.
    table[9].tags[2] = 0xee;
    assert_eq!(
        cuckoo_displace(&mut table, 9, 2, 1, Action::Drop),
        (0xc0a8_0101, Action::Continue)
    );
}

/// A lane that holds the signature already is the one that has to go, whatever the stream says.
#[test]
fn a_colliding_signature_is_what_an_insertion_moves() {
    let key = 0xc0a8_0101u32;
    let home = cuckoo_home(cuckoo_hash(key)) & CUCKOO_BUCKET_MASK;
    let alt = cuckoo_alt(home, cuckoo_delta(key));
    let mut table = empty_table();
    for bucket in [home, alt] {
        table[bucket as usize].sigs = u64::from(cuckoo_sig(cuckoo_hash(key))) << 16;
        table[bucket as usize].keys[2] = 0x0102_0304;
        table[bucket as usize].tags[2] = Action::Allow as u8;
    }
    let mut random = || -> u32 { unreachable!("nothing is drawn") };
    assert_eq!(
        cuckoo_insert(&mut table, key, Action::Drop, &mut random),
        Ok(Placement { kicks: 1, sig_evictions: 1 })
    );
    assert_eq!(table[home as usize].keys[2], key);
    let moved = cuckoo_alt(home, cuckoo_delta(0x0102_0304)) as usize;
    assert_eq!(table[moved].keys[0], 0x0102_0304);
    assert_eq!(table[moved].tags[0], Action::Allow as u8);
}

/// A table whose two buckets for `key` are full, of other signatures than its own.
fn table_closed_to(key: u32) -> Vec<CuckooBucket> {
    let sig = cuckoo_sig(cuckoo_hash(key));
    let home = cuckoo_home(cuckoo_hash(key));
    let mut table = empty_table();
    for (which, bucket) in [home, cuckoo_alt(home, cuckoo_delta(key))].into_iter().enumerate() {
        let slot = &mut table[bucket as usize];
        for (lane, other) in (1..=255u8).filter(|&other| other != sig).take(8).enumerate() {
            slot.sigs |= u64::from(other) << (8 * lane);
            slot.keys[lane] = 0x0102_0300 + (8 * which + lane) as u32;
            slot.tags[lane] = Action::Allow as u8;
        }
    }
    table
}

fn lanes_in_use(table: &[CuckooBucket]) -> u32 {
    table.iter().map(|bucket| cuckoo_occupancy(bucket.sigs)).sum()
}

/// One word is drawn for each displacement no equal signature decides, and none otherwise.
#[test]
fn an_insertion_draws_one_word_for_each_undecided_displacement() {
    let mut drawn = 0u32;
    let mut table = empty_table();
    let mut random = || -> u32 { unreachable!("nothing is drawn") };
    assert_eq!(
        cuckoo_insert(&mut table, 0xc0a8_0101, Action::Drop, &mut random),
        Ok(Placement { kicks: 0, sig_evictions: 0 })
    );

    let key = 0xc0a8_0101u32;
    let mut table = table_closed_to(key);
    let mut random = || {
        drawn += 1;
        0x1235
    };
    assert_eq!(
        cuckoo_insert(&mut table, key, Action::Drop, &mut random),
        Ok(Placement { kicks: 1, sig_evictions: 0 })
    );
    assert_eq!(drawn, 1);
    let home = cuckoo_home(cuckoo_hash(key));
    assert_eq!(table[home as usize].keys[5], key, "the word picks the lane");
    let moved = cuckoo_alt(home, cuckoo_delta(0x0102_0305)) as usize;
    assert_eq!(table[moved].keys[0], 0x0102_0305);
}

/// In a table with one free lane a bucket, the words drawn are the cost less what signatures decided.
#[test]
fn the_words_drawn_are_the_undecided_part_of_the_cost() {
    let mut table = empty_table();
    for (i, bucket) in table.iter_mut().enumerate() {
        bucket.sigs = 0x0007_0605_0403_0201;
        for lane in 0..CUCKOO_LANES - 1 {
            bucket.keys[lane] = (i * CUCKOO_LANES + lane) as u32;
        }
    }
    let mut words = stream(9);
    let mut key = 0x7f4a_7c15u32;
    let mut total = Placement { kicks: 0, sig_evictions: 0 };
    for _ in 0..20_000 {
        let mut drawn = 0u32;
        let mut random = || {
            drawn += 1;
            words()
        };
        let cost = cuckoo_insert(&mut table, key, Action::Drop, &mut random).unwrap();
        assert_eq!(drawn, cost.kicks - cost.sig_evictions);
        total.kicks += cost.kicks;
        total.sig_evictions += cost.sig_evictions;
        key = key.wrapping_add(0x9e37_79b9);
    }
    assert!(0 < total.sig_evictions && total.sig_evictions < total.kicks, "{total:?}");
}

/// Two streams that agree on what is drawn build the same table, whatever either would say next.
#[test]
fn a_build_is_reproducible_from_its_words() {
    let key = 0x0a01_0203u32;
    let mut first = table_closed_to(key);
    let mut second = first.clone();
    let mut words = vec![7u32, 1].into_iter();
    let mut others = vec![7u32, 2].into_iter();
    assert_eq!(
        cuckoo_insert(&mut first, key, Action::Drop, &mut || words.next().unwrap()),
        cuckoo_insert(&mut second, key, Action::Drop, &mut || others.next().unwrap())
    );
    for (a, b) in first.iter().zip(&second) {
        assert_eq!((a.sigs, a.keys, a.tags), (b.sigs, b.keys, b.tags));
    }
}

/// A new key takes one lane wherever the keys it displaced went, and a held one takes none.
#[test]
fn an_insertion_fills_one_lane() {
    let key = 0xc0a8_0101u32;
    let mut table = table_closed_to(key);
    let before = lanes_in_use(&table);
    assert!(cuckoo_insert(&mut table, key, Action::Drop, &mut stream(1)).is_ok());
    assert_eq!(lanes_in_use(&table), before + 1);
    assert!(cuckoo_insert(&mut table, key, Action::Allow, &mut stream(1)).is_ok());
    assert_eq!(lanes_in_use(&table), before + 1);
    assert_eq!(cuckoo_lookup(&table, key), Some(Action::Allow));
}

#[test]
fn every_key_of_a_half_full_table_is_found() {
    let mut table = empty_table();
    let mut random = stream(3);
    let count = CUCKOO_BUCKETS * CUCKOO_LANES / 4;
    let mut key = 0x9e37_79b9u32;
    let mut keys = Vec::with_capacity(count);
    for i in 0..count {
        keys.push((key, if i % 2 == 0 { Action::Drop } else { Action::Allow }));
        key = key.wrapping_add(0x9e37_79b9);
    }
    for &(key, action) in &keys {
        assert!(cuckoo_insert(&mut table, key, action, &mut random).is_ok());
    }
    for &(key, action) in &keys {
        assert_eq!(cuckoo_lookup(&table, key), Some(action), "key {key:#010x}");
    }
    let held: usize = table.iter().map(|bucket| cuckoo_occupancy(bucket.sigs) as usize).sum();
    assert_eq!(held, count);
}

#[test]
fn a_table_with_no_free_lane_is_refused() {
    let mut table = empty_table();
    for (i, bucket) in table.iter_mut().enumerate() {
        bucket.sigs = 0x0807_0605_0403_0201;
        for lane in 0..CUCKOO_LANES {
            bucket.keys[lane] = (i * CUCKOO_LANES + lane) as u32;
        }
    }
    let mut random = stream(5);
    assert_eq!(
        cuckoo_insert(&mut table, 0x0a00_0001, Action::Drop, &mut random),
        Err(CuckooFull::Kicked)
    );
    for bucket in &table {
        assert_eq!(cuckoo_occupancy(bucket.sigs), CUCKOO_LANES as u32);
    }
}

#[test]
fn the_two_tables_answer_alike() {
    let mut cuckoo = empty_table();
    let mut flat = vec![OaSlot::default(); OA_SLOTS];
    let mut random = stream(6);
    let mut key = 3u32;
    for i in 0..20_000 {
        let action = [Action::Drop, Action::Allow, Action::RateLimit][i % 3];
        assert!(cuckoo_insert(&mut cuckoo, key, action, &mut random).is_ok());
        assert!(oa_insert(&mut flat, key, action).is_some());
        key = key.wrapping_add(0x9e37_79b9);
    }
    let mut probe = 3u32;
    for _ in 0..40_000 {
        assert_eq!(cuckoo_lookup(&cuckoo, probe), oa_lookup(&flat, probe));
        probe = probe.wrapping_add(0x9e37_79b9);
    }
}
