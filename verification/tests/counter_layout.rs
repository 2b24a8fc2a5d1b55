//! The counter map: its slots, their names, and the stripe of each processor.

use lorica::{CounterId, CounterLayout, COUNTER_STRIPE_SLOTS, MAX_CPUS};

/// A stripe boundary inside a cache line would make two processors share that line.
#[test]
fn a_stripe_is_a_whole_number_of_cache_lines() {
    for slots in [1u32, 7, 8, 9, 34, 1_058, 50_000, 1_048_610] {
        let layout = CounterLayout::new(slots, 8).expect("eight processors is a valid layout");
        assert_eq!(
            layout.stripe % COUNTER_STRIPE_SLOTS,
            0,
            "a stripe of {} slots for {slots} slots is not a whole number of cache lines",
            layout.stripe
        );
        assert!(
            layout.stripe >= slots,
            "a stripe of {} cannot hold {slots} slots",
            layout.stripe
        );
        assert!(
            layout.stripe - slots < COUNTER_STRIPE_SLOTS,
            "a stripe of {} wastes {} slots for {slots}, which is more than one line",
            layout.stripe,
            layout.stripe - slots
        );
    }
}

/// Each processor owns a contiguous region and no two of them overlap, which is what lets an
/// increment stay non-atomic.
#[test]
fn every_stripe_is_disjoint_and_in_processor_order() {
    let slots = CounterId::COUNT + 3;
    let cpus = 5;
    let layout = CounterLayout::new(slots, cpus).expect("a valid layout");

    let mut seen = std::collections::HashSet::new();
    for cpu in 0..cpus {
        for slot in 0..slots {
            let index = layout.index(cpu, slot);
            assert!(
                index < layout.entries(),
                "processor {cpu} slot {slot} lands at {index}, past the {} entries of the map",
                layout.entries()
            );
            assert!(
                seen.insert(index),
                "processor {cpu} slot {slot} lands at {index}, which another processor owns"
            );
        }
    }

    assert_eq!(layout.index(0, 1), layout.index(0, 0) + 1);
    assert_eq!(layout.index(1, 0), layout.index(0, 0) + layout.stripe);
}

/// The batch reader has only the flat key, and recovers the slot with a remainder.
#[test]
fn a_flat_key_reduces_to_the_slot_it_came_from() {
    let slots = 34;
    let cpus = 4;
    let layout = CounterLayout::new(slots, cpus).expect("a valid layout");

    for cpu in 0..cpus {
        for slot in 0..slots {
            assert_eq!(layout.index(cpu, slot) % layout.stripe, slot);
        }
        // The padding reduces to something the reader discards.
        for pad in slots..layout.stripe {
            assert!(layout.index(cpu, pad) % layout.stripe >= slots);
        }
    }
}

#[test]
fn the_map_is_created_for_every_stripe_and_nothing_more() {
    let layout = CounterLayout::new(1_058, 8).expect("a valid layout");
    assert_eq!(layout.entries(), layout.stripe * layout.cpus);
    assert_eq!(layout.bytes(), u64::from(layout.entries()) * 8);
}

#[test]
fn an_impossible_layout_is_refused_rather_than_wrapped() {
    // No processors is not a machine.
    assert!(CounterLayout::new(34, 0).is_none());
    // Past the ceiling the map is a size no profile budgeted for.
    assert!(CounterLayout::new(34, MAX_CPUS).is_some());
    assert!(CounterLayout::new(34, MAX_CPUS + 1).is_none());
    // And the product has to fit the entry count the kernel takes.
    assert!(CounterLayout::new(u32::MAX / 2, MAX_CPUS).is_none());
}

#[test]
fn a_layout_of_one_processor_is_one_stripe() {
    let layout = CounterLayout::new(34, 1).expect("a valid layout");
    assert_eq!((layout.slots, layout.stripe, layout.cpus), (34, 40, 1));
    assert_eq!(layout.entries(), 40);
    assert_eq!(layout.bytes(), 320);
    assert!(CounterLayout::new(u32::MAX, 1).is_none());
}

#[test]
fn a_counter_is_its_place_in_the_order() {
    assert_eq!(CounterId::COUNT as usize, CounterId::ALL.len());
    for (slot, id) in CounterId::ALL.iter().enumerate() {
        assert_eq!(id.index() as usize, slot);
    }
    assert_eq!(CounterId::ParseTruncated.index(), 0);
    assert_eq!(CounterId::BogonRefused.index(), 33);
}

#[test]
fn a_counter_is_found_by_its_name() {
    for id in CounterId::ALL {
        assert_eq!(CounterId::from_name(id.name()), Some(id));
    }
    assert_eq!(CounterId::LpmAllowExit.name(), "lpm_allow_exit");
    assert_eq!(CounterId::SignatureAmpA2s.name(), "signature_amp_a2s");
    assert_eq!(CounterId::from_name("lpm_allow"), None);
    assert_eq!(CounterId::from_name(""), None);
}
