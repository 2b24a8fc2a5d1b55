//! The readers of the counter map and of the bank, and the writes of the unified list.

use lorica::maps::bank::BankReader;
use lorica::maps::batch::{
    phantom_cpus, update_count, update_outcome, BatchRequest, ReadStep, StripedU64Reader,
};
use lorica::maps::counters::{counter_at, counter_layout, slot_indices, Answer, Counters};
use lorica::maps::lpm::{chunk_size, load};
use lorica::maps::memlock::{memlock_bytes, MemlockError};
use lorica::maps::mmap::{page_size, Mapped};
use lorica::{Action, ByteOrder, CounterLayout, LpmKey, LpmValue, BANK_SLOT_BYTES};

fn layout() -> CounterLayout {
    CounterLayout::new(5, 3).expect("a valid layout")
}

/// The words of the whole map: a number of its own in every element, the padding included.
fn words() -> Vec<u64> {
    (0..u64::from(layout().entries())).map(|i| 1_000 * i + 1).collect()
}

/// What one sum per slot has to be.
fn expected() -> Vec<u64> {
    let layout = layout();
    let words = words();
    (0..layout.slots)
        .map(|slot| (0..layout.cpus).map(|cpu| words[layout.index(cpu, slot) as usize]).sum())
        .collect()
}

/// Answers the lookups of one read out of the map, and says how many there were.
fn walk(reader: &mut StripedU64Reader, from: &mut usize) -> usize {
    let words = words();
    let mut lookups = 0;
    let mut step = reader.begin();
    while step == ReadStep::Lookup {
        let request = reader.request();
        if !request.resume {
            *from = 0;
        }
        let to = (*from + request.count as usize).min(words.len());
        let keys: Vec<u32> = (*from as u32..to as u32).collect();
        step = reader.take(&keys, &words[*from..to], keys.len() as u32, to == words.len());
        *from = to;
        lookups += 1;
    }
    assert_eq!(step, ReadStep::Finished);
    lookups
}

#[test]
fn a_pass_sums_every_stripe_whatever_the_batch() {
    for batch in [0, 1, 7, 24, 1_000] {
        let mut reader = StripedU64Reader::new(layout(), batch);
        assert_eq!(reader.batch(), batch.clamp(1, 24));
        assert_eq!(reader.last(), &[0; 5]);
        let lookups = walk(&mut reader, &mut 0);
        assert_eq!(lookups, 24usize.div_ceil(reader.batch() as usize));
        assert_eq!(reader.last(), &expected()[..]);
        assert_eq!(reader.walked(), 24);
        // A second pass carries nothing over.
        walk(&mut reader, &mut 0);
        assert_eq!(reader.last(), &expected()[..]);
    }
}

/// A pass spread over reads is published whole, on the last of them.
#[test]
fn a_stride_publishes_on_its_last_read() {
    for stride in [1u32, 2, 5, 24] {
        let mut reader = StripedU64Reader::new(layout(), 4).with_stride(stride);
        assert_eq!(reader.stride(), stride);
        let mut from = 0;
        for _ in 0..2 {
            let mut reads = 0;
            let before = reader.last().to_vec();
            loop {
                walk(&mut reader, &mut from);
                reads += 1;
                assert!(reads <= stride);
                if from == words().len() {
                    break;
                }
                assert_eq!(reader.last(), &before[..]);
            }
            assert_eq!(reader.last(), &expected()[..]);
        }
    }
    assert_eq!(StripedU64Reader::new(layout(), 4).with_stride(0).stride(), 1);
    assert_eq!(StripedU64Reader::new(layout(), 4).layout(), layout());
}

#[test]
fn a_walk_that_ends_early_ends_the_pass() {
    let mut reader = StripedU64Reader::new(layout(), 8);
    assert_eq!(reader.begin(), ReadStep::Lookup);
    assert_eq!(reader.request(), BatchRequest { resume: false, count: 8 });
    assert_eq!(reader.take(&[0, 9], &[3, 4], 2, true), ReadStep::Finished);
    assert_eq!(reader.last(), &[3, 4, 0, 0, 0]);

    // One that returns nothing without ending is stuck, and the last pass stands.
    assert_eq!(reader.begin(), ReadStep::Lookup);
    assert_eq!(reader.take(&[], &[], 0, false), ReadStep::Stuck);
    assert_eq!(reader.last(), &[3, 4, 0, 0, 0]);
}

#[test]
fn the_sums_wrap_as_the_counters_do() {
    let mut reader = StripedU64Reader::new(layout(), 24);
    reader.begin();
    assert_eq!(reader.take(&[0, 8], &[u64::MAX, 2], 2, true), ReadStep::Finished);
    assert_eq!(reader.last()[0], 1);
    assert_eq!(counter_at(&[u64::MAX, 2]), 1);
}

#[test]
fn the_mapped_reader_agrees_with_the_batch_walk() {
    let mut mapped = Mapped::new(layout(), 4096).expect("it fits");
    assert_eq!(mapped.mapped_bytes(), 4096);
    assert_eq!(mapped.last(), &[0; 5]);
    mapped.read(&words());
    assert_eq!(mapped.last(), &expected()[..]);
    // Nothing is carried over, and a stripe that is not there ends the read.
    mapped.read(&words()[..16]);
    let two: Vec<u64> = (0..5).map(|slot| words()[slot] + words()[8 + slot]).collect();
    assert_eq!(mapped.last(), &two[..]);
    assert_eq!(mapped.layout(), layout());
    assert!(Mapped::new(layout(), usize::MAX).is_some());
}

#[test]
fn the_page_of_a_machine_that_does_not_say() {
    assert_eq!(page_size(16_384), 16_384);
    assert_eq!(page_size(-1), 4_096);
    assert_eq!(page_size(0), 4_096);
    let large = CounterLayout::new(1_058, 8).expect("a valid layout");
    let bytes = Mapped::new(large, 4_096).expect("it fits").mapped_bytes();
    assert_eq!(bytes, 69_632);
}

#[test]
fn one_slot_is_summed_over_the_processors() {
    let indices = slot_indices(layout(), 4);
    assert_eq!(indices, vec![4, 12, 20]);
    let values: Vec<u64> = indices.iter().map(|&index| words()[index as usize]).collect();
    assert_eq!(counter_at(&values), expected()[4]);
    assert_eq!(counter_at(&[]), 0);
}

#[test]
fn the_counters_are_read_either_way() {
    let mut counters = Counters::open(Mapped::new(layout(), 4096).ok_or("no".to_string()), layout(), 8);
    assert!(counters.is_mapped() && counters.unmapped().is_none());
    assert_eq!(counters.read(Answer::Words(&words())), ReadStep::Finished);
    assert_eq!(counters.last(), &expected()[..]);
    assert_eq!((counters.stride(), counters.walked()), (1, 0));
    let counters = counters.with_stride(9);
    assert_eq!(counters.stride(), 1);

    let mut counters = Counters::open(Err("refused".to_string()), layout(), 24).with_stride(1);
    assert_eq!(counters.unmapped().map(String::as_str), Some("refused"));
    assert!(!counters.is_mapped());
    assert_eq!(counters.read(Answer::Begin), ReadStep::Lookup);
    let keys: Vec<u32> = (0..24).collect();
    let batch = Answer::Batch { keys: &keys, values: &words(), count: 24, ended: true };
    assert_eq!(counters.read(batch), ReadStep::Finished);
    assert_eq!(counters.last(), &expected()[..]);
    assert_eq!(counters.walked(), 24);
    assert_eq!(counters.layout(), layout());
    assert!(Counters::batched(layout(), 8).unmapped().is_none());
}

#[test]
fn a_machine_past_the_ceiling_has_no_layout() {
    assert_eq!(counter_layout(5, 3), Ok(layout()));
    assert_eq!(
        counter_layout(34, 513),
        Err(
            "no counter layout for 34 slots on 513 possible processors: the ceiling is 512 \
             processors, and past it the map is a size no profile budgeted for"
                .to_string()
        )
    );
}

/// A bank whose bucket `i` holds the level `10 * i`.
fn bank(buckets: u32) -> Vec<u8> {
    let mut bytes = Vec::new();
    for i in 0..buckets {
        bytes.extend((10 * u64::from(i)).to_ne_bytes());
        bytes.resize(((i + 1) * BANK_SLOT_BYTES) as usize, 0xee);
    }
    bytes
}

#[test]
fn a_pass_over_the_bank_reads_every_level() {
    let order = ByteOrder::host();
    let mut reader = BankReader::new(10, 4);
    assert_eq!((reader.batch(), reader.buffer_bytes()), (4, 256));
    let bank = bank(10);
    let mut from = 0u32;
    let mut step = reader.begin();
    while step == ReadStep::Lookup {
        let request = reader.request();
        assert_eq!(request.resume, from > 0);
        let to = from + request.count;
        let keys: Vec<u32> = (from..to).collect();
        let values = &bank[(64 * from) as usize..(64 * to) as usize];
        assert!(reader.last().iter().all(|level| *level == 0));
        step = reader.take(&keys, values, request.count, to == 10, order);
        from = to;
    }
    assert_eq!(step, ReadStep::Finished);
    assert_eq!(reader.last(), &[0, 10, 20, 30, 40, 50, 60, 70, 80, 90]);
}

/// A pass that ends short leaves the last one standing.
#[test]
fn half_a_bank_is_never_published() {
    let order = ByteOrder::host();
    let mut reader = BankReader::new(2, 2);
    reader.begin();
    assert_eq!(reader.take(&[0, 1], &bank(2), 2, true, order), ReadStep::Finished);
    assert_eq!(reader.last(), &[0, 10]);
    reader.begin();
    assert_eq!(reader.take(&[1], &[0xff; 64], 1, true, order), ReadStep::Stuck);
    assert_eq!(reader.last(), &[0, 10]);
    reader.begin();
    assert_eq!(reader.take(&[], &[], 0, false, order), ReadStep::Stuck);
    assert_eq!(reader.last(), &[0, 10]);
    assert_eq!(BankReader::new(0, 2).begin(), ReadStep::Finished);
}

#[test]
fn processors_that_cannot_run_code() {
    assert_eq!(phantom_cpus(16, 8), Some((16, 8)));
    assert_eq!(phantom_cpus(8, 8), None);
    assert_eq!(phantom_cpus(8, 16), None);
}

#[test]
fn a_partial_write_is_an_error_that_carries_the_count() {
    assert_eq!(update_outcome(None, 3, 3), Ok(()));
    assert_eq!(
        update_outcome(None, 2, 3),
        Err("BPF_MAP_UPDATE_BATCH took 2 of 3 entries and reported success".to_string())
    );
    assert_eq!(
        update_outcome(Some("no memory"), 2, 3),
        Err("BPF_MAP_UPDATE_BATCH took 2 of 3 entries: no memory".to_string())
    );
    assert_eq!(update_count(7), Some(7));
    assert_eq!(update_count(usize::MAX), None);
}

fn entries(count: u8) -> Vec<(LpmKey, LpmValue)> {
    (0..count)
        .map(|i| {
            let mut value = LpmValue::zeroed();
            value.action = Action::Drop;
            value.priority = i;
            (LpmKey::host_v4([10, 0, 0, i]), value)
        })
        .collect()
}

#[test]
fn every_entry_is_written_once_and_in_order() {
    let order = ByteOrder::host();
    let entries = entries(7);
    let chunk = chunk_size(3, entries.len());
    let (mut keys, mut values, mut counts) = (Vec::new(), Vec::new(), Vec::new());
    for from in (0..entries.len()).step_by(chunk) {
        let batch = load(&entries, from, chunk, order);
        counts.push(batch.count);
        keys.extend(batch.keys);
        values.extend(batch.values);
    }
    assert_eq!(counts, vec![3, 3, 1]);
    assert_eq!((keys.len(), values.len()), (7 * 20, 7 * 48));
    for (i, (key, value)) in entries.iter().enumerate() {
        assert_eq!(&keys[20 * i..20 * i + 20], &key.to_bytes(order)[..]);
        assert_eq!(&values[48 * i..48 * i + 48], &value.to_bytes(order)[..]);
    }
}

#[test]
fn a_chunk_is_at_least_one_entry_and_no_more_than_there_are() {
    assert_eq!(chunk_size(0, 9), 1);
    assert_eq!(chunk_size(4, 9), 4);
    assert_eq!(chunk_size(40, 9), 9);
    assert_eq!(chunk_size(4, 0), 1);
}

#[test]
fn the_memory_a_map_is_charged() {
    assert!(matches!(memlock_bytes("pos:\t0\nmemlock:\t4096\nid: 1\n"), Ok(4096)));
    assert!(matches!(memlock_bytes("memlock: +7\r\n"), Ok(7)));
    assert!(matches!(memlock_bytes("pos: 0\n memlock: 1\n"), Err(MemlockError::NoLine)));
    assert!(matches!(memlock_bytes(""), Err(MemlockError::NoLine)));
    assert!(matches!(
        memlock_bytes("memlock:\tmany \nmemlock: 5"),
        Err(MemlockError::Unreadable(text)) if text == "many"
    ));
    assert!(matches!(
        memlock_bytes("memlock: 18446744073709551616"),
        Err(MemlockError::Unreadable(_))
    ));
}

/// Words that have grown between two reads give sums that have grown.
#[test]
fn a_sum_of_growing_counters_does_not_fall() {
    let mut mapped = Mapped::new(layout(), 4096).expect("it fits");
    mapped.read(&words());
    let before = mapped.last().to_vec();
    let mut grown = words();
    for (i, word) in grown.iter_mut().enumerate() {
        *word += (i % 3) as u64;
    }
    mapped.read(&grown);
    assert!(mapped.last().iter().zip(&before).all(|(after, before)| after >= before));
    assert!(mapped.last() != &before[..]);
}
