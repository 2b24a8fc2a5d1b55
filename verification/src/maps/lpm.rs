//! Writing the unified list, some entries per system call.

use vstd::prelude::*;

use crate::bytes::ByteOrder;
use crate::wire::{LpmKey, LpmValue};

verus! {

/// Bytes of a key, as the kernel strides a buffer of them.
pub const KEY_BYTES: usize = 20;

/// Bytes of a value, as the kernel strides a buffer of them.
pub const VALUE_BYTES: usize = 48;

/// One write: the keys and the values of some entries, each in one buffer.
pub struct LpmBatch {
    pub keys: Vec<u8>,
    pub values: Vec<u8>,
    pub count: usize,
}

/// How many entries go into one write: at least one, and no more than there are.
pub open spec fn chunk_of(chunk: usize, entries: nat) -> int {
    let most = if entries < 1 {
        1
    } else {
        entries as int
    };
    if chunk < 1 {
        1
    } else if chunk > most {
        most
    } else {
        chunk as int
    }
}

/// How many entries go into one write.
pub fn chunk_size(chunk: usize, entries: usize) -> (size: usize)
    ensures
        size == chunk_of(chunk, entries as nat),
        size >= 1,
{
    let most: usize = if entries < 1 {
        1
    } else {
        entries
    };
    if chunk < 1 {
        1
    } else if chunk > most {
        most
    } else {
        chunk
    }
}

/// Whether the first `count` entries of a buffer of keys are the entries from `from` on.
pub open spec fn holds_keys(
    bytes: Seq<u8>,
    entries: Seq<(LpmKey, LpmValue)>,
    from: int,
    count: int,
    order: ByteOrder,
) -> bool {
    &&& bytes.len() == 20 * count
    &&& forall|i: int|
        0 <= i < count ==> {
            let key = #[trigger] bytes.subrange(20 * i, 20 * i + 20);
            &&& crate::bytes::number(key.subrange(0, 4), order) == entries[from + i].0.prefix_len
            &&& key.subrange(4, 20) == entries[from + i].0.addr@
        }
}

/// Whether the first `count` entries of a buffer of values are the entries from `from` on.
pub open spec fn holds_values(
    bytes: Seq<u8>,
    entries: Seq<(LpmKey, LpmValue)>,
    from: int,
    count: int,
    order: ByteOrder,
) -> bool {
    &&& bytes.len() == 48 * count
    &&& forall|i: int|
        0 <= i < count ==> entries[from + i].1.is_layout(
            #[trigger] bytes.subrange(48 * i, 48 * i + 48),
            order,
        )
}

/// The write that starts at entry `from`: the next `chunk` entries, or what is left of them. A
/// list is written by asking for every multiple of the chunk size in turn.
pub fn load(
    entries: &[(LpmKey, LpmValue)],
    from: usize,
    chunk: usize,
    order: ByteOrder,
) -> (batch: LpmBatch)
    requires
        from < entries@.len(),
        chunk >= 1,
    ensures
        batch.count == (if from + chunk < entries@.len() {
            chunk as int
        } else {
            entries@.len() - from
        }),
        holds_keys(batch.keys@, entries@, from as int, batch.count as int, order),
        holds_values(batch.values@, entries@, from as int, batch.count as int, order),
{
    let left: usize = entries.len() - from;
    let count: usize = if chunk < left {
        chunk
    } else {
        left
    };
    let mut keys: Vec<u8> = Vec::new();
    let mut values: Vec<u8> = Vec::new();
    let mut i: usize = 0;
    while i < count
        invariant
            i <= count,
            from + count <= entries@.len(),
            entries@.len() <= usize::MAX,
            holds_keys(keys@, entries@, from as int, i as int, order),
            holds_values(values@, entries@, from as int, i as int, order),
        decreases count - i,
    {
        let ghost keys_before = keys@;
        let ghost values_before = values@;
        let key: Vec<u8> = entries[from + i].0.to_bytes(order);
        let value: Vec<u8> = entries[from + i].1.to_bytes(order);
        append(&mut keys, &key);
        append(&mut values, &value);
        proof {
            assert forall|j: int| 0 <= j < i + 1 implies ({
                let run = #[trigger] keys@.subrange(20 * j, 20 * j + 20);
                &&& crate::bytes::number(run.subrange(0, 4), order) == entries@[from
                    + j].0.prefix_len
                &&& run.subrange(4, 20) == entries@[from + j].0.addr@
            }) by {
                let run = keys@.subrange(20 * j, 20 * j + 20);
                if j < i {
                    assert(run =~= keys_before.subrange(20 * j, 20 * j + 20));
                } else {
                    assert(run =~= key@);
                }
            }
            assert forall|j: int| 0 <= j < i + 1 implies entries@[from + j].1.is_layout(
                #[trigger] values@.subrange(48 * j, 48 * j + 48),
                order,
            ) by {
                let run = values@.subrange(48 * j, 48 * j + 48);
                if j < i {
                    assert(run =~= values_before.subrange(48 * j, 48 * j + 48));
                } else {
                    assert(run =~= value@);
                }
            }
        }
        i += 1;
    }
    LpmBatch { keys, values, count }
}

fn append(buffer: &mut Vec<u8>, tail: &[u8])
    ensures
        final(buffer)@ == old(buffer)@ + tail@,
{
    let ghost before = buffer@;
    let mut i: usize = 0;
    while i < tail.len()
        invariant
            i <= tail@.len(),
            buffer@ == before + tail@.take(i as int),
        decreases tail@.len() - i,
    {
        buffer.push(tail[i]);
        assert(tail@.take(i + 1) =~= tail@.take(i as int).push(tail@[i as int]));
        i += 1;
    }
    assert(tail@.take(i as int) =~= tail@);
}

/// The entry that starts write `n` of a list.
pub open spec fn write_start(n: int, size: int) -> int {
    n * size
}

/// Every entry is in one write and in one only: entry `i` is in write `i / size`, at place
/// `i % size` of it.
pub proof fn every_entry_is_written_once(entries: nat, size: int, i: int)
    requires
        size >= 1,
        0 <= i < entries,
    ensures
        ({
            let start = write_start(i / size, size);
            let count = if start + size < entries {
                size
            } else {
                entries - start
            };
            &&& 0 <= start <= i < start + count
            &&& forall|n: int|
                0 <= n && n != i / size ==> !(#[trigger] write_start(n, size) <= i < write_start(
                    n,
                    size,
                ) + size)
        }),
{
    let q = i / size;
    vstd::arithmetic::div_mod::lemma_fundamental_div_mod(i, size);
    assert(q * size <= i < q * size + size && 0 <= q * size) by (nonlinear_arith)
        requires
            i == size * q + i % size,
            0 <= i % size < size,
            q >= 0,
            size >= 1,
    ;
    assert forall|n: int| 0 <= n && n != q implies !(#[trigger] write_start(n, size) <= i
        < write_start(n, size) + size) by {
        assert(n < q ==> n * size + size <= q * size) by (nonlinear_arith)
            requires
                size >= 1,
        ;
        assert(n > q ==> n * size >= q * size + size) by (nonlinear_arith)
            requires
                size >= 1,
        ;
    }
}

/// A write holds at least one entry and no more than the list has, and exactly as many as were
/// asked for wherever that lies between.
pub proof fn a_write_holds_what_was_asked_for(chunk: usize, entries: nat)
    ensures
        1 <= chunk_of(chunk, entries),
        entries >= 1 ==> chunk_of(chunk, entries) <= entries,
        1 <= chunk <= entries ==> chunk_of(chunk, entries) == chunk,
        entries >= 1 && chunk > entries ==> chunk_of(chunk, entries) == entries,
{
}

/// Where the entry at place `i` of a write sits: its prefix length and its address in the twenty
/// bytes of key `i`, and its verdict, priority, deadline and counter in the forty-eight of value
/// `i`.
pub proof fn a_write_keeps_each_key_beside_its_value(
    keys: Seq<u8>,
    values: Seq<u8>,
    entries: Seq<(LpmKey, LpmValue)>,
    from: int,
    count: int,
    order: ByteOrder,
    i: int,
)
    requires
        holds_keys(keys, entries, from, count, order),
        holds_values(values, entries, from, count, order),
        0 <= i < count,
    ensures
        crate::bytes::number(keys.subrange(20 * i, 20 * i + 4), order)
            == entries[from + i].0.prefix_len,
        keys.subrange(20 * i + 4, 20 * i + 20) == entries[from + i].0.addr@,
        values[48 * i] == entries[from + i].1.action.code(),
        values[48 * i + 1] == entries[from + i].1.priority,
        values[48 * i + 2] == entries[from + i].1.scope_len,
        crate::bytes::number(values.subrange(48 * i + 32, 48 * i + 40), order)
            == entries[from + i].1.deadline.0,
        crate::bytes::number(values.subrange(48 * i + 40, 48 * i + 44), order)
            == entries[from + i].1.counter_idx,
{
    let key = keys.subrange(20 * i, 20 * i + 20);
    let value = values.subrange(48 * i, 48 * i + 48);
    assert(key.subrange(0, 4) =~= keys.subrange(20 * i, 20 * i + 4));
    assert(key.subrange(4, 20) =~= keys.subrange(20 * i + 4, 20 * i + 20));
    assert(entries[from + i].1.is_layout(value, order));
    assert(value[0] == values[48 * i] && value[1] == values[48 * i + 1] && value[2] == values[48 * i
        + 2]);
    assert(value.subrange(32, 40) =~= values.subrange(48 * i + 32, 48 * i + 40));
    assert(value.subrange(40, 44) =~= values.subrange(48 * i + 40, 48 * i + 44));
}

} // verus!
