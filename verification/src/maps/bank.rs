//! Reading the leaky-bucket bank.
//!
//! Only the first eight bytes of a slot are wanted: the level. A pass is published whole or not
//! at all. A caller that saw half a bank would compute a total that fell, and a falling total is
//! exactly what reads as an attack ending.

use vstd::prelude::*;

use super::batch::{least, zero_sums, BatchRequest, ReadStep};
use crate::bucket::BANK_SLOT_BYTES;
use crate::bytes::{read_number, ByteOrder};

verus! {

/// Where the level sits in a slot.
pub const LEVEL_AT: usize = 0;

/// A reusable reader over the bank.
pub struct BankReader {
    buckets: u32,
    batch: u32,
    /// Where the walk in progress writes. Never handed out.
    pending: Vec<u64>,
    /// The last pass that completed. What every caller reads.
    levels: Vec<u64>,
    walked: u32,
    resume: bool,
}

/// What a reader holds.
pub struct BankView {
    pub buckets: u32,
    pub batch: u32,
    pub pending: Seq<u64>,
    pub levels: Seq<u64>,
    pub walked: int,
    pub resume: bool,
}

impl View for BankReader {
    type V = BankView;

    closed spec fn view(&self) -> BankView {
        BankView {
            buckets: self.buckets,
            batch: self.batch,
            pending: self.pending@,
            levels: self.levels@,
            walked: self.walked as int,
            resume: self.resume,
        }
    }
}

impl BankView {
    /// The invariant of a reader.
    pub open spec fn valid(self) -> bool {
        &&& self.batch >= 1
        &&& self.pending.len() == self.buckets
        &&& self.levels.len() == self.buckets
        &&& 0 <= self.walked
    }

    /// Whether a pass is in progress that another call is due for.
    pub open spec fn reading(self) -> bool {
        self.walked < self.buckets
    }

    /// The reader once the elements of one call have been taken.
    pub open spec fn took(
        self,
        keys: Seq<u32>,
        values: Seq<u8>,
        count: u32,
        order: ByteOrder,
    ) -> BankView {
        BankView {
            pending: levelled(self.pending, keys, values, usable(keys, values, count), order),
            walked: self.walked + count,
            resume: true,
            ..self
        }
    }

    /// How many slots the next call of a pass asks for.
    pub open spec fn asks(self) -> int {
        least(self.batch as int, self.buckets - self.walked)
    }

    /// The reader once a pass is published.
    pub open spec fn published(self) -> BankView {
        BankView { pending: self.levels, levels: self.pending, ..self }
    }
}

/// The slots a reader of a bank asks for at most in one call.
pub open spec fn clamped_batch(buckets: u32, batch: u32) -> u32 {
    if batch < 1 || buckets < 1 {
        1
    } else if batch > buckets {
        buckets
    } else {
        batch
    }
}

/// A reader asks for the batch it was given, but for no more than the bank has and for one at
/// least.
pub proof fn a_batch_is_held_to_the_bank(buckets: u32, batch: u32)
    ensures
        1 <= batch <= buckets ==> clamped_batch(buckets, batch) == batch,
        buckets >= 1 && batch > buckets ==> clamped_batch(buckets, batch) == buckets,
        batch == 0 || buckets == 0 ==> clamped_batch(buckets, batch) == 1,
{
}

/// A call asks for something, for no more than a batch, and for nothing past the bank.
pub proof fn a_call_asks_for_the_rest_of_the_bank(reader: BankView)
    requires
        reader.valid(),
        reader.reading(),
    ensures
        1 <= reader.asks() <= reader.batch,
        reader.walked + reader.asks() <= reader.buckets,
        reader.asks() < reader.batch ==> reader.walked + reader.asks() == reader.buckets,
{
}

/// How many of the elements a call returned are in the buffers it was given.
pub open spec fn usable(keys: Seq<u32>, values: Seq<u8>, count: u32) -> int {
    let slots = (values.len() as int + 56) / 64;
    least(least(count as int, keys.len() as int), slots)
}

/// The level of slot `i` of a buffer of slots.
pub open spec fn level_at(values: Seq<u8>, i: int, order: ByteOrder) -> u64 {
    crate::bytes::number(values.subrange(64 * i, 64 * i + 8), order) as u64
}

/// What the answer of one call makes of a reader, and what is due next.
pub open spec fn call_taken(
    reader: BankView,
    keys: Seq<u32>,
    values: Seq<u8>,
    count: u32,
    ended: bool,
    order: ByteOrder,
) -> (ReadStep, BankView) {
    let took = reader.took(keys, values, count, order);
    if took.walked >= took.buckets {
        (ReadStep::Finished, took.published())
    } else if ended || count == 0 {
        (ReadStep::Stuck, took)
    } else {
        (ReadStep::Lookup, took)
    }
}

/// A pass is published whole or not at all: the levels that callers read change only where the
/// calls of the pass have returned as many elements as the bank has buckets, and then they are
/// what the pass wrote; a pass that ends short, or that a call adds nothing to, is stuck, and the
/// one before it stands.
pub proof fn a_bank_is_published_whole_or_not_at_all(
    reader: BankView,
    keys: Seq<u32>,
    values: Seq<u8>,
    count: u32,
    ended: bool,
    order: ByteOrder,
)
    ensures
        ({
            let (step, after) = call_taken(reader, keys, values, count, ended, order);
            &&& step == ReadStep::Finished <==> reader.walked + count >= reader.buckets
            &&& step != ReadStep::Finished ==> after.levels == reader.levels && after.walked
                == reader.walked + count
            &&& step == ReadStep::Finished ==> after.levels == levelled(
                reader.pending,
                keys,
                values,
                usable(keys, values, count),
                order,
            )
            &&& step == ReadStep::Stuck <==> reader.walked + count < reader.buckets && (ended || count
                == 0)
            &&& after.buckets == reader.buckets && after.batch == reader.batch && after.resume
        }),
{
}

/// The levels with the first `count` elements of a call written to the buckets their keys name.
/// A key outside the bank is skipped.
pub open spec fn levelled(
    levels: Seq<u64>,
    keys: Seq<u32>,
    values: Seq<u8>,
    count: int,
    order: ByteOrder,
) -> Seq<u64>
    decreases count,
{
    if count <= 0 {
        levels
    } else {
        let before = levelled(levels, keys, values, count - 1, order);
        let index = keys[count - 1] as int;
        if index < before.len() {
            before.update(index, level_at(values, count - 1, order))
        } else {
            before
        }
    }
}

impl BankReader {
    /// A reader for a bank, which asks for at most `batch` slots in one call, and for at least
    /// one.
    pub fn new(buckets: u32, batch: u32) -> (reader: Self)
        ensures
            reader@.valid(),
            reader@.batch == clamped_batch(buckets, batch),
            reader@ == (BankView {
                buckets,
                batch: if batch < 1 || buckets < 1 {
                    1
                } else if batch > buckets {
                    buckets
                } else {
                    batch
                },
                pending: super::batch::zeros(buckets as nat),
                levels: super::batch::zeros(buckets as nat),
                walked: 0,
                resume: false,
            }),
    {
        let batch: u32 = if batch < 1 || buckets < 1 {
            1
        } else if batch > buckets {
            buckets
        } else {
            batch
        };
        BankReader {
            buckets,
            batch,
            pending: zero_sums(buckets),
            levels: zero_sums(buckets),
            walked: 0,
            resume: false,
        }
    }

    /// Bytes of the value buffer one call needs.
    pub fn buffer_bytes(&self) -> (bytes: u64)
        ensures
            bytes == self@.batch * 64,
    {
        let slot: u64 = BANK_SLOT_BYTES as u64;
        assert(slot == 64);
        self.batch as u64 * slot
    }

    /// How many slots one call asks for at most.
    pub fn batch(&self) -> (batch: u32)
        ensures
            batch == self@.batch,
    {
        self.batch
    }

    /// The levels the last completed pass left, without walking again.
    pub fn last(&self) -> (levels: &[u64])
        ensures
            levels@ == self@.levels,
    {
        &self.levels
    }

    /// Begins a pass over the whole bank. An empty bank is read at once.
    pub fn begin(&mut self) -> (step: ReadStep)
        requires
            old(self)@.valid(),
        ensures
            final(self)@.valid(),
            ({
                let begun = BankView {
                    pending: super::batch::zeros(old(self)@.buckets as nat),
                    walked: 0,
                    resume: false,
                    ..old(self)@
                };
                if old(self)@.buckets > 0 {
                    step == ReadStep::Lookup && final(self)@ == begun
                } else {
                    step == ReadStep::Finished && final(self)@ == begun.published()
                }
            }),
    {
        let mut bucket: usize = 0;
        let ghost before = self@;
        while bucket < self.pending.len()
            invariant
                bucket <= self.pending@.len(),
                self.pending@.len() == before.buckets,
                self@ == (BankView { pending: self@.pending, ..before }),
                forall|j: int| 0 <= j < bucket ==> self.pending@[j] == 0,
            decreases self.pending@.len() - bucket,
        {
            self.pending[bucket] = 0;
            bucket += 1;
        }
        assert(self.pending@ =~= super::batch::zeros(before.buckets as nat));
        self.walked = 0;
        self.resume = false;
        if self.buckets > 0 {
            ReadStep::Lookup
        } else {
            self.publish();
            ReadStep::Finished
        }
    }

    /// What the next call of a pass asks for.
    pub fn request(&self) -> (request: BatchRequest)
        requires
            self@.valid(),
            self@.reading(),
        ensures
            request.resume == self@.resume,
            request.count == self@.asks(),
            request.count == least(self@.batch as int, self@.buckets - self@.walked),
            1 <= request.count <= self@.batch,
    {
        let remaining: u32 = self.buckets - self.walked;
        BatchRequest {
            resume: self.resume,
            count: if self.batch < remaining {
                self.batch
            } else {
                remaining
            },
        }
    }

    /// Takes what one call returned, and whether the kernel said that the walk is over.
    ///
    /// The pass is published once every bucket was walked. One that ends short, or returns
    /// nothing without ending, is incomplete: the previous pass stands.
    pub fn take(
        &mut self,
        keys: &[u32],
        values: &[u8],
        count: u32,
        ended: bool,
        order: ByteOrder,
    ) -> (step: ReadStep)
        requires
            old(self)@.valid(),
            old(self)@.reading(),
            old(self)@.walked + count <= u32::MAX,
        ensures
            final(self)@.valid(),
            (step, final(self)@) == call_taken(old(self)@, keys@, values@, count, ended, order),
            ({
                let took = old(self)@.took(keys@, values@, count, order);
                if took.walked >= took.buckets {
                    step == ReadStep::Finished && final(self)@ == took.published()
                } else if ended || count == 0 {
                    step == ReadStep::Stuck && final(self)@ == took
                } else {
                    step == ReadStep::Lookup && final(self)@ == took && final(self)@.reading()
                }
            }),
    {
        let ghost before = self@;
        let ghost due = usable(keys@, values@, count);
        let keys_len: usize = keys.len();
        let values_len: usize = values.len();
        let mut i: usize = 0;
        let mut going: bool = true;
        while going
            invariant
                keys_len == keys@.len(),
                values_len == values@.len(),
                due == usable(keys@, values@, count),
                0 <= i,
                i <= due || due < 0,
                going || i >= due,
                self@ == (BankView {
                    pending: levelled(before.pending, keys@, values@, i as int, order),
                    ..before
                }),
                self@.pending.len() == before.pending.len(),
                before.pending.len() == before.buckets,
            decreases (if going {
                due - i + 1
            } else {
                0
            }),
        {
            if i >= count as usize || i >= keys_len || values_len < 8 || i > (values_len - 8) / 64 {
                going = false;
            } else {
                let at: usize = i * 64 + LEVEL_AT;
                let level: u64 = read_number(values, at, 8, order);
                proof {
                    crate::bytes::lemma_little_endian_fits(values@.subrange(at as int, at + 8));
                    crate::bytes::lemma_big_endian_fits(values@.subrange(at as int, at + 8));
                }
                let index: usize = keys[i] as usize;
                if index < self.pending.len() {
                    self.pending[index] = level;
                }
                i += 1;
            }
        }
        assert(i == due);
        self.walked = self.walked + count;
        self.resume = true;
        assert(self@ == before.took(keys@, values@, count, order));
        if self.walked >= self.buckets {
            self.publish();
            ReadStep::Finished
        } else if ended || count == 0 {
            ReadStep::Stuck
        } else {
            ReadStep::Lookup
        }
    }

    fn publish(&mut self)
        requires
            old(self)@.valid(),
        ensures
            final(self)@ == old(self)@.published(),
            final(self)@.valid(),
    {
        std::mem::swap(&mut self.pending, &mut self.levels);
    }
}

/// The levels of a bank: the first eight bytes of each of its slots.
pub open spec fn bank_levels(bank: Seq<u8>, buckets: int, order: ByteOrder) -> Seq<u64> {
    Seq::new(buckets as nat, |i: int| level_at(bank, i, order))
}

/// Whether a reader has the levels of the buckets it has walked.
pub open spec fn caught_up(reader: BankView, bank: Seq<u8>, order: ByteOrder) -> bool {
    &&& reader.valid()
    &&& reader.walked <= reader.buckets
    &&& forall|i: int| 0 <= i < reader.walked ==> reader.pending[i] == level_at(bank, i, order)
}

proof fn lemma_levelled(
    levels: Seq<u64>,
    keys: Seq<u32>,
    values: Seq<u8>,
    count: int,
    from: int,
    bank: Seq<u8>,
    order: ByteOrder,
)
    requires
        0 <= count <= keys.len(),
        0 <= from,
        from + count <= levels.len(),
        forall|i: int| 0 <= i < count ==> #[trigger] keys[i] == from + i,
        forall|i: int|
            0 <= i < count ==> #[trigger] level_at(values, i, order) == level_at(
                bank,
                from + i,
                order,
            ),
        forall|i: int| 0 <= i < from ==> levels[i] == level_at(bank, i, order),
    ensures
        levelled(levels, keys, values, count, order).len() == levels.len(),
        forall|i: int|
            0 <= i < from + count ==> levelled(levels, keys, values, count, order)[i] == level_at(
                bank,
                i,
                order,
            ),
    decreases count,
{
    if count > 0 {
        lemma_levelled(levels, keys, values, count - 1, from, bank, order);
        assert(keys[count - 1] == from + count - 1);
        assert(level_at(values, count - 1, order) == level_at(bank, from + count - 1, order));
    }
}

/// A reader whose calls return the slots of the bank in index order catches up with them, whatever
/// the size of each batch; once it has walked them all, what it publishes is the level of every
/// bucket.
pub proof fn a_whole_pass_reads_every_level(
    reader: BankView,
    bank: Seq<u8>,
    keys: Seq<u32>,
    values: Seq<u8>,
    count: u32,
    order: ByteOrder,
)
    requires
        caught_up(reader, bank, order),
        reader.walked + count <= reader.buckets,
        count <= keys.len(),
        64 * count <= values.len(),
        forall|i: int| 0 <= i < count ==> #[trigger] keys[i] == reader.walked + i,
        forall|i: int|
            0 <= i < count ==> #[trigger] level_at(values, i, order) == level_at(
                bank,
                reader.walked + i,
                order,
            ),
    ensures
        ({
            let took = reader.took(keys, values, count, order);
            &&& caught_up(took, bank, order)
            &&& took.walked == took.buckets ==> took.published().levels == bank_levels(
                bank,
                reader.buckets as int,
                order,
            )
        }),
{
    lemma_levelled(
        reader.pending,
        keys,
        values,
        count as int,
        reader.walked,
        bank,
        order,
    );
    let took = reader.took(keys, values, count, order);
    assert(usable(keys, values, count) == count);
    if took.walked == took.buckets {
        assert(took.pending =~= bank_levels(bank, reader.buckets as int, order));
    }
}

/// How many elements of a call count: as many as it says it returned, as far as there is a key and
/// the eight bytes of a level at the start of a slot of sixty-four.
pub proof fn an_element_counts_where_its_key_and_level_are_there(
    keys: Seq<u32>,
    values: Seq<u8>,
    count: u32,
    i: int,
)
    requires
        0 <= i,
    ensures
        i < usable(keys, values, count) <==> i < count && i < keys.len() && 64 * i + 8
            <= values.len(),
{
}

/// What a bucket is left at: the level of the last element whose key names it, and what it was
/// where none does. A level is the first eight bytes of its slot.
pub proof fn a_bucket_is_left_at_its_last_level(
    levels: Seq<u64>,
    keys: Seq<u32>,
    values: Seq<u8>,
    count: int,
    order: ByteOrder,
    bucket: int,
    i: int,
)
    requires
        0 <= count <= keys.len(),
        64 * count <= values.len() + 56,
        0 <= bucket < levels.len(),
    ensures
        levelled(levels, keys, values, count, order).len() == levels.len(),
        0 <= i < count && keys[i] == bucket && (forall|j: int|
            i < j < count ==> #[trigger] keys[j] != bucket) ==> levelled(
            levels,
            keys,
            values,
            count,
            order,
        )[bucket] == crate::bytes::number(values.subrange(64 * i, 64 * i + 8), order),
        (forall|j: int| 0 <= j < count ==> #[trigger] keys[j] != bucket) ==> levelled(
            levels,
            keys,
            values,
            count,
            order,
        )[bucket] == levels[bucket],
    decreases count,
{
    if count > 0 {
        a_bucket_is_left_at_its_last_level(levels, keys, values, count - 1, order, bucket, i);
        let last = values.subrange(64 * (count - 1), 64 * (count - 1) + 8);
        crate::bytes::lemma_little_endian_fits(last);
        crate::bytes::lemma_big_endian_fits(last);
    }
}

} // verus!
