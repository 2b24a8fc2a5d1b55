//! The batch walk over a map: what each call asks for, and what is made of its answer.

use vstd::prelude::*;
use vstd::string::*;

use crate::text::push_decimal;
use crate::wire::CounterLayout;

verus! {

/// What one batch lookup asks the kernel for.
#[derive(Clone, Copy, PartialEq, Eq, Debug, Structural)]
pub struct BatchRequest {
    /// Whether the walk goes on behind the key the kernel wrote back at the end of the last
    /// call; otherwise it starts at the beginning of the map.
    pub resume: bool,
    /// How many elements are asked for. Never how many are returned.
    pub count: u32,
}

/// Where a read stands.
#[derive(Clone, Copy, PartialEq, Eq, Debug, Structural)]
pub enum ReadStep {
    /// Another call is due.
    Lookup,
    /// The read is over.
    Finished,
    /// The kernel returned nothing and did not say that the walk was over.
    Stuck,
}

/// What a run of elements adds to the sums: each value to the slot its key reduces to. A key
/// whose slot no sum stands for is padding nobody counts. Sums wrap, as the counters do.
pub open spec fn accumulated(
    sums: Seq<u64>,
    keys: Seq<u32>,
    values: Seq<u64>,
    stripe: int,
) -> Seq<u64>
    decreases keys.len(),
{
    if keys.len() == 0 {
        sums
    } else {
        let before = accumulated(sums, keys.drop_last(), values, stripe);
        let slot = keys.last() as int % stripe;
        if slot < before.len() {
            before.update(
                slot,
                before[slot].wrapping_add(values[keys.len() - 1]),
            )
        } else {
            before
        }
    }
}

/// A run of zeros.
pub open spec fn zeros(len: nat) -> Seq<u64> {
    Seq::new(len, |i: int| 0u64)
}

/// A reusable reader over the striped counter array.
///
/// It hands back one sum per slot, in slot order, whatever the batch size and whatever the
/// number of processors. A pass over the map can be spread over several reads; it is published
/// whole, so a caller sees the last completed pass and never a part of one.
pub struct StripedU64Reader {
    layout: CounterLayout,
    batch: u32,
    /// Reads one pass over the map is spread across. One reads all of it.
    stride: u32,
    /// The flat index the pass in progress has reached.
    next: u64,
    /// The elements the read in progress claims: from here
    start: u64,
    /// to here.
    end: u64,
    /// Sums the pass in progress has accumulated.
    pending: Vec<u64>,
    /// The last completed pass, which is what a caller reads.
    sums: Vec<u64>,
    /// Elements the last read asked the kernel for.
    walked: u64,
}

/// What a reader holds.
pub struct ReaderView {
    pub layout: CounterLayout,
    pub batch: u32,
    pub stride: u32,
    pub next: int,
    pub start: int,
    pub end: int,
    pub pending: Seq<u64>,
    pub sums: Seq<u64>,
    pub walked: int,
}

impl View for StripedU64Reader {
    type V = ReaderView;

    closed spec fn view(&self) -> ReaderView {
        ReaderView {
            layout: self.layout,
            batch: self.batch,
            stride: self.stride,
            next: self.next as int,
            start: self.start as int,
            end: self.end as int,
            pending: self.pending@,
            sums: self.sums@,
            walked: self.walked as int,
        }
    }
}

/// The elements of the map a layout describes.
pub open spec fn entries_of(layout: CounterLayout) -> int {
    layout.stripe * layout.cpus
}

/// The elements one read claims: the map over the stride, rounded up.
pub open spec fn window_of(layout: CounterLayout, stride: u32) -> int {
    (entries_of(layout) + stride - 1) / (stride as int)
}

impl ReaderView {
    /// The invariant of a reader.
    pub open spec fn valid(self) -> bool {
        &&& entries_of(self.layout) <= u32::MAX
        &&& self.batch >= 1
        &&& self.stride >= 1
        &&& 0 <= self.start <= self.end <= entries_of(self.layout)
        &&& self.pending.len() == self.layout.slots
        &&& self.sums.len() == self.layout.slots
        &&& 0 <= self.next
        &&& 0 <= self.walked
    }

    /// Whether a read is in progress that another call is due for.
    pub open spec fn reading(self) -> bool {
        self.walked < self.end - self.start && self.next == self.start + self.walked
    }

    /// The reader after a pass has ended: what it accumulated is what callers read, and the next
    /// pass starts from the beginning with nothing carried over.
    pub open spec fn published(self) -> ReaderView {
        ReaderView {
            sums: self.pending,
            pending: zeros(self.pending.len()),
            next: 0,
            ..self
        }
    }

    /// The reader once a read has begun.
    pub open spec fn begun(self) -> ReaderView {
        let entries = entries_of(self.layout);
        let start = if self.next < entries {
            self.next
        } else {
            entries
        };
        let window = window_of(self.layout, self.stride);
        ReaderView {
            start,
            end: if start + window < entries {
                start + window
            } else {
                entries
            },
            walked: 0,
            ..self
        }
    }

    /// What the next call of a read asks for: whether it goes on, and for how many elements.
    pub open spec fn asks(self) -> (bool, int) {
        (self.next != 0, least(self.batch as int, self.end - self.start - self.walked))
    }

    /// The reader once the elements of one call have been taken.
    pub open spec fn took(self, keys: Seq<u32>, values: Seq<u64>) -> ReaderView {
        ReaderView {
            pending: accumulated(self.pending, keys, values, self.layout.stripe as int),
            walked: self.walked + keys.len(),
            next: self.start + self.walked + keys.len(),
            ..self
        }
    }
}

/// What the answer of one lookup makes of a reader: its first `count` elements are taken, as far
/// as the buffers go. The pass is over, and published, where the kernel said that the walk is or
/// where it has reached the end of the map; the read is over where it has what it claimed.
pub open spec fn lookup_taken(
    reader: ReaderView,
    keys: Seq<u32>,
    values: Seq<u64>,
    count: u32,
    ended: bool,
    step: ReadStep,
    after: ReaderView,
) -> bool {
    let n = least(count as int, keys.len() as int);
    let took = reader.took(keys.take(n), values);
    &&& step == (if ended {
        ReadStep::Finished
    } else if n == 0 {
        ReadStep::Stuck
    } else if took.walked < took.end - took.start {
        ReadStep::Lookup
    } else {
        ReadStep::Finished
    })
    &&& after == (if step == ReadStep::Finished && (ended || took.next >= entries_of(
        reader.layout,
    )) {
        took.published()
    } else {
        took
    })
}

/// A reader that has read nothing. A batch of zero would ask for nothing forever, and one larger
/// than the map only wastes the buffer.
pub open spec fn fresh_reader(layout: CounterLayout, batch: u32) -> ReaderView {
    ReaderView {
        layout,
        batch: if batch < 1 || entries_of(layout) < 1 {
            1
        } else if batch > entries_of(layout) {
            entries_of(layout) as u32
        } else {
            batch
        },
        stride: 1,
        next: 0,
        start: 0,
        end: 0,
        pending: zeros(layout.slots as nat),
        sums: zeros(layout.slots as nat),
        walked: 0,
    }
}

impl StripedU64Reader {
    /// A reader for a layout, which asks for at most `batch` elements in one call.
    pub fn new(layout: CounterLayout, batch: u32) -> (reader: Self)
        requires
            entries_of(layout) <= u32::MAX,
        ensures
            reader@ == fresh_reader(layout, batch),
            reader@.valid(),
    {
        let entries: u32 = layout.entries();
        assert(entries >= 0);
        let batch: u32 = if batch < 1 || entries < 1 {
            1
        } else if batch > entries {
            entries
        } else {
            batch
        };
        let pending: Vec<u64> = zero_sums(layout.slots);
        let sums: Vec<u64> = zero_sums(layout.slots);
        StripedU64Reader {
            layout,
            batch,
            stride: 1,
            next: 0,
            start: 0,
            end: 0,
            pending,
            sums,
            walked: 0,
        }
    }

    /// How many elements one call asks for.
    pub fn batch(&self) -> (batch: u32)
        ensures
            batch == self@.batch,
    {
        self.batch
    }

    /// Spreads one pass over the map across `stride` reads instead of one. A stride of zero is
    /// read as one.
    ///
    /// The worst read of a pass is divided by `stride`. What widens is freshness: the sums are
    /// refreshed once per pass. These slots only ever grow, so the totals of the previous pass
    /// are a lower bound on the truth.
    pub fn with_stride(self, stride: u32) -> (reader: Self)
        ensures
            reader@ == (ReaderView {
                stride: if stride == 0 {
                    1
                } else {
                    stride
                },
                ..self@
            }),
            self@.valid() ==> reader@.valid(),
    {
        let mut reader: Self = self;
        reader.stride = if stride == 0 {
            1
        } else {
            stride
        };
        reader
    }

    /// The divisor that [`Self::with_stride`] set.
    pub fn stride(&self) -> (stride: u32)
        ensures
            stride == self@.stride,
    {
        self.stride
    }

    /// How many elements the last read actually walked.
    pub fn walked(&self) -> (walked: u64)
        ensures
            walked == self@.walked,
    {
        self.walked
    }

    /// The layout of the map.
    pub fn layout(&self) -> (layout: CounterLayout)
        ensures
            layout == self@.layout,
    {
        self.layout
    }

    /// The sums the last completed pass left. A pass in progress is not visible here.
    pub fn last(&self) -> (sums: &[u64])
        ensures
            sums@ == self@.sums,
    {
        &self.sums
    }

    /// Begins a read, and claims the elements it is due: the map over the stride, rounded up, so
    /// that a stride that does not divide the map still finishes a pass in `stride` reads.
    pub fn begin(&mut self) -> (step: ReadStep)
        requires
            old(self)@.valid(),
        ensures
            final(self)@.valid(),
            step == (if old(self)@.begun().end > old(self)@.begun().start {
                ReadStep::Lookup
            } else {
                ReadStep::Finished
            }),
            final(self)@ == (if step == ReadStep::Lookup {
                old(self)@.begun()
            } else {
                old(self)@.begun().published()
            }),
            step == ReadStep::Lookup ==> final(self)@.reading(),
    {
        let entries: u64 = self.layout.entries() as u64;
        let stride: u64 = self.stride as u64;
        let window: u64 = (entries + stride - 1) / stride;
        let ghost before = self@;
        assert(0 <= window <= entries) by (nonlinear_arith)
            requires
                window == (entries + stride - 1) / (stride as int),
                stride >= 1,
                entries >= 0,
        ;
        let start: u64 = if self.next < entries {
            self.next
        } else {
            entries
        };
        self.start = start;
        self.end = if start + window < entries {
            start + window
        } else {
            entries
        };
        self.walked = 0;
        assert(self@ == before.begun());
        if self.end > self.start {
            return ReadStep::Lookup;
        }
        proof {
            assert(entries > 0 ==> window > 0) by (nonlinear_arith)
                requires
                    window == (entries + stride - 1) / (stride as int),
                    stride >= 1,
            ;
        }
        self.publish();
        ReadStep::Finished
    }

    /// What the next call of a read asks for: never more than a batch, and never more than is
    /// left to read.
    pub fn request(&self) -> (request: BatchRequest)
        requires
            self@.valid(),
            self@.reading(),
        ensures
            (request.resume, request.count as int) == self@.asks(),
            request.resume == (self@.next != 0),
            request.count == (if self@.batch < self@.end - self@.start - self@.walked {
                self@.batch as int
            } else {
                self@.end - self@.start - self@.walked
            }),
            1 <= request.count <= self@.batch,
    {
        let remaining: u64 = self.end - self.start - self.walked;
        let count: u64 = if (self.batch as u64) < remaining {
            self.batch as u64
        } else {
            remaining
        };
        BatchRequest { resume: self.next != 0, count: count as u32 }
    }

    /// Takes what one call returned: the first `count` of the keys and values, as far as the
    /// buffers go, and whether the kernel said that the walk is over.
    ///
    /// A walk that ends early is a map smaller than the layout, and ends the pass. One that
    /// returns nothing without ending is stuck. The pass is published once it has reached the
    /// end of the map.
    pub fn take(&mut self, keys: &[u32], values: &[u64], count: u32, ended: bool) -> (step: ReadStep)
        requires
            old(self)@.valid(),
            old(self)@.reading(),
            keys@.len() == values@.len(),
        ensures
            lookup_taken(old(self)@, keys@, values@, count, ended, step, final(self)@),
            final(self)@.valid(),
            step == ReadStep::Lookup ==> final(self)@.reading(),
    {
        let n: usize = if (count as usize) < keys.len() {
            count as usize
        } else {
            keys.len()
        };
        let ghost before = self@;
        let ghost taken = keys@.take(n as int);
        let stripe: u32 = self.layout.stripe;
        let entries: u64 = self.layout.entries() as u64;
        assert(stripe > 0) by (nonlinear_arith)
            requires
                stripe * self.layout.cpus > 0,
                stripe >= 0,
        ;
        let mut i: usize = 0;
        assert(keys@.take(0).len() == 0);
        while i < n
            invariant
                i <= n <= keys@.len(),
                keys@.len() == values@.len(),
                taken == keys@.take(n as int),
                stripe > 0,
                stripe == before.layout.stripe,
                before.pending.len() == before.layout.slots,
                self@ == (ReaderView {
                    pending: accumulated(
                        before.pending,
                        keys@.take(i as int),
                        values@,
                        stripe as int,
                    ),
                    ..before
                }),
                self@.pending.len() == before.pending.len(),
            decreases n - i,
        {
            proof {
                let next = keys@.take(i + 1);
                assert(next.drop_last() =~= keys@.take(i as int));
                assert(next.last() == keys@[i as int]);
            }
            let slot: usize = (keys[i] % stripe) as usize;
            if slot < self.pending.len() {
                let sum: u64 = self.pending[slot].wrapping_add(values[i]);
                self.pending[slot] = sum;
            }
            i += 1;
        }
        self.walked = self.walked + n as u64;
        self.next = self.start + self.walked;
        assert(self@ == before.took(taken, values@));
        if ended {
            self.publish();
            return ReadStep::Finished;
        }
        if n == 0 {
            return ReadStep::Stuck;
        }
        if self.walked < self.end - self.start {
            return ReadStep::Lookup;
        }
        if self.next >= entries {
            self.publish();
        }
        ReadStep::Finished
    }

    /// Ends a pass: what it accumulated becomes what callers read, and the next pass starts from
    /// the beginning with nothing carried over.
    fn publish(&mut self)
        requires
            old(self)@.valid(),
        ensures
            final(self)@ == old(self)@.published(),
            final(self)@.valid(),
    {
        let mut slot: usize = 0;
        let ghost before = self@;
        while slot < self.pending.len()
            invariant
                slot <= self.pending@.len(),
                self.pending@.len() == before.pending.len(),
                self.sums@.len() == before.pending.len(),
                self@ == (ReaderView { pending: self@.pending, sums: self@.sums, ..before }),
                forall|j: int| 0 <= j < slot ==> self.sums@[j] == before.pending[j],
                forall|j: int| 0 <= j < slot ==> self.pending@[j] == 0,
                forall|j: int|
                    slot <= j < before.pending.len() ==> self.pending@[j] == before.pending[j],
            decreases self.pending@.len() - slot,
        {
            self.sums[slot] = self.pending[slot];
            self.pending[slot] = 0;
            slot += 1;
        }
        self.next = 0;
        assert(self.sums@ =~= before.pending);
        assert(self.pending@ =~= zeros(before.pending.len()));
    }
}

/// Room for one sum per slot.
pub(crate) fn zero_sums(slots: u32) -> (sums: Vec<u64>)
    ensures
        sums@ == zeros(slots as nat),
{
    let mut sums: Vec<u64> = Vec::new();
    let mut i: u32 = 0;
    while i < slots
        invariant
            i <= slots,
            sums@ == zeros(i as nat),
        decreases slots - i,
    {
        sums.push(0);
        assert(sums@ =~= zeros((i + 1) as nat));
        i += 1;
    }
    sums
}

/// The indices of a map, in the order a walk returns them.
pub open spec fn in_order(from: int, to: int) -> Seq<u32> {
    Seq::new((to - from) as nat, |i: int| (from + i) as u32)
}

/// One slot summed over the stripes of the first `cpus` processors. Sums wrap, as the counters
/// do.
pub open spec fn stripe_sum(words: Seq<u64>, stripe: int, slot: int, cpus: int) -> u64
    decreases cpus,
{
    if cpus <= 0 {
        0
    } else {
        stripe_sum(words, stripe, slot, cpus - 1).wrapping_add(words[(cpus - 1) * stripe + slot])
    }
}

/// One sum per slot, over every processor of a layout.
pub open spec fn slot_sums(words: Seq<u64>, layout: CounterLayout) -> Seq<u64> {
    Seq::new(
        layout.slots as nat,
        |slot: int| stripe_sum(words, layout.stripe as int, slot, layout.cpus as int),
    )
}

proof fn lemma_accumulated_len(sums: Seq<u64>, keys: Seq<u32>, values: Seq<u64>, stripe: int)
    requires
        keys.len() > 0 ==> stripe > 0,
    ensures
        accumulated(sums, keys, values, stripe).len() == sums.len(),
    decreases keys.len(),
{
    if keys.len() > 0 {
        lemma_accumulated_len(sums, keys.drop_last(), values, stripe);
    }
}

/// Elements taken in two runs add up as in one: the batch size does not matter.
pub proof fn batches_add_up(
    sums: Seq<u64>,
    first: Seq<u32>,
    first_values: Seq<u64>,
    second: Seq<u32>,
    second_values: Seq<u64>,
    stripe: int,
)
    requires
        first.len() == first_values.len(),
        second.len() <= second_values.len(),
    ensures
        accumulated(
            accumulated(sums, first, first_values, stripe),
            second,
            second_values,
            stripe,
        ) == accumulated(sums, first + second, first_values + second_values, stripe),
    decreases second.len(),
{
    let values = first_values + second_values;
    if second.len() == 0 {
        assert(first + second =~= first);
        lemma_accumulated_values(sums, first, first_values, values, stripe);
    } else {
        assert((first + second).drop_last() =~= first + second.drop_last());
        assert((first + second).last() == second.last());
        batches_add_up(sums, first, first_values, second.drop_last(), second_values, stripe);
    }
}

proof fn lemma_accumulated_values(
    sums: Seq<u64>,
    keys: Seq<u32>,
    a: Seq<u64>,
    b: Seq<u64>,
    stripe: int,
)
    requires
        keys.len() <= a.len(),
        keys.len() <= b.len(),
        forall|i: int| 0 <= i < keys.len() ==> a[i] == b[i],
    ensures
        accumulated(sums, keys, a, stripe) == accumulated(sums, keys, b, stripe),
    decreases keys.len(),
{
    if keys.len() > 0 {
        lemma_accumulated_values(sums, keys.drop_last(), a, b, stripe);
    }
}

/// How many stripes a walk that has reached `reached` elements has passed the slot in.
spec fn stripes_passed(reached: int, stripe: int, slot: int) -> int {
    reached / stripe + (if slot < reached % stripe {
        1int
    } else {
        0
    })
}

proof fn lemma_walk(layout: CounterLayout, words: Seq<u64>, reached: int, slot: int)
    requires
        layout.valid(),
        0 <= slot < layout.slots,
        0 <= reached <= entries_of(layout) <= words.len(),
    ensures
        accumulated(
            zeros(layout.slots as nat),
            in_order(0, reached),
            words,
            layout.stripe as int,
        )[slot] == stripe_sum(
            words,
            layout.stripe as int,
            slot,
            stripes_passed(reached, layout.stripe as int, slot),
        ),
    decreases reached,
{
    let stripe = layout.stripe as int;
    let empty = zeros(layout.slots as nat);
    let keys = in_order(0, reached);
    if reached == 0 {
        assert(0int / stripe == 0 && 0int % stripe == 0) by (nonlinear_arith)
            requires
                stripe > 0,
        ;
    } else {
        let m = reached - 1;
        lemma_walk(layout, words, m, slot);
        assert(keys.drop_last() =~= in_order(0, m));
        assert(keys.last() == m);
        lemma_accumulated_len(empty, in_order(0, m), words, stripe);
        let q = m / stripe;
        let r = m % stripe;
        vstd::arithmetic::div_mod::lemma_fundamental_div_mod(m, stripe);
        assert(m == q * stripe + r) by (nonlinear_arith)
            requires
                m == stripe * q + r,
        ;
        assert(0 <= r < stripe) by (nonlinear_arith)
            requires
                r == m % stripe,
                stripe > 0,
        ;
        assert(q >= 0) by (nonlinear_arith)
            requires
                q == m / stripe,
                m >= 0,
                stripe > 0,
        ;
        if r + 1 < stripe {
            vstd::arithmetic::div_mod::lemma_fundamental_div_mod_converse(
                reached,
                stripe,
                q,
                r + 1,
            );
        } else {
            assert(reached == (q + 1) * stripe + 0) by (nonlinear_arith)
                requires
                    reached == q * stripe + r + 1,
                    r + 1 == stripe,
            ;
            vstd::arithmetic::div_mod::lemma_fundamental_div_mod_converse(
                reached,
                stripe,
                q + 1,
                0,
            );
        }
        assert(stripes_passed(reached, stripe, slot) == stripes_passed(m, stripe, slot) + (if slot
            == r {
            1int
        } else {
            0
        }));
        if slot == r {
            assert(stripes_passed(m, stripe, slot) == q);
        }
    }
}

/// A walk of the whole map in index order sums every slot over every processor, and leaves the
/// padding at the top of a stripe out.
pub proof fn a_whole_walk_sums_every_stripe(layout: CounterLayout, words: Seq<u64>)
    requires
        layout.valid(),
        entries_of(layout) <= words.len(),
    ensures
        accumulated(
            zeros(layout.slots as nat),
            in_order(0, entries_of(layout)),
            words,
            layout.stripe as int,
        ) == slot_sums(words, layout),
{
    let stripe = layout.stripe as int;
    let cpus = layout.cpus as int;
    let entries = entries_of(layout);
    let empty = zeros(layout.slots as nat);
    let left = accumulated(empty, in_order(0, entries), words, stripe);
    assert(entries > 0 ==> stripe > 0) by (nonlinear_arith)
        requires
            entries == stripe * cpus,
            stripe >= 0,
    ;
    lemma_accumulated_len(empty, in_order(0, entries), words, stripe);
    assert forall|slot: int| 0 <= slot < layout.slots implies left[slot] == stripe_sum(
        words,
        stripe,
        slot,
        cpus,
    ) by {
        assert(entries >= 0) by (nonlinear_arith)
            requires
                entries == stripe * cpus,
                stripe >= 0,
                cpus >= 0,
        ;
        lemma_walk(layout, words, entries, slot);
        assert(entries == cpus * stripe + 0) by (nonlinear_arith)
            requires
                entries == stripe * cpus,
        ;
        vstd::arithmetic::div_mod::lemma_fundamental_div_mod_converse(entries, stripe, cpus, 0);
    }
    assert(left =~= slot_sums(words, layout));
}

impl ReaderView {
    /// Whether a reader has accumulated exactly what the walk sampled of the map so far.
    pub open spec fn on_course(self, words: Seq<u64>) -> bool {
        &&& self.valid()
        &&& self.layout.valid()
        &&& self.next <= entries_of(self.layout) <= words.len()
        &&& self.pending == accumulated(
            zeros(self.layout.slots as nat),
            in_order(0, self.next),
            words,
            self.layout.stripe as int,
        )
    }
}

/// A reader whose calls return the elements of the map in index order stays on course, whatever
/// the size of each batch and however the pass is spread over reads.
pub proof fn a_reader_stays_on_course(
    reader: ReaderView,
    words: Seq<u64>,
    keys: Seq<u32>,
    values: Seq<u64>,
)
    requires
        reader.on_course(words),
        reader.reading(),
        reader.next + keys.len() <= entries_of(reader.layout),
        keys == in_order(reader.next, reader.next + keys.len()),
        keys.len() <= values.len(),
        forall|i: int| 0 <= i < keys.len() ==> #[trigger] values[i] == words[reader.next + i],
    ensures
        reader.took(keys, values).on_course(words),
{
    let empty = zeros(reader.layout.slots as nat);
    let stripe = reader.layout.stripe as int;
    let before = in_order(0, reader.next);
    let to = reader.next + keys.len();
    let head = words.take(reader.next);
    lemma_accumulated_values(empty, before, words, head, stripe);
    batches_add_up(empty, before, head, keys, values, stripe);
    assert(before + keys =~= in_order(0, to));
    lemma_accumulated_values(empty, in_order(0, to), head + values, words, stripe);
    assert(stripe > 0) by (nonlinear_arith)
        requires
            stripe * reader.layout.cpus > 0,
            stripe >= 0,
    ;
    lemma_accumulated_len(reader.pending, keys, values, stripe);
}

/// A reader that has reached the end of the map publishes the sum of every slot over every
/// processor, and is back on course for the next pass.
pub proof fn a_completed_pass_is_published_whole(
    reader: ReaderView,
    words: Seq<u64>,
    later: Seq<u64>,
)
    requires
        reader.on_course(words),
        reader.next == entries_of(reader.layout),
        entries_of(reader.layout) <= later.len(),
    ensures
        reader.published().sums == slot_sums(words, reader.layout),
        reader.published().on_course(later),
{
    a_whole_walk_sums_every_stripe(reader.layout, words);
    assert(in_order(0, 0) =~= Seq::<u32>::empty());
    let none = accumulated(
        zeros(reader.layout.slots as nat),
        in_order(0, 0),
        later,
        reader.layout.stripe as int,
    );
    assert(none == zeros(reader.layout.slots as nat));
}

/// A pass in progress is not visible: until it is over, callers read what the last one left.
pub proof fn a_pass_in_progress_is_not_visible(
    reader: ReaderView,
    keys: Seq<u32>,
    values: Seq<u64>,
    count: u32,
    ended: bool,
    step: ReadStep,
    after: ReaderView,
)
    requires
        lookup_taken(reader, keys, values, count, ended, step, after),
        step != ReadStep::Finished || (!ended && reader.next + keys.len() < entries_of(
            reader.layout,
        )),
        reader.reading(),
    ensures
        after.sums == reader.sums,
{
}

/// One slot summed over the stripes of the first `cpus` processors, without wrapping.
pub open spec fn exact_sum(words: Seq<u64>, stripe: int, slot: int, cpus: int) -> int
    decreases cpus,
{
    if cpus <= 0 {
        0
    } else {
        exact_sum(words, stripe, slot, cpus - 1) + words[(cpus - 1) * stripe + slot]
    }
}

/// The counters only grow, so a sum read later is never smaller, as long as it fits its word: words
/// that are sampled while others are still counting give a lower bound and never a drop.
pub proof fn a_sum_of_growing_counters_never_falls(
    layout: CounterLayout,
    words: Seq<u64>,
    later: Seq<u64>,
    slot: int,
)
    requires
        layout.valid(),
        0 <= slot < layout.slots,
        entries_of(layout) <= words.len(),
        words.len() == later.len(),
        forall|i: int| 0 <= i < words.len() ==> #[trigger] words[i] <= later[i],
        exact_sum(later, layout.stripe as int, slot, layout.cpus as int) <= u64::MAX,
    ensures
        slot_sums(later, layout)[slot] == exact_sum(
            later,
            layout.stripe as int,
            slot,
            layout.cpus as int,
        ),
        slot_sums(words, layout)[slot] <= slot_sums(later, layout)[slot],
{
    lemma_growing_sum(layout, words, later, slot, layout.cpus as int);
}

proof fn lemma_growing_sum(
    layout: CounterLayout,
    words: Seq<u64>,
    later: Seq<u64>,
    slot: int,
    cpus: int,
)
    requires
        layout.valid(),
        0 <= slot < layout.slots,
        0 <= cpus <= layout.cpus,
        entries_of(layout) <= words.len(),
        words.len() == later.len(),
        forall|i: int| 0 <= i < words.len() ==> #[trigger] words[i] <= later[i],
        exact_sum(later, layout.stripe as int, slot, cpus) <= u64::MAX,
    ensures
        stripe_sum(later, layout.stripe as int, slot, cpus) == exact_sum(
            later,
            layout.stripe as int,
            slot,
            cpus,
        ),
        stripe_sum(words, layout.stripe as int, slot, cpus) <= stripe_sum(
            later,
            layout.stripe as int,
            slot,
            cpus,
        ),
    decreases cpus,
{
    if cpus > 0 {
        let stripe = layout.stripe as int;
        let at = (cpus - 1) * stripe + slot;
        assert(0 <= at < entries_of(layout)) by (nonlinear_arith)
            requires
                at == (cpus - 1) * stripe + slot,
                0 <= slot < stripe,
                0 < cpus <= layout.cpus,
                entries_of(layout) == stripe * layout.cpus,
        ;
        assert(words[at] <= later[at]);
        lemma_growing_sum(layout, words, later, slot, cpus - 1);
    }
}

/// A stride spreads a pass over that many reads and not one more: the reads claim the map in
/// order, and the last of them ends at its end.
pub proof fn a_stride_finishes_a_pass_in_that_many_reads(reader: ReaderView, done: int)
    requires
        reader.valid(),
        0 <= done < reader.stride,
        reader.next == least(
            done * window_of(reader.layout, reader.stride),
            entries_of(reader.layout),
        ),
    ensures
        reader.begun().start == reader.next,
        reader.begun().end == least(
            (done + 1) * window_of(reader.layout, reader.stride),
            entries_of(reader.layout),
        ),
        done + 1 == reader.stride ==> reader.begun().end == entries_of(reader.layout),
{
    let window = window_of(reader.layout, reader.stride);
    let stride = reader.stride as int;
    let entries = entries_of(reader.layout);
    assert(stride * window >= entries) by (nonlinear_arith)
        requires
            window == (entries + stride - 1) / stride,
            stride >= 1,
    ;
    assert((done + 1) * window == done * window + window) by (nonlinear_arith);
    assert(window >= 0) by (nonlinear_arith)
        requires
            window == (entries + stride - 1) / stride,
            stride >= 1,
            entries >= 0,
    ;
}

/// The smaller of two numbers.
pub open spec fn least(a: int, b: int) -> int {
    if a < b {
        a
    } else {
        b
    }
}

/// What there is to say of a machine that has more possible processors than can run code.
pub open spec fn phantoms(possible: usize, online: usize) -> Option<(usize, usize)> {
    if possible > online {
        Some((possible, online))
    } else {
        None
    }
}

/// There is something to say only where some possible processor is not online, and what is said is
/// both counts, the larger first.
pub proof fn phantoms_are_possible_and_not_online(possible: usize, online: usize)
    ensures
        phantoms(possible, online) is Some <==> possible - online >= 1,
        phantoms(possible, online) matches Some((all, running)) ==> all == possible && running
            == online && all > running,
{
}

/// Processors the kernel sizes the counter map for against processors that can run code, when the
/// first is larger. `None` when there is nothing to say.
pub fn phantom_cpus(possible: usize, online: usize) -> (phantom: Option<(usize, usize)>)
    ensures
        phantom == phantoms(possible, online),
        phantom == (if possible > online {
            Some((possible, online))
        } else {
            None
        }),
{
    if possible > online {
        Some((possible, online))
    } else {
        None
    }
}

/// What an update that took fewer entries than were asked is told as, or one that failed.
pub open spec fn short_update(taken: u32, asked: usize, error: Option<Seq<char>>) -> Seq<char> {
    let count = "BPF_MAP_UPDATE_BATCH took "@ + crate::text::decimal(taken as nat) + " of "@
        + crate::text::decimal(asked as nat) + " entries"@;
    match error {
        None => count + " and reported success"@,
        Some(text) => count + ": "@ + text,
    }
}

/// Whether an update wrote what it was asked to.
pub open spec fn all_written(failed: bool, taken: u32, asked: usize) -> bool {
    !failed && taken == asked
}

/// A partial write is an error, whether the kernel reported one or not, and so is a reported one,
/// however much was written.
pub proof fn a_partial_write_is_an_error(failed: bool, taken: u32, asked: usize)
    ensures
        taken < asked || taken > asked ==> !all_written(failed, taken, asked),
        failed ==> !all_written(failed, taken, asked),
        all_written(false, taken, taken as usize),
{
}

/// Whether an update wrote what it was asked to. A partial write is an error and the message
/// carries the count, because the operator's question after a failed reload is how much of the
/// list is loaded.
pub fn update_outcome(error: Option<&str>, taken: u32, asked: usize) -> (outcome: Result<(), String>)
    ensures
        outcome is Ok <==> all_written(error is Some, taken, asked),
        outcome is Ok <==> error is None && taken == asked,
        outcome matches Err(text) ==> text@ == short_update(
            taken,
            asked,
            match error {
                Some(why) => Some(why@),
                None => None,
            },
        ),
{
    if error.is_none() && taken as usize == asked {
        return Ok(());
    }
    let mut text: String = "BPF_MAP_UPDATE_BATCH took ".to_owned();
    push_decimal(&mut text, taken as u64);
    text.append(" of ");
    push_decimal(&mut text, asked as u64);
    text.append(" entries");
    match error {
        None => text.append(" and reported success"),
        Some(why) => {
            text.append(": ");
            text.append(why);
        },
    }
    Err(text)
}

/// The number of entries of an update, where the kernel can be told it.
pub fn update_count(asked: usize) -> (count: Option<u32>)
    ensures
        count is Some <==> asked <= u32::MAX,
        count matches Some(n) ==> n == asked,
{
    if asked <= u32::MAX as usize {
        Some(asked as u32)
    } else {
        None
    }
}

/// Only the elements that a call says it returned count: two answers that agree in them make the
/// same of a reader, whatever else is in the buffers.
pub proof fn only_what_was_returned_counts(
    reader: ReaderView,
    keys: Seq<u32>,
    other_keys: Seq<u32>,
    values: Seq<u64>,
    other_values: Seq<u64>,
    count: u32,
    ended: bool,
    step: ReadStep,
    after: ReaderView,
)
    requires
        count <= keys.len(),
        count <= other_keys.len(),
        keys.len() == values.len(),
        other_keys.len() == other_values.len(),
        keys.take(count as int) == other_keys.take(count as int),
        values.take(count as int) == other_values.take(count as int),
        lookup_taken(reader, keys, values, count, ended, step, after),
    ensures
        lookup_taken(reader, other_keys, other_values, count, ended, step, after),
{
    let n = count as int;
    assert(least(count as int, keys.len() as int) == n);
    assert(least(count as int, other_keys.len() as int) == n);
    assert forall|i: int| 0 <= i < n implies values[i] == other_values[i] by {
        assert(values.take(n)[i] == other_values.take(n)[i]);
    }
    lemma_accumulated_values(
        reader.pending,
        keys.take(n),
        values,
        other_values,
        reader.layout.stripe as int,
    );
}

/// How a read ends. The kernel's word that the walk is over ends the pass and publishes it, map
/// whole or not; a call that returned nothing without it is stuck; one that leaves some of what the
/// read claimed is followed by another; and the pass is published where it has reached the end of
/// the map.
pub proof fn how_a_read_ends(
    reader: ReaderView,
    keys: Seq<u32>,
    values: Seq<u64>,
    count: u32,
    ended: bool,
    step: ReadStep,
    after: ReaderView,
)
    requires
        count <= keys.len(),
        reader.reading(),
        lookup_taken(reader, keys, values, count, ended, step, after),
    ensures
        ({
            let gathered = accumulated(
                reader.pending,
                keys.take(count as int),
                values,
                reader.layout.stripe as int,
            );
            let reached = reader.next + count;
            &&& after.walked == reader.walked + count
            &&& ended ==> step == ReadStep::Finished && after.sums == gathered && after.next == 0
            &&& !ended && count == 0 <==> step == ReadStep::Stuck
            &&& !ended && count > 0 && reached < reader.end <==> step == ReadStep::Lookup
            &&& !ended && (step != ReadStep::Finished || reached < reader.layout.stripe
                * reader.layout.cpus) ==> after.sums == reader.sums && after.pending == gathered
                && after.next == reached
            &&& !ended && step == ReadStep::Finished && reached >= reader.layout.stripe
                * reader.layout.cpus ==> after.sums == gathered && after.next == 0
        }),
{
    assert(keys.take(count as int).len() == count);
}

/// A value goes to the slot its key leaves when whole stripes are taken off it, and to no other:
/// one more element adds its value there, and nothing where the slot is padding.
pub proof fn a_value_goes_to_the_slot_of_its_key(
    sums: Seq<u64>,
    keys: Seq<u32>,
    values: Seq<u64>,
    stripe: int,
    cpu: int,
    slot: int,
    other: int,
)
    requires
        stripe > 0,
        keys.len() > 0,
        0 <= cpu,
        0 <= slot < stripe,
        keys.last() == cpu * stripe + slot,
        0 <= other < sums.len(),
    ensures
        ({
            let before = accumulated(sums, keys.drop_last(), values, stripe);
            let after = accumulated(sums, keys, values, stripe);
            &&& other != slot ==> after[other] == before[other]
            &&& other == slot ==> after[other] == before[other].wrapping_add(
                values[keys.len() - 1],
            )
        }),
{
    vstd::arithmetic::div_mod::lemma_fundamental_div_mod_converse(
        keys.last() as int,
        stripe,
        cpu,
        slot,
    );
    lemma_accumulated_len(sums, keys.drop_last(), values, stripe);
}

/// A call asks for something, for no more than a batch, and for nothing past what the read claims;
/// it asks for a whole batch wherever so much is left. Only the first call of a pass starts at the
/// beginning of the map.
pub proof fn a_call_asks_for_what_is_left(reader: ReaderView)
    requires
        reader.valid(),
        reader.reading(),
    ensures
        1 <= reader.asks().1 <= reader.batch,
        reader.next + reader.asks().1 <= reader.end,
        reader.next + reader.batch <= reader.end ==> reader.asks().1 == reader.batch,
        reader.asks().1 < reader.batch ==> reader.next + reader.asks().1 == reader.end,
        reader.asks().0 <==> reader.next > 0,
{
}

/// A reader asks for the batch it was given, but for no more than the map has and for one at
/// least; it has read nothing, claims nothing and reads a pass at once.
pub proof fn a_fresh_reader_has_read_nothing(layout: CounterLayout, batch: u32, slot: int)
    requires
        layout.stripe * layout.cpus <= u32::MAX,
    ensures
        ({
            let reader = fresh_reader(layout, batch);
            let entries = layout.stripe * layout.cpus;
            &&& reader.valid()
            &&& 1 <= batch <= entries ==> reader.batch == batch
            &&& entries >= 1 && batch > entries ==> reader.batch == entries
            &&& batch == 0 || entries == 0 ==> reader.batch == 1
            &&& reader.stride == 1 && reader.next == 0 && reader.walked == 0
            &&& 0 <= slot < layout.slots ==> reader.sums[slot] == 0 && reader.pending[slot] == 0
            &&& reader.sums.len() == layout.slots
        }),
{
    assert(layout.stripe * layout.cpus >= 0) by (nonlinear_arith)
        requires
            layout.stripe >= 0,
            layout.cpus >= 0,
    ;
}

} // verus!
