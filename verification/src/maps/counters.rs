//! The counters, read either way: as memory where the kernel allows it, by a batch walk where it
//! does not.

use vstd::prelude::*;
use vstd::string::*;

use super::batch::StripedU64Reader;
use super::mmap::Mapped;
use crate::text::push_decimal;
use crate::wire::{CounterLayout, MAX_CPUS};

verus! {

/// The name the object gives the counter array.
pub const COUNTERS: &'static str = "COUNTERS";

/// What an operator is told of a machine that has no counter layout.
pub open spec fn no_layout(slots: u32, cpus: u32) -> Seq<char> {
    "no counter layout for "@ + crate::text::decimal(slots as nat) + " slots on "@
        + crate::text::decimal(cpus as nat) + " possible processors: the ceiling is "@
        + crate::text::decimal(MAX_CPUS as nat)
        + " processors, and past it the map is a size no profile budgeted for"@
}

/// A processor count in 32 bits, held at the largest.
pub open spec fn counted_cpus(cpus: usize) -> u32 {
    if cpus > u32::MAX {
        u32::MAX
    } else {
        cpus as u32
    }
}

/// The counter layout for a machine and a slot count.
///
/// The processor count is the possible one and not the online one, because a stripe that does
/// not exist is a counter written past the end of the map.
pub fn counter_layout(slots: u32, cpus: usize) -> (layout: Result<CounterLayout, String>)
    ensures
        layout is Ok <==> 1 <= cpus <= MAX_CPUS && crate::wire::counters::rounded(slots) * cpus
            <= u32::MAX,
        layout matches Ok(l) ==> l.valid() && l.slots == slots && l.cpus == cpus,
        layout matches Err(text) ==> text@ == no_layout(slots, counted_cpus(cpus)),
{
    let cpus: u32 = if cpus > u32::MAX as usize {
        u32::MAX
    } else {
        cpus as u32
    };
    match CounterLayout::new(slots, cpus) {
        Some(layout) => Ok(layout),
        None => {
            let mut text: String = "no counter layout for ".to_owned();
            push_decimal(&mut text, slots as u64);
            text.append(" slots on ");
            push_decimal(&mut text, cpus as u64);
            text.append(" possible processors: the ceiling is ");
            push_decimal(&mut text, MAX_CPUS as u64);
            text.append(" processors, and past it the map is a size no profile budgeted for");
            Err(text)
        },
    }
}

/// The sum of a run of words, which wraps as the counters do.
pub open spec fn wrapping_total(values: Seq<u64>) -> u64
    decreases values.len(),
{
    if values.len() == 0 {
        0
    } else {
        wrapping_total(values.drop_last()).wrapping_add(values.last())
    }
}

/// Where one slot sits in the stripe of each processor, in processor order.
pub fn slot_indices(layout: CounterLayout, slot: u32) -> (indices: Vec<u32>)
    requires
        layout.valid(),
        crate::wire::counters::flat_index(layout, layout.cpus - 1, slot as int) <= u32::MAX,
    ensures
        indices@.len() == layout.cpus,
        forall|cpu: int|
            0 <= cpu < layout.cpus ==> #[trigger] indices@[cpu]
                == crate::wire::counters::flat_index(layout, cpu, slot as int),
{
    let mut indices: Vec<u32> = Vec::new();
    let mut cpu: u32 = 0;
    while cpu < layout.cpus
        invariant
            layout.valid(),
            crate::wire::counters::flat_index(layout, layout.cpus - 1, slot as int) <= u32::MAX,
            cpu <= layout.cpus,
            indices@.len() == cpu,
            forall|c: int|
                0 <= c < cpu ==> #[trigger] indices@[c] == crate::wire::counters::flat_index(
                    layout,
                    c,
                    slot as int,
                ),
        decreases layout.cpus - cpu,
    {
        assert(cpu * layout.stripe <= (layout.cpus - 1) * layout.stripe) by (nonlinear_arith)
            requires
                cpu <= layout.cpus - 1,
                layout.stripe >= 0,
        ;
        indices.push(layout.index(cpu, slot));
        cpu += 1;
    }
    indices
}

/// One slot, summed over what every processor's stripe holds for it.
pub fn counter_at(values: &[u64]) -> (total: u64)
    ensures
        total == wrapping_total(values@),
{
    let mut total: u64 = 0;
    let mut i: usize = 0;
    assert(values@.take(0).len() == 0);
    while i < values.len()
        invariant
            i <= values@.len(),
            total == wrapping_total(values@.take(i as int)),
        decreases values@.len() - i,
    {
        proof {
            let longer = values@.take(i + 1);
            assert(longer.drop_last() =~= values@.take(i as int));
            assert(longer.last() == values@[i as int]);
        }
        total = total.wrapping_add(values[i]);
        i += 1;
    }
    assert(values@.take(i as int) =~= values@);
    total
}

/// One slot read one element at a time is the sum both readers give for it.
pub proof fn one_slot_is_its_sum(layout: CounterLayout, words: Seq<u64>, slot: int, cpus: int)
    requires
        layout.valid(),
        0 <= slot < layout.stripe,
        0 <= cpus <= layout.cpus,
        words.len() >= super::batch::entries_of(layout),
    ensures
        wrapping_total(
            Seq::new(
                cpus as nat,
                |cpu: int| words[crate::wire::counters::flat_index(layout, cpu, slot)],
            ),
        ) == super::batch::stripe_sum(words, layout.stripe as int, slot, cpus),
    decreases cpus,
{
    let all = Seq::new(
        cpus as nat,
        |cpu: int| words[crate::wire::counters::flat_index(layout, cpu, slot)],
    );
    if cpus > 0 {
        one_slot_is_its_sum(layout, words, slot, cpus - 1);
        assert(all.drop_last() =~= Seq::new(
            (cpus - 1) as nat,
            |cpu: int| words[crate::wire::counters::flat_index(layout, cpu, slot)],
        ));
    }
}

/// What a read of the counters is handed next.
#[derive(Clone, Copy)]
pub enum Answer<'a> {
    /// Nothing yet: a read begins.
    Begin,
    /// The words of the mapped array.
    Words(&'a [u64]),
    /// What one batch lookup returned.
    Batch { keys: &'a [u32], values: &'a [u64], count: u32, ended: bool },
}

/// A reader over the counter map: the mapped one where the kernel allows it, the batch walk where
/// it does not. Both hand back one sum per slot, in slot order.
pub enum Counters {
    /// No syscall: the array's own pages.
    Mapped(Mapped),
    /// One walk per pass.
    Batched {
        reader: StripedU64Reader,
        /// Why the mapping was refused, when one was attempted.
        unmapped: Option<String>,
    },
}

impl Counters {
    /// The mapped reader, or the batch walk where the mapping was refused.
    pub fn open(mapped: Result<Mapped, String>, layout: CounterLayout, batch: u32) -> (counters: Self)
        requires
            super::batch::entries_of(layout) <= u32::MAX,
        ensures
            match mapped {
                Ok(m) => counters == Counters::Mapped(m),
                Err(why) => counters matches Counters::Batched { reader, unmapped } && reader@.valid()
                    && reader@ == super::batch::fresh_reader(layout, batch) && unmapped == Some(why),
            },
    {
        match mapped {
            Ok(mapped) => Counters::Mapped(mapped),
            Err(why) => Counters::Batched {
                reader: StripedU64Reader::new(layout, batch),
                unmapped: Some(why),
            },
        }
    }

    /// The batch walk, unconditionally.
    pub fn batched(layout: CounterLayout, batch: u32) -> (counters: Self)
        requires
            super::batch::entries_of(layout) <= u32::MAX,
        ensures
            counters matches Counters::Batched { reader, unmapped } && reader@.valid()
                && reader@ == super::batch::fresh_reader(layout, batch) && unmapped is None,
    {
        Counters::Batched { reader: StripedU64Reader::new(layout, batch), unmapped: None }
    }

    /// Why this reader is not the mapped one, when a mapping was attempted and refused.
    pub fn unmapped(&self) -> (why: Option<&String>)
        ensures
            match self {
                Counters::Mapped(_) => why is None,
                Counters::Batched { unmapped, .. } => match (unmapped, why) {
                    (Some(refused), Some(told)) => refused == told,
                    (None, None) => true,
                    _ => false,
                },
            },
    {
        match self {
            Self::Mapped(_) => None,
            Self::Batched { unmapped, .. } => match unmapped {
                Some(why) => Some(why),
                None => None,
            },
        }
    }

    /// Spreads a pass over `stride` reads. The mapped read has no cost per element to spread, so
    /// it is left as it is.
    pub fn with_stride(self, stride: u32) -> (counters: Self)
        ensures
            match self {
                Counters::Mapped(m) => counters == Counters::Mapped(m),
                Counters::Batched { reader, unmapped } => counters matches Counters::Batched {
                    reader: spread,
                    unmapped: why,
                } && why == unmapped && spread@ == (super::batch::ReaderView {
                    stride: if stride == 0 {
                        1
                    } else {
                        stride
                    },
                    ..reader@
                }) && (reader@.valid() ==> spread@.valid()),
            },
    {
        match self {
            Self::Mapped(mapped) => Self::Mapped(mapped),
            Self::Batched { reader, unmapped } => Self::Batched {
                reader: reader.with_stride(stride),
                unmapped,
            },
        }
    }

    /// The sums of the last completed pass.
    pub open spec fn sums(self) -> Seq<u64> {
        match self {
            Counters::Mapped(m) => m@.sums,
            Counters::Batched { reader, .. } => reader@.sums,
        }
    }

    /// The sums of the last completed pass, without reading again.
    pub fn last(&self) -> (sums: &[u64])
        ensures
            sums@ == self.sums(),
    {
        match self {
            Self::Mapped(mapped) => mapped.last(),
            Self::Batched { reader, .. } => reader.last(),
        }
    }

    /// Whether an answer is one this reader can be handed: words where it is mapped, and
    /// otherwise the beginning of a read or the answer of a lookup that was due.
    pub open spec fn awaits(self, answer: Answer<'_>) -> bool {
        match (self, answer) {
            (Counters::Mapped(m), Answer::Words(_)) => m@.valid(),
            (Counters::Batched { reader, .. }, Answer::Begin) => reader@.valid(),
            (
                Counters::Batched { reader, .. },
                Answer::Batch { keys, values, .. },
            ) => reader@.valid() && reader@.reading() && keys@.len() == values@.len(),
            _ => false,
        }
    }

    /// One step of a read. The mapped array is read in one; a batch walk goes on until it says
    /// that it is finished, and only a completed pass changes the sums.
    pub fn read(&mut self, answer: Answer<'_>) -> (step: super::batch::ReadStep)
        requires
            old(self).awaits(answer),
        ensures
            match (*old(self), answer) {
                (Counters::Mapped(m), Answer::Words(words)) => {
                    &&& *final(self) matches Counters::Mapped(after) && after@.valid() && after@ == (
                    super::mmap::MappedView {
                        sums: super::mmap::mapped_sums(words@, m@.layout),
                        ..m@
                    })
                    &&& step == super::batch::ReadStep::Finished
                },
                (Counters::Batched { reader, unmapped }, Answer::Begin) => {
                    &&& *final(self) matches Counters::Batched { reader: after, unmapped: why }
                        && why == unmapped && after@.valid() && after@ == (if step
                        == super::batch::ReadStep::Lookup {
                        reader@.begun()
                    } else {
                        reader@.begun().published()
                    }) && (step == super::batch::ReadStep::Lookup ==> after@.reading())
                    &&& step == (if reader@.begun().end > reader@.begun().start {
                        super::batch::ReadStep::Lookup
                    } else {
                        super::batch::ReadStep::Finished
                    })
                },
                (
                    Counters::Batched { reader, unmapped },
                    Answer::Batch { keys, values, count, ended },
                ) => *final(self) matches Counters::Batched { reader: after, unmapped: why } && why
                    == unmapped && after@.valid() && super::batch::lookup_taken(
                    reader@,
                    keys@,
                    values@,
                    count,
                    ended,
                    step,
                    after@,
                ) && (step == super::batch::ReadStep::Lookup ==> after@.reading()),
                _ => false,
            },
    {
        match (self, answer) {
            (Self::Mapped(mapped), Answer::Words(words)) => {
                mapped.read(words);
                super::batch::ReadStep::Finished
            },
            (Self::Batched { reader, .. }, Answer::Begin) => reader.begin(),
            (
                Self::Batched { reader, .. },
                Answer::Batch { keys, values, count, ended },
            ) => reader.take(keys, values, count, ended),
            _ => super::batch::ReadStep::Stuck,
        }
    }

    /// Reads one pass is spread over. One on the mapped path, always.
    pub fn stride(&self) -> (stride: u32)
        ensures
            stride == (match self {
                Counters::Mapped(_) => 1,
                Counters::Batched { reader, .. } => reader@.stride,
            }),
    {
        match self {
            Self::Mapped(_) => 1,
            Self::Batched { reader, .. } => reader.stride(),
        }
    }

    /// Elements the last read asked the kernel for. Zero on the mapped path, because it asks the
    /// kernel for nothing.
    pub fn walked(&self) -> (walked: u64)
        ensures
            walked == (match self {
                Counters::Mapped(_) => 0,
                Counters::Batched { reader, .. } => reader@.walked,
            }),
    {
        match self {
            Self::Mapped(_) => 0,
            Self::Batched { reader, .. } => reader.walked(),
        }
    }

    /// Whether this is the mapped reader.
    pub fn is_mapped(&self) -> (mapped: bool)
        ensures
            mapped == (self is Mapped),
    {
        match self {
            Self::Mapped(_) => true,
            Self::Batched { .. } => false,
        }
    }

    /// The layout of the map.
    pub fn layout(&self) -> (layout: CounterLayout)
        ensures
            layout == (match self {
                Counters::Mapped(m) => m@.layout,
                Counters::Batched { reader, .. } => reader@.layout,
            }),
    {
        match self {
            Self::Mapped(mapped) => mapped.layout(),
            Self::Batched { reader, .. } => reader.layout(),
        }
    }
}

} // verus!
