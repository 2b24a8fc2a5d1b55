//! The counter map read as memory.
//!
//! There is no coherent snapshot: two slots are read at two instants. The counters only
//! increase, so a sum assembled over a few microseconds is a lower bound and never a drop.

use vstd::prelude::*;

use super::batch::zero_sums;
use crate::wire::CounterLayout;

verus! {

/// The page size where the machine does not say.
pub const DEFAULT_PAGE: usize = 4096;

/// The page size, from what the machine answers when asked: a failed question answers a number
/// that is not positive.
pub fn page_size(answer: i64) -> (page: usize)
    ensures
        page == (if 0 < answer <= usize::MAX {
            answer as int
        } else {
            DEFAULT_PAGE as int
        }),
        page > 0,
{
    if answer > 0 && answer as u64 <= usize::MAX as u64 {
        answer as usize
    } else {
        DEFAULT_PAGE
    }
}

/// The counter array as a reader of memory sees it: its layout, and the sums of the last read.
pub struct Mapped {
    mapped_bytes: usize,
    layout: CounterLayout,
    /// One sum per slot, so that a caller gets the same shape as from the batch reader.
    sums: Vec<u64>,
}

/// What a mapped reader holds.
pub struct MappedView {
    pub mapped_bytes: int,
    pub layout: CounterLayout,
    pub sums: Seq<u64>,
}

impl View for Mapped {
    type V = MappedView;

    closed spec fn view(&self) -> MappedView {
        MappedView {
            mapped_bytes: self.mapped_bytes as int,
            layout: self.layout,
            sums: self.sums@,
        }
    }
}

impl MappedView {
    /// The invariant of a mapped reader.
    pub open spec fn valid(self) -> bool {
        &&& super::batch::entries_of(self.layout) <= u32::MAX
        &&& self.sums.len() == self.layout.slots
    }
}

/// A length rounded up to whole pages, of which there is at least one.
pub open spec fn whole_pages(bytes: int, page: int) -> int {
    let wanted = if bytes < 1 {
        1
    } else {
        bytes
    };
    (wanted + page - 1) / page * page
}

/// How many processors, from `cpu` on, have their slots inside `words` words. The first stripe
/// that is not covered ends the count.
pub open spec fn covered(words: int, layout: CounterLayout, cpu: int) -> int
    decreases layout.cpus - cpu,
{
    if cpu >= layout.cpus || cpu * layout.stripe + layout.slots > words {
        cpu
    } else {
        covered(words, layout, cpu + 1)
    }
}

/// One sum per slot, over every processor whose stripe is there.
pub open spec fn mapped_sums(words: Seq<u64>, layout: CounterLayout) -> Seq<u64> {
    Seq::new(
        layout.slots as nat,
        |slot: int|
            super::batch::stripe_sum(
                words,
                layout.stripe as int,
                slot,
                covered(words.len() as int, layout, 0),
            ),
    )
}

impl Mapped {
    /// A reader for a layout, on a machine with pages of `page` bytes. `None` where the map is
    /// larger than the address space.
    pub fn new(layout: CounterLayout, page: usize) -> (mapped: Option<Self>)
        requires
            super::batch::entries_of(layout) <= u32::MAX,
            page > 0,
        ensures
            mapped is Some <==> whole_pages(super::batch::entries_of(layout) * 8, page as int)
                <= usize::MAX,
            mapped matches Some(m) ==> m@.valid() && m@ == (MappedView {
                mapped_bytes: whole_pages(super::batch::entries_of(layout) * 8, page as int),
                layout,
                sums: super::batch::zeros(layout.slots as nat),
            }),
    {
        let bytes: u64 = layout.bytes();
        let wanted: u128 = if bytes < 1 {
            1
        } else {
            bytes as u128
        };
        let page: u128 = page as u128;
        let pages: u128 = (wanted + page - 1) / page;
        assert(pages * page <= wanted + page - 1) by (nonlinear_arith)
            requires
                pages == (wanted + page - 1) / (page as int),
                page > 0,
        ;
        let length: u128 = pages * page;
        if length > usize::MAX as u128 {
            return None;
        }
        Some(Mapped { mapped_bytes: length as usize, layout, sums: zero_sums(layout.slots) })
    }

    /// The layout of the map.
    pub fn layout(&self) -> (layout: CounterLayout)
        ensures
            layout == self@.layout,
    {
        self.layout
    }

    /// Bytes the mapping covers, which is the useful length rounded up to a page.
    pub fn mapped_bytes(&self) -> (bytes: usize)
        ensures
            bytes == self@.mapped_bytes,
    {
        self.mapped_bytes
    }

    /// The sums the last read left, without reading again.
    pub fn last(&self) -> (sums: &[u64])
        ensures
            sums@ == self@.sums,
    {
        &self.sums
    }

    /// One sum per slot: every processor's stripe added up, slot by slot, from the words of the
    /// map. A stripe the words do not cover is a map smaller than the layout says, and ends the
    /// read.
    pub fn read(&mut self, words: &[u64])
        requires
            old(self)@.valid(),
        ensures
            final(self)@.valid(),
            final(self)@ == (MappedView {
                sums: mapped_sums(words@, old(self)@.layout),
                ..old(self)@
            }),
    {
        let ghost before = self@;
        let stripe: u32 = self.layout.stripe;
        let cpus: u32 = self.layout.cpus;
        let slots: u32 = self.layout.slots;
        let len: usize = words.len();
        let mut sums: Vec<u64> = zero_sums(slots);
        let mut cpu: u32 = 0;
        let mut going: bool = cpus > 0;
        while going
            invariant
                len == words@.len(),
                cpu <= cpus,
                going ==> cpu < cpus,
                self@ == before,
                before.valid(),
                stripe == before.layout.stripe,
                cpus == before.layout.cpus,
                slots == before.layout.slots,
                stripe * cpus <= u32::MAX,
                sums@.len() == slots,
                forall|s: int|
                    0 <= s < slots ==> #[trigger] sums@[s] == super::batch::stripe_sum(
                        words@,
                        stripe as int,
                        s,
                        cpu as int,
                    ),
                covered(len as int, before.layout, 0) == (if going {
                    covered(len as int, before.layout, cpu as int)
                } else {
                    cpu as int
                }),
            decreases (if going {
                cpus - cpu + 1
            } else {
                0
            }),
        {
            assert(cpu * stripe <= cpus * stripe) by (nonlinear_arith)
                requires
                    cpu <= cpus,
                    stripe >= 0,
            ;
            assert(cpus * stripe == stripe * cpus) by (nonlinear_arith);
            let offset: u64 = cpu as u64 * stripe as u64;
            if offset + slots as u64 > len as u64 {
                going = false;
            } else {
                let ghost at = sums@;
                let mut slot: usize = 0;
                while slot < slots as usize
                    invariant
                        slot <= slots,
                        len == words@.len(),
                        offset == cpu * stripe,
                        offset + slots <= len,
                        sums@.len() == slots,
                        at.len() == slots,
                        forall|s: int|
                            0 <= s < slot ==> #[trigger] sums@[s] == at[s].wrapping_add(
                                words@[offset + s],
                            ),
                        forall|s: int| slot <= s < slots ==> #[trigger] sums@[s] == at[s],
                    decreases slots - slot,
                {
                    let sum: u64 = sums[slot].wrapping_add(words[offset as usize + slot]);
                    sums[slot] = sum;
                    slot += 1;
                }
                assert(covered(len as int, before.layout, cpu as int) == covered(
                    len as int,
                    before.layout,
                    cpu + 1,
                ));
                cpu += 1;
                going = cpu < cpus;
                assert(!going ==> covered(len as int, before.layout, cpu as int) == cpu);
            }
        }
        assert(sums@ =~= mapped_sums(words@, before.layout));
        self.sums = sums;
    }
}

proof fn lemma_all_covered(words: int, layout: CounterLayout, cpu: int)
    requires
        layout.valid(),
        words >= super::batch::entries_of(layout),
        0 <= cpu <= layout.cpus,
    ensures
        covered(words, layout, cpu) == layout.cpus,
    decreases layout.cpus - cpu,
{
    if cpu < layout.cpus {
        assert(cpu * layout.stripe + layout.stripe <= layout.stripe * layout.cpus)
            by (nonlinear_arith)
            requires
                cpu + 1 <= layout.cpus,
                layout.stripe >= 0,
        ;
        lemma_all_covered(words, layout, cpu + 1);
    }
}

/// The two readers agree: reading the map as memory gives the sums that a whole batch walk over
/// the same words publishes.
pub proof fn both_readers_agree(layout: CounterLayout, words: Seq<u64>)
    requires
        layout.valid(),
        words.len() >= super::batch::entries_of(layout),
    ensures
        mapped_sums(words, layout) == super::batch::accumulated(
            super::batch::zeros(layout.slots as nat),
            super::batch::in_order(0, super::batch::entries_of(layout)),
            words,
            layout.stripe as int,
        ),
{
    lemma_all_covered(words.len() as int, layout, 0);
    super::batch::a_whole_walk_sums_every_stripe(layout, words);
    assert(mapped_sums(words, layout) =~= super::batch::slot_sums(words, layout));
}

/// A mapping is a whole number of pages, at least one, that holds the bytes and wastes less than
/// one.
pub proof fn a_mapping_is_whole_pages(bytes: int, page: int)
    requires
        0 <= bytes,
        0 < page,
    ensures
        whole_pages(bytes, page) % page == 0,
        whole_pages(bytes, page) >= page,
        bytes <= whole_pages(bytes, page),
        bytes >= 1 ==> whole_pages(bytes, page) < bytes + page,
        bytes == 0 ==> whole_pages(bytes, page) == page,
{
    let wanted = if bytes < 1 {
        1
    } else {
        bytes
    };
    let q = (wanted + page - 1) / page;
    vstd::arithmetic::div_mod::lemma_fundamental_div_mod(wanted + page - 1, page);
    vstd::arithmetic::div_mod::lemma_mod_multiples_basic(q, page);
    assert(wanted <= q * page < wanted + page && q >= 1) by (nonlinear_arith)
        requires
            wanted + page - 1 == page * q + (wanted + page - 1) % page,
            0 <= (wanted + page - 1) % page < page,
            wanted >= 1,
            page > 0,
    ;
    assert(q * page >= page) by (nonlinear_arith)
        requires
            q >= 1,
            page > 0,
    ;
    if bytes == 0 {
        assert(q == 1) by (nonlinear_arith)
            requires
                q * page < 1 + page,
                q >= 1,
                page > 0,
        ;
    }
}

/// The processors that are summed: every one up to the first whose slots are not all there, and
/// all of them where none is missing.
pub proof fn the_first_stripe_that_is_missing_ends_the_sum(words: int, layout: CounterLayout, cpu: int)
    requires
        0 <= cpu < layout.cpus,
    ensures
        0 <= covered(words, layout, 0) <= layout.cpus,
        cpu < covered(words, layout, 0) ==> cpu * layout.stripe + layout.slots <= words,
        cpu == covered(words, layout, 0) ==> cpu * layout.stripe + layout.slots > words,
{
    lemma_covered(words, layout, 0, cpu);
}

proof fn lemma_covered(words: int, layout: CounterLayout, from: int, cpu: int)
    requires
        0 <= from <= layout.cpus,
        from <= cpu < layout.cpus,
    ensures
        from <= covered(words, layout, from) <= layout.cpus,
        cpu < covered(words, layout, from) ==> cpu * layout.stripe + layout.slots <= words,
        cpu == covered(words, layout, from) ==> cpu * layout.stripe + layout.slots > words,
    decreases layout.cpus - from,
{
    reveal_with_fuel(covered, 2);
    if from * layout.stripe + layout.slots <= words {
        if from < cpu {
            lemma_covered(words, layout, from + 1, cpu);
        } else if from + 1 < layout.cpus {
            lemma_covered(words, layout, from + 1, from + 1);
        }
    }
}

/// A slot is the sum of what every processor counted in it, as long as it fits its word: an
/// element of its own for each, a stripe apart.
pub proof fn a_slot_is_what_every_processor_counted(words: Seq<u64>, layout: CounterLayout, slot: int)
    requires
        layout.valid(),
        0 <= slot < layout.slots,
        words.len() >= layout.stripe * layout.cpus,
        super::batch::exact_sum(words, layout.stripe as int, slot, layout.cpus as int) <= u64::MAX,
    ensures
        mapped_sums(words, layout).len() == layout.slots,
        mapped_sums(words, layout)[slot] == super::batch::exact_sum(
            words,
            layout.stripe as int,
            slot,
            layout.cpus as int,
        ),
{
    lemma_all_covered(words.len() as int, layout, 0);
    super::batch::a_sum_of_growing_counters_never_falls(layout, words, words, slot);
}

} // verus!
