//! Publishing the two flat blocklist tables into the kernel, in one write.
//!
//! Both tables live in one data section, which the kernel holds as one value. Where the linker
//! put them inside it is read off the object and never written down.

use vstd::prelude::*;
use vstd::string::*;

use super::elf::{parse_error, section_by_name, symbols, ElfSymbol};
use crate::blocklist::{
    OaSlot, CLASS24_BYTES, CLASS24_SYMBOL, OA_BYTES, OA_SLOTS, OA_TABLE_SYMBOL,
};
use crate::bytes::{write_u32, ByteOrder};
use crate::text::{push_decimal, str_eq};

verus! {

/// The name of the data section.
pub const SECTION: &'static str = ".bss";

/// Where the two tables sit inside the one section they share.
#[derive(Debug, Clone, Copy, PartialEq, Eq, Structural)]
pub struct Section {
    /// The whole section, which is the value size of the map holding it.
    pub bytes: usize,
    /// Where the class table starts.
    pub class24_at: usize,
    /// Where the open-addressed table starts.
    pub oa_at: usize,
}

/// Why the tables cannot be published into an object.
pub enum LayoutError {
    /// The object does not parse.
    NotAnElf(String),
    /// The object carries no data section.
    NoSection,
    /// The object carries no such symbol.
    NoSymbol(&'static str),
    /// One write of the section would run past the symbol.
    OutOfSection { symbol: &'static str, at: usize, len: usize, bytes: usize },
    /// The symbol is not in the section.
    Elsewhere(&'static str),
}

impl LayoutError {
    /// What an operator is told.
    pub open spec fn sentence(self) -> Seq<char> {
        match self {
            LayoutError::NotAnElf(error) => "the eBPF object does not parse as an ELF: "@ + error@,
            LayoutError::NoSection => "the object carries no .bss section, so the blocklist tables are not where the agent would publish them"@,
            LayoutError::NoSymbol(name) => "the object carries no "@ + name@ + " symbol"@,
            LayoutError::OutOfSection { symbol, at, len, bytes } => symbol@ + " is at "@
                + crate::text::decimal(at as nat) + " in a "@ + crate::text::decimal(bytes as nat)
                + "-byte .bss and needs "@ + crate::text::decimal(len as nat)
                + ", so one write of the section would run past it"@,
            LayoutError::Elsewhere(name) => name@
                + " is not in .bss, so one write of that section would not publish it and the program would keep reading whatever it was loaded with"@,
        }
    }

    /// What an operator is told.
    pub fn describe(&self) -> (text: String)
        ensures
            text@ == self.sentence(),
    {
        match self {
            LayoutError::NotAnElf(error) => {
                let mut text: String = "the eBPF object does not parse as an ELF: ".to_owned();
                text.append(error.as_str());
                text
            },
            LayoutError::NoSection => "the object carries no .bss section, so the blocklist tables are not where the agent would publish them".to_owned(),
            LayoutError::NoSymbol(name) => {
                let mut text: String = "the object carries no ".to_owned();
                text.append(name);
                text.append(" symbol");
                text
            },
            LayoutError::OutOfSection { symbol, at, len, bytes } => {
                let mut text: String = String::new();
                text.append(symbol);
                text.append(" is at ");
                push_decimal(&mut text, *at as u64);
                text.append(" in a ");
                push_decimal(&mut text, *bytes as u64);
                text.append("-byte .bss and needs ");
                push_decimal(&mut text, *len as u64);
                text.append(", so one write of the section would run past it");
                text
            },
            LayoutError::Elsewhere(name) => {
                let mut text: String = String::new();
                text.append(name);
                text.append(" is not in .bss, so one write of that section would not publish it and the program would keep reading whatever it was loaded with");
                text
            },
        }
    }
}

/// The first symbol of a name, from `from` on; the number of symbols where there is none.
pub open spec fn symbol_of(
    symbols: Seq<(Option<Seq<char>>, Option<usize>, u64)>,
    name: Seq<char>,
    from: int,
) -> int
    decreases symbols.len() - from,
{
    if from >= symbols.len() {
        symbols.len() as int
    } else if symbols[from].0 == Some(name) {
        from
    } else {
        symbol_of(symbols, name, from + 1)
    }
}

/// What is known of a table: that it is at an offset of the section, or why it is not.
pub enum Located {
    At(usize),
    NoSymbol,
    Elsewhere,
    OutOfSection(usize),
}

/// Where a table of `len` bytes is in a section of `bytes` bytes: at the address of the first
/// symbol of its name, which has to be in that section and leave room for the table.
pub open spec fn located(
    symbols: Seq<(Option<Seq<char>>, Option<usize>, u64)>,
    name: Seq<char>,
    len: usize,
    section: usize,
    bytes: usize,
) -> Located {
    let i = symbol_of(symbols, name, 0);
    if i >= symbols.len() {
        Located::NoSymbol
    } else if symbols[i].1 != Some(section) {
        Located::Elsewhere
    } else {
        let at = symbols[i].2 as usize;
        if at + len > bytes {
            Located::OutOfSection(at)
        } else {
            Located::At(at)
        }
    }
}

/// Whether an error is the one that a table which is not there is told as.
pub open spec fn is_told_as(
    found: Located,
    error: LayoutError,
    name: Seq<char>,
    table: usize,
    size: usize,
) -> bool {
    match error {
        LayoutError::NoSymbol(symbol) => found is NoSymbol && symbol@ == name,
        LayoutError::Elsewhere(symbol) => found is Elsewhere && symbol@ == name,
        LayoutError::OutOfSection { symbol, at, len, bytes } => found == Located::OutOfSection(at)
            && symbol@ == name && len == table && bytes == size,
        _ => false,
    }
}

fn locate(
    symbols: &[ElfSymbol],
    name: &'static str,
    len: usize,
    section: usize,
    bytes: usize,
) -> (at: Result<usize, LayoutError>)
    ensures
        ({
            let found = located(super::elf::symbol_views(symbols@), name@, len, section, bytes);
            match at {
                Ok(offset) => found == Located::At(offset) && offset + len <= bytes,
                Err(error) => is_told_as(found, error, name@, len, bytes) && !(found is At),
            }
        }),
{
    let ghost views = super::elf::symbol_views(symbols@);
    let mut i: usize = 0;
    while i < symbols.len() && !is_named(&symbols[i], name)
        invariant
            i <= symbols@.len(),
            views == super::elf::symbol_views(symbols@),
            symbol_of(views, name@, 0) == symbol_of(views, name@, i as int),
        decreases symbols@.len() - i,
    {
        assert(views[i as int] == symbols@[i as int]@);
        i += 1;
    }
    if i == symbols.len() {
        return Err(LayoutError::NoSymbol(name));
    }
    assert(views[i as int] == symbols@[i as int]@);
    let inside: bool = match symbols[i].section {
        Some(index) => index == section,
        None => false,
    };
    if !inside {
        return Err(LayoutError::Elsewhere(name));
    }
    let at: usize = symbols[i].address as usize;
    match at.checked_add(len) {
        Some(end) => if end > bytes {
            Err(LayoutError::OutOfSection { symbol: name, at, len, bytes })
        } else {
            Ok(at)
        },
        None => Err(LayoutError::OutOfSection { symbol: name, at, len, bytes }),
    }
}

fn is_named(symbol: &ElfSymbol, name: &str) -> (named: bool)
    ensures
        named == (symbol@.0 == Some(name@)),
{
    match &symbol.name {
        Some(own) => str_eq(own.as_str(), name),
        None => false,
    }
}

/// What the parts of an object give: the section both tables are in, or what is missing, the
/// section before the tables and the class table before the other.
pub open spec fn is_layout(
    layout: Result<Section, LayoutError>,
    section: Option<(usize, u64)>,
    symbols: Seq<(Option<Seq<char>>, Option<usize>, u64)>,
) -> bool {
    match section {
        None => layout matches Err(error) && error is NoSection,
        Some((index, size)) => {
            let bytes = size as usize;
            let class24 = located(symbols, CLASS24_SYMBOL@, CLASS24_BYTES, index, bytes);
            let oa = located(symbols, OA_TABLE_SYMBOL@, OA_BYTES, index, bytes);
            match layout {
                Ok(found) => {
                    &&& found.bytes == bytes
                    &&& class24 == Located::At(found.class24_at)
                    &&& oa == Located::At(found.oa_at)
                },
                Err(error) => if !(class24 is At) {
                    is_told_as(class24, error, CLASS24_SYMBOL@, CLASS24_BYTES, bytes)
                } else {
                    is_told_as(oa, error, OA_TABLE_SYMBOL@, OA_BYTES, bytes) && !(oa is At)
                },
            }
        },
    }
}

/// The slot a section holds at place `i` of the open-addressed table: the key and the tag, each
/// in the byte order of the machine.
pub open spec fn slot_at(image: Seq<u8>, table: int, i: int, order: ByteOrder) -> OaSlot {
    let at = table + 8 * i;
    OaSlot {
        key: crate::bytes::number(image.subrange(at, at + 4), order) as u32,
        tag: crate::bytes::number(image.subrange(at + 4, at + 8), order) as u32,
    }
}

impl Section {
    /// The invariant of a section: both tables end inside it.
    pub open spec fn valid(self) -> bool {
        &&& self.class24_at + CLASS24_BYTES <= self.bytes
        &&& self.oa_at + OA_BYTES <= self.bytes
    }

    /// The offsets, from what an object says of its data section and its symbols.
    pub fn from_parts(section: Option<(usize, u64)>, symbols: &[ElfSymbol]) -> (layout: Result<
        Self,
        LayoutError,
    >)
        ensures
            is_layout(layout, section, super::elf::symbol_views(symbols@)),
            layout matches Ok(found) ==> found.valid(),
    {
        let (index, size) = match section {
            Some(found) => found,
            None => return Err(LayoutError::NoSection),
        };
        let bytes: usize = size as usize;
        let class24_at: usize = match locate(symbols, CLASS24_SYMBOL, CLASS24_BYTES, index, bytes) {
            Ok(at) => at,
            Err(error) => return Err(error),
        };
        let oa_at: usize = match locate(symbols, OA_TABLE_SYMBOL, OA_BYTES, index, bytes) {
            Ok(at) => at,
            Err(error) => return Err(error),
        };
        Ok(Section { bytes, class24_at, oa_at })
    }

    /// The offsets, read off the object the agent is about to load. An object that does not parse
    /// is told with the text of the parser.
    pub fn of(object: &[u8]) -> (layout: Result<Self, LayoutError>)
        ensures
            match super::elf::object_error(object@) {
                Some(text) => layout matches Err(LayoutError::NotAnElf(told)) && told@ == text,
                None => is_layout(
                    layout,
                    super::elf::object_section(object@, SECTION@),
                    super::elf::object_symbols(object@),
                ),
            },
            layout matches Ok(found) ==> found.valid(),
    {
        if let Some(error) = parse_error(object) {
            return Err(LayoutError::NotAnElf(error));
        }
        let listed: Vec<ElfSymbol> = symbols(object);
        Self::from_parts(section_by_name(object, SECTION), &listed)
    }

    /// Whether bytes are the whole section with the two tables in their places: the class table
    /// byte for byte, the other slot by slot, and zeros around them. Where the two places
    /// overlap, the open-addressed table is what is there.
    pub open spec fn is_image(
        self,
        image: Seq<u8>,
        class24: Seq<u8>,
        oa: Seq<OaSlot>,
        order: ByteOrder,
    ) -> bool {
        &&& image.len() == self.bytes
        &&& forall|i: int|
            0 <= i < OA_SLOTS ==> #[trigger] slot_at(image, self.oa_at as int, i, order)
                == oa[i]
        &&& forall|i: int|
            0 <= i < self.bytes && !(self.oa_at <= i < self.oa_at + OA_BYTES)
                ==> #[trigger] image[i] == (if self.class24_at <= i < self.class24_at
                + CLASS24_BYTES {
                class24[i - self.class24_at]
            } else {
                0
            })
    }

    /// The whole section as one value, for a machine of this byte order.
    pub fn image_for(&self, class24: &[u8], oa: &[OaSlot], order: ByteOrder) -> (image: Vec<u8>)
        requires
            self.valid(),
            class24@.len() == CLASS24_BYTES,
            oa@.len() == OA_SLOTS,
        ensures
            self.is_image(image@, class24@, oa@, order),
    {
        let mut image: Vec<u8> = Vec::new();
        let mut i: usize = 0;
        while i < self.bytes
            invariant
                self.valid(),
                class24@.len() == CLASS24_BYTES,
                i <= self.bytes,
                image@.len() == i,
                forall|j: int|
                    0 <= j < i ==> #[trigger] image@[j] == (if self.class24_at <= j
                        < self.class24_at + CLASS24_BYTES {
                        class24@[j - self.class24_at]
                    } else {
                        0
                    }),
            decreases self.bytes - i,
        {
            if self.class24_at <= i && i - self.class24_at < CLASS24_BYTES {
                image.push(class24[i - self.class24_at]);
            } else {
                image.push(0);
            }
            i += 1;
        }
        let ghost base = image@;
        let mut slot: usize = 0;
        while slot < OA_SLOTS
            invariant
                self.valid(),
                oa@.len() == OA_SLOTS,
                slot <= OA_SLOTS,
                base.len() == self.bytes,
                image@.len() == self.bytes,
                forall|j: int|
                    0 <= j < slot ==> #[trigger] slot_at(image@, self.oa_at as int, j, order)
                        == oa@[j],
                forall|j: int|
                    0 <= j < self.bytes && !(self.oa_at <= j < self.oa_at + OA_BYTES)
                        ==> #[trigger] image@[j] == base[j],
            decreases OA_SLOTS - slot,
        {
            let ghost before = image@;
            let at: usize = self.oa_at + 8 * slot;
            write_u32(&mut image, at, oa[slot].key, order);
            let ghost middle = image@;
            write_u32(&mut image, at + 4, oa[slot].tag, order);
            proof {
                assert forall|j: int| 0 <= j < slot + 1 implies #[trigger] slot_at(
                    image@,
                    self.oa_at as int,
                    j,
                    order,
                ) == oa@[j] by {
                    let from = self.oa_at + 8 * j;
                    if j < slot {
                        assert(slot_at(before, self.oa_at as int, j, order) == oa@[j]);
                        assert(image@.subrange(from, from + 4) =~= before.subrange(from, from + 4));
                        assert(image@.subrange(from + 4, from + 8) =~= before.subrange(
                            from + 4,
                            from + 8,
                        ));
                    } else {
                        assert(image@.subrange(from, from + 4) =~= middle.subrange(from, from + 4));
                    }
                }
            }
            slot += 1;
        }
        image
    }

    /// The whole section as one value, which is what the map holds, in the byte order of this
    /// machine.
    pub fn image(&self, class24: &[u8], oa: &[OaSlot]) -> (image: Vec<u8>)
        requires
            self.valid(),
            class24@.len() == CLASS24_BYTES,
            oa@.len() == OA_SLOTS,
        ensures
            self.is_image(image@, class24@, oa@, ByteOrder::Little) || self.is_image(
                image@,
                class24@,
                oa@,
                ByteOrder::Big,
            ),
    {
        let order: ByteOrder = ByteOrder::host();
        self.image_for(class24, oa, order)
    }
}

/// A table is where the first symbol of its name is, where that is in the section and leaves room
/// for the whole table up to the last byte of it; and otherwise it is told which of these fails.
pub proof fn a_table_is_where_its_symbol_says(
    symbols: Seq<(Option<Seq<char>>, Option<usize>, u64)>,
    name: Seq<char>,
    len: usize,
    section: usize,
    bytes: usize,
    i: int,
)
    requires
        0 <= i < symbols.len(),
        symbols[i].0 == Some(name),
        forall|j: int| 0 <= j < i ==> (#[trigger] symbols[j]).0 != Some(name),
        symbols[i].2 <= usize::MAX,
    ensures
        ({
            let found = located(symbols, name, len, section, bytes);
            let at = symbols[i].2;
            &&& symbols[i].1 != Some(section) <==> found is Elsewhere
            &&& symbols[i].1 == Some(section) && at + len <= bytes <==> found == Located::At(
                at as usize,
            )
            &&& symbols[i].1 == Some(section) && at + len > bytes <==> found == Located::OutOfSection(
                at as usize,
            )
        }),
{
    lemma_symbol_of(symbols, name, 0, i);
}

proof fn lemma_symbol_of(
    symbols: Seq<(Option<Seq<char>>, Option<usize>, u64)>,
    name: Seq<char>,
    from: int,
    i: int,
)
    requires
        0 <= from <= i < symbols.len(),
        symbols[i].0 == Some(name),
        forall|j: int| from <= j < i ==> (#[trigger] symbols[j]).0 != Some(name),
    ensures
        symbol_of(symbols, name, from) == i,
    decreases i - from,
{
    if from < i {
        lemma_symbol_of(symbols, name, from + 1, i);
    }
}

/// A table whose name no symbol has is not there.
pub proof fn a_table_without_a_symbol_is_not_there(
    symbols: Seq<(Option<Seq<char>>, Option<usize>, u64)>,
    name: Seq<char>,
    len: usize,
    section: usize,
    bytes: usize,
    from: int,
)
    requires
        0 <= from <= symbols.len(),
        forall|j: int| from <= j < symbols.len() ==> (#[trigger] symbols[j]).0 != Some(name),
    ensures
        symbol_of(symbols, name, from) == symbols.len(),
        from == 0 ==> located(symbols, name, len, section, bytes) is NoSymbol,
    decreases symbols.len() - from,
{
    if from < symbols.len() {
        a_table_without_a_symbol_is_not_there(symbols, name, len, section, bytes, from + 1);
    }
}

/// A section that is found holds both tables, each at the address of its own symbol, and is as
/// large as the object says; and one is found wherever both are there.
pub proof fn a_section_is_found_where_both_tables_are(
    layout: Result<Section, LayoutError>,
    index: usize,
    size: usize,
    symbols: Seq<(Option<Seq<char>>, Option<usize>, u64)>,
    class24_at: usize,
    oa_at: usize,
)
    requires
        is_layout(layout, Some((index, size as u64)), symbols),
    ensures
        located(symbols, "CLASS24"@, 0x40_0000, index, size) == Located::At(class24_at) && located(
            symbols,
            OA_TABLE_SYMBOL@,
            OA_BYTES,
            index,
            size,
        ) == Located::At(oa_at) <==> layout == Ok::<Section, LayoutError>(
            Section { bytes: size, class24_at, oa_at },
        ),
{
    assert((size as u64) as usize == size);
}

/// Where the program finds the tables in a section: the code of a block in the two bits it has in
/// the class table, and slot `i` of the other in eight bytes, its key in the first four and its tag
/// in the last.
pub proof fn the_program_finds_the_tables_in_the_section(
    section: Section,
    image: Seq<u8>,
    class24: Seq<u8>,
    oa: Seq<OaSlot>,
    order: ByteOrder,
    addr: u32,
    i: int,
)
    requires
        section.valid(),
        section.is_image(image, class24, oa, order),
        0 <= i < OA_SLOTS,
    ensures
        crate::bytes::number(image.subrange(section.oa_at + 8 * i, section.oa_at + 8 * i + 4), order)
            == oa[i].key,
        crate::bytes::number(
            image.subrange(section.oa_at + 8 * i + 4, section.oa_at + 8 * i + 8),
            order,
        ) == oa[i].tag,
        section.class24_at + CLASS24_BYTES <= section.oa_at || section.oa_at + OA_BYTES
            <= section.class24_at ==> image[section.class24_at + addr / 1024] == class24[addr as int
            / 1024],
{
    assert(slot_at(image, section.oa_at as int, i, order) == oa[i]);
    let key = image.subrange(section.oa_at + 8 * i, section.oa_at + 8 * i + 4);
    let tag = image.subrange(section.oa_at + 8 * i + 4, section.oa_at + 8 * i + 8);
    crate::bytes::lemma_little_endian_fits(key);
    crate::bytes::lemma_big_endian_fits(key);
    crate::bytes::lemma_little_endian_fits(tag);
    crate::bytes::lemma_big_endian_fits(tag);
}

} // verus!
