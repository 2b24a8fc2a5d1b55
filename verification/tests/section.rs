//! Where the two blocklist tables sit in an object, and the section they are published as.

use lorica::blocklist::{
    class24_get, class24_set, oa_insert, Class24, OaSlot, CLASS24_BYTES, OA_BYTES, OA_SLOTS,
};
use lorica::maps::blocklist::{LayoutError, Section};
use lorica::maps::elf::ElfSymbol;
use lorica::{Action, ByteOrder};

const BYTES: u64 = (CLASS24_BYTES + OA_BYTES + 64) as u64;

fn symbol(name: &str, section: Option<usize>, address: u64) -> ElfSymbol {
    ElfSymbol { name: Some(name.to_string()), section, address }
}

fn both(class24_at: u64, oa_at: u64) -> Vec<ElfSymbol> {
    vec![
        ElfSymbol { name: None, section: None, address: 0 },
        symbol("OA_TABLE", Some(4), oa_at),
        symbol("CLASS24", Some(4), class24_at),
    ]
}

#[test]
fn both_tables_are_found_where_the_linker_put_them() {
    let found = Section::from_parts(Some((4, BYTES)), &both(64, 64 + CLASS24_BYTES as u64));
    assert!(matches!(found, Ok(section) if section == Section {
        bytes: BYTES as usize,
        class24_at: 64,
        oa_at: 64 + CLASS24_BYTES,
    }));
}

fn refused(section: Option<(usize, u64)>, symbols: &[ElfSymbol]) -> String {
    match Section::from_parts(section, symbols) {
        Ok(found) => panic!("{found:?}"),
        Err(error) => error.describe(),
    }
}

#[test]
fn a_table_that_cannot_be_published_is_told_why() {
    assert_eq!(
        refused(None, &both(0, CLASS24_BYTES as u64)),
        "the object carries no .bss section, so the blocklist tables are not where the agent \
         would publish them"
    );
    assert_eq!(
        refused(Some((4, BYTES)), &[symbol("OA_TABLE", Some(4), 0)]),
        "the object carries no CLASS24 symbol"
    );
    assert_eq!(
        refused(Some((4, BYTES)), &[symbol("CLASS24", Some(4), 0)]),
        "the object carries no OA_TABLE symbol"
    );
    assert_eq!(
        refused(Some((5, BYTES)), &both(0, CLASS24_BYTES as u64)),
        "CLASS24 is not in .bss, so one write of that section would not publish it and the \
         program would keep reading whatever it was loaded with"
    );
    assert_eq!(
        refused(Some((4, BYTES)), &both(0, BYTES)),
        "OA_TABLE is at 20971584 in a 20971584-byte .bss and needs 16777216, so one write of the \
         section would run past it"
    );
    assert!(matches!(
        Section::from_parts(Some((4, BYTES)), &both(u64::MAX, 0)),
        Err(LayoutError::OutOfSection { symbol: "CLASS24", at: usize::MAX, .. })
    ));
}

/// A relocatable object with one empty data section of `bytes` bytes and two symbols in it.
fn object(section: &str, bytes: u64, class24_at: u64, oa_at: u64) -> Vec<u8> {
    let mut names = vec![0u8];
    let mut name = |text: &str| -> u32 {
        let at = names.len() as u32;
        names.extend(text.as_bytes());
        names.push(0);
        at
    };
    let bss = name(section);
    let symtab = name(".symtab");
    let strtab = name(".strtab");
    let class24 = name("CLASS24");
    let oa = name("OA_TABLE");

    let mut symbols = vec![0u8; 24];
    for (named, at) in [(class24, class24_at), (oa, oa_at)] {
        symbols.extend(named.to_le_bytes());
        symbols.extend([0x11, 0]);
        symbols.extend(1u16.to_le_bytes());
        symbols.extend(at.to_le_bytes());
        symbols.extend(0u64.to_le_bytes());
    }

    let symbols_at = 64u64;
    let names_at = symbols_at + symbols.len() as u64;
    let headers_at = names_at + names.len() as u64;
    let mut file = vec![0x7f, b'E', b'L', b'F', 2, 1, 1, 0, 0, 0, 0, 0, 0, 0, 0, 0];
    file.extend(1u16.to_le_bytes());
    file.extend(247u16.to_le_bytes());
    file.extend(1u32.to_le_bytes());
    file.extend([0u8; 16]);
    file.extend(headers_at.to_le_bytes());
    file.extend(0u32.to_le_bytes());
    for half in [64u16, 0, 0, 64, 4, 3] {
        file.extend(half.to_le_bytes());
    }
    file.extend(&symbols);
    file.extend(&names);
    // Name, kind, offset, size, link, info and entry size of each section.
    for (named, kind, at, size, link, info, entry) in [
        (0u32, 0u32, 0u64, 0u64, 0u32, 0u32, 0u64),
        (bss, 8, 64, bytes, 0, 0, 0),
        (symtab, 2, symbols_at, symbols.len() as u64, 3, 1, 24),
        (strtab, 3, names_at, names.len() as u64, 0, 0, 0),
    ] {
        file.extend(named.to_le_bytes());
        file.extend(kind.to_le_bytes());
        file.extend(0u64.to_le_bytes());
        file.extend(0u64.to_le_bytes());
        file.extend(at.to_le_bytes());
        file.extend(size.to_le_bytes());
        file.extend(link.to_le_bytes());
        file.extend(info.to_le_bytes());
        file.extend(1u64.to_le_bytes());
        file.extend(entry.to_le_bytes());
    }
    file
}

#[test]
fn the_offsets_are_read_off_an_object() {
    let file = object(".bss", BYTES, 32, 64 + CLASS24_BYTES as u64);
    match Section::of(&file) {
        Ok(found) => assert_eq!(
            found,
            Section { bytes: BYTES as usize, class24_at: 32, oa_at: 64 + CLASS24_BYTES }
        ),
        Err(error) => panic!("{}", error.describe()),
    }
}

#[test]
fn an_object_without_the_section_is_refused() {
    let file = object(".data", BYTES, 0, CLASS24_BYTES as u64);
    assert!(matches!(Section::of(&file), Err(LayoutError::NoSection)));
    let file = object(".bss", 64, 0, 0);
    assert!(matches!(
        Section::of(&file),
        Err(LayoutError::OutOfSection { symbol: "CLASS24", at: 0, bytes: 64, .. })
    ));
}

#[test]
fn what_is_no_object_is_refused_with_the_text_of_the_parser() {
    match Section::of(b"not an object") {
        Err(LayoutError::NotAnElf(text)) => {
            assert!(!text.is_empty());
            assert_eq!(
                LayoutError::NotAnElf(text.clone()).describe(),
                format!("the eBPF object does not parse as an ELF: {text}")
            );
        }
        _ => panic!("an object was read out of nothing"),
    }
}

#[test]
fn an_image_holds_both_tables_in_their_places() {
    let section = Section {
        bytes: BYTES as usize,
        class24_at: 32,
        oa_at: 64 + CLASS24_BYTES,
    };
    let mut class24 = vec![0u8; CLASS24_BYTES];
    class24_set(&mut class24, 0x0a00_0001, Class24::Table);
    let mut oa = vec![OaSlot::default(); OA_SLOTS];
    oa_insert(&mut oa, 0x0a00_0001, Action::Drop).expect("a free slot");
    let at = oa.iter().position(|slot| slot.tag != 0).expect("the slot");

    let image = section.image(&class24, &oa);
    assert_eq!(image.len(), section.bytes);
    assert_eq!(&image[32..32 + CLASS24_BYTES], &class24[..]);
    assert_eq!(class24_get(&image[32..32 + CLASS24_BYTES], 0x0a00_0001), Class24::Table);
    let slot = section.oa_at + 8 * at;
    assert_eq!(&image[slot..slot + 4], &oa[at].key.to_ne_bytes());
    assert_eq!(&image[slot + 4..slot + 8], &oa[at].tag.to_ne_bytes());
    assert!(image[..32].iter().all(|byte| *byte == 0));
    assert!(image[32 + CLASS24_BYTES..section.oa_at].iter().all(|byte| *byte == 0));

    let big = section.image_for(&class24, &oa, ByteOrder::Big);
    assert_eq!(&big[slot..slot + 4], &oa[at].key.to_be_bytes());
}
