//! What an object file says of itself, as the `object` crate reads it.

use object::{Object, ObjectSection, ObjectSymbol};
use vstd::prelude::*;

verus! {

/// One symbol of an object file.
pub struct ElfSymbol {
    /// The name, where the file holds one that can be read.
    pub name: Option<String>,
    /// The index of the section the symbol is in, where it is in one.
    pub section: Option<usize>,
    /// The address: the offset in the section, in a file that is not linked.
    pub address: u64,
}

impl View for ElfSymbol {
    type V = (Option<Seq<char>>, Option<usize>, u64);

    open spec fn view(&self) -> (Option<Seq<char>>, Option<usize>, u64) {
        (
            match self.name {
                Some(name) => Some(name@),
                None => None,
            },
            self.section,
            self.address,
        )
    }
}

/// What the symbols of a list say.
pub open spec fn symbol_views(symbols: Seq<ElfSymbol>) -> Seq<
    (Option<Seq<char>>, Option<usize>, u64),
> {
    symbols.map_values(|symbol: ElfSymbol| symbol@)
}

/// What is wrong with an object file, where it does not parse.
pub uninterp spec fn object_error(bytes: Seq<u8>) -> Option<Seq<char>>;

/// The index and the size of a section of an object file.
pub uninterp spec fn object_section(bytes: Seq<u8>, name: Seq<char>) -> Option<(usize, u64)>;

/// The symbols of an object file, in their order.
pub uninterp spec fn object_symbols(bytes: Seq<u8>) -> Seq<
    (Option<Seq<char>>, Option<usize>, u64),
>;

/// `object::File::parse`, as far as it fails, with the text of its error. Which files it takes
/// is left to its name.
#[verifier::external_body]
pub(crate) fn parse_error(bytes: &[u8]) -> (error: Option<String>)
    ensures
        match error {
            Some(text) => object_error(bytes@) == Some(text@),
            None => object_error(bytes@) is None,
        },
{
    object::File::parse(bytes).err().map(|err| err.to_string())
}

/// `Object::section_by_name`, with the index and the size of the section. A file that does not
/// parse has no section. What the format puts there is left to its name.
#[verifier::external_body]
pub(crate) fn section_by_name(bytes: &[u8], name: &str) -> (section: Option<(usize, u64)>)
    ensures
        section == object_section(bytes@, name@),
{
    let file = object::File::parse(bytes).ok()?;
    let section = file.section_by_name(name)?;
    Some((section.index().0, section.size()))
}

/// `Object::symbols`, each with its name, its section and its address. A file that does not parse
/// has no symbols. What the format puts there is left to its name.
#[verifier::external_body]
pub(crate) fn symbols(bytes: &[u8]) -> (symbols: Vec<ElfSymbol>)
    ensures
        symbol_views(symbols@) == object_symbols(bytes@),
{
    let Ok(file) = object::File::parse(bytes) else {
        return Vec::new();
    };
    file.symbols()
        .map(|symbol| ElfSymbol {
            name: symbol.name().ok().map(str::to_owned),
            section: symbol.section_index().map(|index| index.0),
            address: symbol.address(),
        })
        .collect()
}

} // verus!
