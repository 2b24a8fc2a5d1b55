//! What a kernel actually has, from two kinds of evidence: a symbol the capability cannot exist
//! without, and failing that the release number.

use vstd::prelude::*;

use super::matrix::{Capability, Detected, Entry};
use crate::text::{chars_of, find_char, nth_word, parse_number, run_is, trim};

verus! {

/// The release a text names: the first two of its dotted parts, as numbers. The patch level is
/// dropped.
pub open spec fn named_release(text: Seq<char>) -> Option<(u32, u32)> {
    let parts = crate::text::split(crate::text::trimmed(text), '.');
    if parts.len() < 2 {
        None
    } else {
        match (
            crate::text::spelled_number(parts[0], u32::MAX as nat),
            crate::text::spelled_number(parts[1], u32::MAX as nat),
        ) {
            (Some(major), Some(minor)) => Some((major as u32, minor as u32)),
            _ => None,
        }
    }
}

/// `(major, minor)` of a kernel release, `None` when the text does not parse.
pub fn parse_release(text: &str) -> (release: Option<(u32, u32)>)
    ensures
        release == named_release(text@),
{
    let chars: Vec<char> = chars_of(text);
    let (start, stop) = trim(&chars, 0, chars.len());
    let dot: usize = find_char(&chars, '.', start, stop);
    let ghost whole = chars@.subrange(start as int, stop as int);
    let ghost parts = crate::text::split(whole, '.');
    proof {
        assert(chars@.subrange(0, chars@.len() as int) =~= text@);
        assert(whole.take(dot - start) =~= chars@.subrange(start as int, dot as int));
    }
    if dot == stop {
        return None;
    }
    let end: usize = find_char(&chars, '.', dot + 1, stop);
    proof {
        let rest = whole.skip(dot - start + 1);
        assert(rest =~= chars@.subrange(dot + 1, stop as int));
        let tail = crate::text::split(rest, '.');
        assert(rest.take(end - dot - 1) =~= chars@.subrange(dot + 1, end as int));
        assert(end == stop ==> rest =~= chars@.subrange(dot + 1, end as int));
        assert(parts[0] == chars@.subrange(start as int, dot as int));
        assert(parts[1] == tail[0]);
        assert(tail[0] == chars@.subrange(dot + 1, end as int));
    }
    match (
        parse_number(&chars, start, dot, u32::MAX as u64),
        parse_number(&chars, dot + 1, end, u32::MAX as u64),
    ) {
        (Some(major), Some(minor)) => Some((major as u32, minor as u32)),
        _ => None,
    }
}

/// Whether a line of a symbol table, `address type name`, names a symbol. The name column is
/// compared whole, never as a substring.
pub open spec fn line_names(line: Seq<char>, symbol: Seq<char>) -> bool {
    crate::text::words(line).len() > 2 && crate::text::words(line)[2] == symbol
}

/// Whether a symbol table defines a symbol.
pub open spec fn table_defines(table: Seq<char>, symbol: Seq<char>) -> bool {
    exists|i: int|
        0 <= i < crate::text::split(table, '\n').len() && line_names(
            #[trigger] crate::text::split(table, '\n')[i],
            symbol,
        )
}

/// Whether a symbol table defines a symbol.
pub fn defines(table: &[char], symbol: &str) -> (defined: bool)
    ensures
        defined == table_defines(table@, symbol@),
{
    let len: usize = table.len();
    let ghost whole = crate::text::split(table@, '\n');
    let ghost mut passed: int = 0;
    let mut from: usize = 0;
    assert(table@.skip(0) =~= table@);
    loop
        invariant
            len == table@.len(),
            from <= len,
            whole == crate::text::split(table@, '\n'),
            0 <= passed <= whole.len(),
            whole.skip(passed) == crate::text::split(table@.skip(from as int), '\n'),
            forall|i: int| 0 <= i < passed ==> !line_names(#[trigger] whole[i], symbol@),
        decreases len - from,
    {
        let end: usize = find_char(table, '\n', from, len);
        let ghost rest = table@.skip(from as int);
        let ghost lines = crate::text::split(rest, '\n');
        proof {
            assert(table@.subrange(from as int, len as int) =~= rest);
            assert(rest.take(end - from) =~= table@.subrange(from as int, end as int));
            assert(end == len ==> rest =~= table@.subrange(from as int, end as int));
            assert(lines[0] == table@.subrange(from as int, end as int));
            assert(lines.len() >= 1);
            assert(whole.skip(passed).len() == whole.len() - passed);
            assert(whole[passed] == whole.skip(passed)[0]);
        }
        if let Some((start, stop)) = nth_word(table, from, end, 2) {
            if run_is(table, start, stop, symbol) {
                assert(line_names(whole[passed], symbol@));
                return true;
            }
        }
        assert(!line_names(whole[passed], symbol@));
        if end == len {
            proof {
                assert(whole.skip(passed).len() == 1);
                assert(whole.len() == passed + 1);
            }
            return false;
        }
        proof {
            assert(rest.skip(end - from + 1) =~= table@.skip(end + 1));
            assert(lines.drop_first() =~= crate::text::split(table@.skip(end + 1), '\n'));
            assert(whole.skip(passed + 1) =~= whole.skip(passed).drop_first());
            passed = passed + 1;
        }
        from = end + 1;
    }
}

/// Whether a release is at least another.
pub open spec fn at_least(running: (u32, u32), since: (u32, u32)) -> bool {
    running.0 > since.0 || (running.0 == since.0 && running.1 >= since.1)
}

/// Whether a capability is there: by its symbol where it has one and the symbols can be read,
/// and by the release number otherwise.
pub open spec fn has_capability(
    cap: Capability,
    release: Option<(u32, u32)>,
    symbols: Option<Seq<char>>,
) -> bool {
    match (cap.evidence(), symbols) {
        (Some(symbol), Some(table)) => table_defines(table, symbol),
        _ => match release {
            Some(running) => at_least(running, cap.release()),
            None => false,
        },
    }
}

/// Every capability of the matrix, in matrix order, for a kernel of this release with this symbol
/// table. Either is `None` where it could not be read.
pub fn detect_all(release: Option<(u32, u32)>, symbols: Option<&str>) -> (detected: Vec<Detected>)
    ensures
        detected@.len() == 7,
        forall|i: int|
            0 <= i < 7 ==> {
                let found = #[trigger] detected@[i];
                &&& found.cap == Capability::ALL@[i]
                &&& found.available == has_capability(
                    found.cap,
                    release,
                    match symbols {
                        Some(text) => Some(text@),
                        None => None,
                    },
                )
                &&& found.fallback@ == found.cap.reference_path()
            },
{
    let ghost table_view: Option<Seq<char>> = match symbols {
        Some(text) => Some(text@),
        None => None,
    };
    // Read once: the table is a few megabytes and every symbol probe walks the same copy.
    let table: Option<Vec<char>> = match symbols {
        Some(text) => Some(chars_of(text)),
        None => None,
    };
    let mut detected: Vec<Detected> = Vec::new();
    let mut i: usize = 0;
    while i < 7
        invariant
            i <= 7,
            detected@.len() == i,
            match table {
                Some(chars) => table_view == Some(chars@),
                None => table_view is None,
            },
            forall|j: int|
                0 <= j < i ==> {
                    let found = #[trigger] detected@[j];
                    &&& found.cap == Capability::ALL@[j]
                    &&& found.available == has_capability(found.cap, release, table_view)
                    &&& found.fallback@ == found.cap.reference_path()
                },
        decreases 7 - i,
    {
        let row: Entry = Capability::ALL[i].row();
        let by_release: bool = match release {
            Some(running) => running.0 > row.since.0 || (running.0 == row.since.0 && running.1
                >= row.since.1),
            None => false,
        };
        let available: bool = match (row.symbol, &table) {
            (Some(symbol), Some(chars)) => defines(chars, symbol),
            _ => by_release,
        };
        detected.push(Detected { cap: row.cap, available, fallback: row.fallback });
        i += 1;
    }
    detected
}

/// A newer kernel never loses a capability that only its release number tells.
pub proof fn a_newer_release_keeps_its_capabilities(
    cap: Capability,
    older: (u32, u32),
    newer: (u32, u32),
)
    requires
        at_least(newer, older),
        has_capability(cap, Some(older), None),
    ensures
        has_capability(cap, Some(newer), None),
{
}

/// Where the symbols can be read, a capability that a symbol tells is there exactly where the
/// symbol is, whatever the release number says.
pub proof fn a_symbol_outweighs_the_release(
    cap: Capability,
    release: Option<(u32, u32)>,
    other: Option<(u32, u32)>,
    table: Seq<char>,
)
    requires
        cap == Capability::BpfQdisc || cap == Capability::XdpPullData || cap == Capability::BpfArena,
    ensures
        has_capability(cap, release, Some(table)) == has_capability(cap, other, Some(table)),
        has_capability(cap, release, Some(table)) == table_defines(table, cap.evidence()->0),
{
}

/// Without symbols, and for a capability that none tells, the release decides: the capability is
/// there from the release that brought it on, the first number before the second, and not where
/// the release is unknown.
pub proof fn the_release_decides_without_a_symbol(
    cap: Capability,
    release: (u32, u32),
    symbols: Option<Seq<char>>,
)
    requires
        symbols is None || cap == Capability::CpumapGro || cap == Capability::MultiByteMeta || cap
            == Capability::RehashFlows || cap == Capability::QueueLeasing,
    ensures
        has_capability(cap, Some(release), symbols) <==> release.0 * 0x1_0000_0000 + release.1
            >= cap.release().0 * 0x1_0000_0000 + cap.release().1,
        !has_capability(cap, None, symbols),
{
}

/// A symbol table defines a symbol where the third word of one of its lines is the symbol, whole:
/// a line more never takes a symbol away, and a table whose lines all name others does not define
/// it.
pub proof fn a_table_defines_what_its_lines_name(table: Seq<char>, symbol: Seq<char>, i: int)
    ensures
        0 <= i < crate::text::split(table, '\n').len() && crate::text::words(
            crate::text::split(table, '\n')[i],
        ).len() >= 3 && crate::text::words(crate::text::split(table, '\n')[i])[2] == symbol
            ==> table_defines(table, symbol),
        table_defines(table, symbol) ==> exists|j: int|
            0 <= j < crate::text::split(table, '\n').len() && crate::text::words(
                #[trigger] crate::text::split(table, '\n')[j],
            ).len() >= 3 && crate::text::words(crate::text::split(table, '\n')[j])[2] == symbol,
{
    let lines = crate::text::split(table, '\n');
    if 0 <= i < lines.len() && crate::text::words(lines[i]).len() >= 3 && crate::text::words(
        lines[i],
    )[2] == symbol {
        assert(line_names(lines[i], symbol));
    }
}

/// The release a text names is its first two numbers: two runs of digits with a dot between, and
/// behind the second nothing or a dot and what comes after it, which is dropped.
pub proof fn a_release_is_its_first_two_numbers(major: nat, minor: nat, rest: Seq<char>)
    requires
        major <= u32::MAX,
        minor <= u32::MAX,
        rest.len() == 0 || (rest[0] == '.' && !crate::text::white_space(rest.last())),
    ensures
        named_release(
            crate::text::decimal(major).push('.') + crate::text::decimal(minor) + rest,
        ) == Some((major as u32, minor as u32)),
{
    let first = crate::text::decimal(major);
    let second = crate::text::decimal(minor);
    let text = first.push('.') + second + rest;
    crate::text::a_decimal_reads_back(major);
    crate::text::a_decimal_reads_back(minor);
    crate::text::a_number_is_read_as_it_is_spelled(major, u32::MAX as nat);
    crate::text::a_number_is_read_as_it_is_spelled(minor, u32::MAX as nat);
    assert(text[0] == first[0] && '0' <= first[0] <= '9');
    assert('0' <= second[second.len() - 1] <= '9');
    assert(text.last() == (if rest.len() > 0 {
        rest.last()
    } else {
        second.last()
    }));
    crate::text::a_trimmed_text_stays(text);
    crate::text::a_run_is_split_off(first, second + rest, '.');
    assert(text =~= first.push('.') + (second + rest));
    if rest.len() == 0 {
        assert(second + rest =~= second);
        crate::text::a_run_is_split_off(second, rest, '.');
    } else {
        assert(second + rest =~= second.push('.') + rest.skip(1));
        crate::text::a_run_is_split_off(second, rest.skip(1), '.');
    }
}

/// A text with no dot names no release.
pub proof fn a_text_without_a_dot_names_no_release(text: Seq<char>)
    requires
        forall|i: int| 0 <= i < text.len() ==> #[trigger] text[i] != '.',
    ensures
        named_release(text) is None,
{
    crate::text::a_trimmed_text_is_a_run_of_it(text);
    let kept = crate::text::trimmed(text);
    let (from, to) = choose|from: int, to: int|
        0 <= from <= to <= text.len() && kept == #[trigger] text.subrange(from, to);
    assert forall|i: int| 0 <= i < kept.len() implies #[trigger] kept[i] != '.' by {
        assert(kept[i] == text[from + i]);
    }
    crate::text::a_run_is_split_off(kept, Seq::empty(), '.');
}

} // verus!
