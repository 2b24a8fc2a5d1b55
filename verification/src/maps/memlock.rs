//! Kernel memory a map is charged, as the kernel itself accounts it.

use vstd::prelude::*;
use vstd::string::*;

use crate::text::{chars_of, find_char, parse_number, run_is, trim};

verus! {

/// The label of the line that carries the number.
pub const MEMLOCK: &'static str = "memlock:";

/// Why a description of a descriptor gives no number.
pub enum MemlockError {
    /// No line carries the label.
    NoLine,
    /// What follows the label is not a number.
    Unreadable(String),
}

/// Whether a line begins with the label.
pub open spec fn is_memlock(line: Seq<char>) -> bool {
    line.len() >= 8 && line.take(8) == MEMLOCK@
}

/// The first line, from `from` on, that begins with the label; the number of lines where none
/// does.
pub open spec fn memlock_line(lines: Seq<Seq<char>>, from: int) -> int
    decreases lines.len() - from,
{
    if from >= lines.len() {
        lines.len() as int
    } else if is_memlock(lines[from]) {
        from
    } else {
        memlock_line(lines, from + 1)
    }
}

/// The field behind the label, trimmed.
pub open spec fn memlock_field(info: Seq<char>) -> Option<Seq<char>> {
    let lines = crate::text::split(info, '\n');
    let at = memlock_line(lines, 0);
    if at < lines.len() {
        Some(crate::text::trimmed(lines[at].skip(8)))
    } else {
        None
    }
}

/// The bytes a description charges, where it has a line for them that can be read.
pub open spec fn charged(info: Seq<char>) -> Option<nat> {
    match memlock_field(info) {
        Some(field) => crate::text::spelled_number(field, u64::MAX as nat),
        None => None,
    }
}

/// The bytes are the decimal number behind the label, up to the largest of 64 bits, whatever white
/// space is before it and whatever lines follow.
pub proof fn the_bytes_are_the_number_behind_the_label(blank: char, value: nat, rest: Seq<char>)
    requires
        crate::text::white_space(blank),
        blank != '\n',
    ensures
        ({
            let line = "memlock:"@.push(blank) + crate::text::decimal(value);
            let read = if value <= 0xffff_ffff_ffff_ffff {
                Some(value)
            } else {
                None
            };
            charged(line) == read && charged(line.push('\n') + rest) == read
        }),
{
    reveal_strlit("memlock:");
    let digits = crate::text::decimal(value);
    let line = "memlock:"@.push(blank) + digits;
    crate::text::a_decimal_reads_back(value);
    crate::text::a_number_is_read_as_it_is_spelled(value, u64::MAX as nat);
    assert(line.take(8) =~= "memlock:"@);
    assert forall|i: int| 0 <= i < line.len() implies #[trigger] line[i] != '\n' by {
        if i > 8 {
            assert('0' <= digits[i - 9] <= '9');
        }
    }
    the_field_is_on_the_first_line_that_has_the_label(line, rest);
    let field = line.skip(8);
    assert(field.drop_first() =~= digits);
    assert(field[0] == blank);
    assert('0' <= digits[0] <= '9');
    assert('0' <= digits[digits.len() - 1] <= '9');
    crate::text::a_trimmed_text_stays(digits);
    assert(crate::text::trimmed_start(field) == crate::text::trimmed_start(digits));
    assert(crate::text::trimmed(field) == digits);
}

/// The bytes a map is charged, out of the kernel's description of its descriptor.
pub fn memlock_bytes(info: &str) -> (bytes: Result<u64, MemlockError>)
    ensures
        match bytes {
            Ok(number) => charged(info@) == Some(number as nat),
            Err(_) => charged(info@) is None,
        },
        match bytes {
            Ok(number) => memlock_field(info@) matches Some(field)
                && crate::text::spelled_number(field, u64::MAX as nat) == Some(number as nat),
            Err(MemlockError::NoLine) => memlock_field(info@) is None,
            Err(MemlockError::Unreadable(text)) => memlock_field(info@) == Some(text@)
                && crate::text::spelled_number(text@, u64::MAX as nat) is None,
        },
{
    let chars: Vec<char> = chars_of(info);
    let len: usize = chars.len();
    let ghost whole = crate::text::split(info@, '\n');
    let ghost mut passed: int = 0;
    let mut from: usize = 0;
    proof {
        reveal_strlit("memlock:");
        assert(info@.skip(0) =~= info@);
    }
    loop
        invariant
            MEMLOCK@.len() == 8,
            chars@ == info@,
            len == chars@.len(),
            from <= len,
            whole == crate::text::split(info@, '\n'),
            0 <= passed <= whole.len(),
            whole.skip(passed) == crate::text::split(info@.skip(from as int), '\n'),
            memlock_line(whole, 0) == memlock_line(whole, passed),
        decreases len - from,
    {
        let end: usize = find_char(&chars, '\n', from, len);
        let ghost rest = info@.skip(from as int);
        let ghost lines = crate::text::split(rest, '\n');
        let ghost line = chars@.subrange(from as int, end as int);
        proof {
            assert(chars@.subrange(from as int, len as int) =~= rest);
            assert(rest.take(end - from) =~= line);
            assert(end == len ==> rest =~= line);
            assert(lines[0] == line);
            assert(lines.len() >= 1);
            assert(whole.skip(passed).len() == whole.len() - passed);
            assert(whole[passed] == whole.skip(passed)[0]);
        }
        if end - from >= 8 && run_is(&chars, from, from + 8, MEMLOCK) {
            assert(line.take(8) =~= chars@.subrange(from as int, from + 8));
            assert(line.skip(8) =~= chars@.subrange(from + 8, end as int));
            let (start, stop) = trim(&chars, from + 8, end);
            return match parse_number(&chars, start, stop, u64::MAX) {
                Some(number) => Ok(number),
                None => {
                    let field: &str = info.substring_char(start, stop);
                    Err(MemlockError::Unreadable(field.to_owned()))
                },
            };
        }
        proof {
            if end - from >= 8 {
                assert(line.take(8) =~= chars@.subrange(from as int, from + 8));
            }
            assert(!is_memlock(whole[passed]));
        }
        if end == len {
            proof {
                assert(whole.len() == passed + 1);
                assert(memlock_line(whole, passed + 1) == whole.len());
            }
            return Err(MemlockError::NoLine);
        }
        proof {
            assert(rest.skip(end - from + 1) =~= info@.skip(end + 1));
            assert(lines.drop_first() =~= crate::text::split(info@.skip(end + 1), '\n'));
            assert(whole.skip(passed + 1) =~= whole.skip(passed).drop_first());
            passed = passed + 1;
        }
        from = end + 1;
    }
}

/// The field is that of the first line that begins with the label, whatever lines are before it
/// and behind it: a line that does not begin with it is passed over, and one that does gives what
/// is behind the label, without the white space around it.
pub proof fn the_field_is_on_the_first_line_that_has_the_label(line: Seq<char>, rest: Seq<char>)
    requires
        forall|i: int| 0 <= i < line.len() ==> #[trigger] line[i] != '\n',
    ensures
        !(line.len() >= 8 && line.take(8) == "memlock:"@) ==> memlock_field(line.push('\n') + rest)
            == memlock_field(rest) && memlock_field(line) is None,
        line.len() >= 8 && line.take(8) == "memlock:"@ ==> memlock_field(line.push('\n') + rest)
            == Some(crate::text::trimmed(line.skip(8))) && memlock_field(line) == Some(
            crate::text::trimmed(line.skip(8)),
        ),
{
    crate::text::a_run_is_split_off(line, rest, '\n');
    crate::text::a_split_text_is_its_runs(rest, '\n');
    let behind = crate::text::split(rest, '\n');
    let lines = crate::text::split(line.push('\n') + rest, '\n');
    assert(lines[0] == line);
    assert forall|i: int| 0 <= i < behind.len() implies #[trigger] behind[i] == lines[i + 1] by {}
    if !is_memlock(line) {
        lemma_memlock_line(lines, behind, 0);
        reveal_with_fuel(memlock_line, 2);
    }
}

proof fn lemma_memlock_line(lines: Seq<Seq<char>>, behind: Seq<Seq<char>>, from: int)
    requires
        0 <= from <= behind.len(),
        lines.len() == behind.len() + 1,
        forall|i: int| 0 <= i < behind.len() ==> #[trigger] behind[i] == lines[i + 1],
    ensures
        memlock_line(lines, from + 1) == memlock_line(behind, from) + 1,
        from <= memlock_line(behind, from) <= behind.len(),
    decreases behind.len() - from,
{
    if from < behind.len() {
        assert(behind[from] == lines[from + 1]);
        if !is_memlock(behind[from]) {
            lemma_memlock_line(lines, behind, from + 1);
        }
    }
}

} // verus!
