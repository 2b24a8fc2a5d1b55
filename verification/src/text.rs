//! Text as a run of characters: splitting, trimming and numbers.

use vstd::prelude::*;

verus! {

/// The characters of a text.
pub fn chars_of(text: &str) -> (chars: Vec<char>)
    ensures
        chars@ == text@,
{
    let mut chars: Vec<char> = Vec::new();
    for c in iter: text.chars()
        invariant
            chars@.len() == iter.index(),
            forall|i: int| 0 <= i < chars@.len() ==> chars@[i] == iter.seq()[i],
    {
        chars.push(c);
    }
    assert(chars@ =~= text@);
    chars
}

/// Whether two texts are the same.
pub fn str_eq(a: &str, b: &str) -> (same: bool)
    ensures
        same == (a@ == b@),
{
    let left: Vec<char> = chars_of(a);
    assert(left@.subrange(0, left@.len() as int) =~= left@);
    run_is(&left, 0, left.len(), b)
}

/// Whether the characters `from` to `to` are those of a text.
pub fn run_is(chars: &[char], from: usize, to: usize, text: &str) -> (same: bool)
    requires
        from <= to <= chars@.len(),
    ensures
        same == (chars@.subrange(from as int, to as int) == text@),
{
    let other: Vec<char> = chars_of(text);
    let ghost run = chars@.subrange(from as int, to as int);
    if to - from != other.len() {
        return false;
    }
    let mut i: usize = 0;
    while i < other.len()
        invariant
            from <= to <= chars@.len(),
            to - from == other@.len(),
            run == chars@.subrange(from as int, to as int),
            other@ == text@,
            i <= other@.len(),
            forall|j: int| 0 <= j < i ==> run[j] == other@[j],
        decreases other@.len() - i,
    {
        if chars[from + i] != other[i] {
            assert(run[i as int] != other@[i as int]);
            return false;
        }
        i += 1;
    }
    assert(run =~= other@);
    true
}

/// Whether a character is white space, as Unicode has it.
pub open spec fn white_space(c: char) -> bool {
    ||| '\u{9}' <= c <= '\u{d}'
    ||| c == ' '
    ||| c == '\u{85}'
    ||| c == '\u{a0}'
    ||| c == '\u{1680}'
    ||| '\u{2000}' <= c <= '\u{200a}'
    ||| c == '\u{2028}'
    ||| c == '\u{2029}'
    ||| c == '\u{202f}'
    ||| c == '\u{205f}'
    ||| c == '\u{3000}'
}

/// Whether a character is white space.
pub fn is_white_space(c: char) -> (white: bool)
    ensures
        white == white_space(c),
{
    ('\u{9}' <= c && c <= '\u{d}') || c == ' ' || c == '\u{85}' || c == '\u{a0}' || c == '\u{1680}'
        || ('\u{2000}' <= c && c <= '\u{200a}') || c == '\u{2028}' || c == '\u{2029}' || c
        == '\u{202f}' || c == '\u{205f}' || c == '\u{3000}'
}

/// The first position from `from` on that holds `c`; the length where there is none.
pub open spec fn position(text: Seq<char>, c: char, from: int) -> int
    decreases text.len() - from,
{
    if from >= text.len() {
        text.len() as int
    } else if text[from] == c {
        from
    } else {
        position(text, c, from + 1)
    }
}

/// A position lies in the text or at its end.
pub proof fn lemma_position(text: Seq<char>, c: char, from: int)
    requires
        0 <= from <= text.len(),
    ensures
        from <= position(text, c, from) <= text.len(),
    decreases text.len() - from,
{
    if from < text.len() && text[from] != c {
        lemma_position(text, c, from + 1);
    }
}

/// A text split at a character: the runs between its occurrences, of which there is one more
/// than there are occurrences.
pub open spec fn split(text: Seq<char>, at: char) -> Seq<Seq<char>>
    decreases text.len(),
{
    let end = position(text, at, 0);
    if end >= text.len() {
        seq![text]
    } else {
        proof {
            lemma_position(text, at, 0);
        }
        seq![text.take(end)] + split(text.skip(end + 1), at)
    }
}

/// A text without the white space it begins with.
pub open spec fn trimmed_start(text: Seq<char>) -> Seq<char>
    decreases text.len(),
{
    if text.len() > 0 && white_space(text[0]) {
        trimmed_start(text.drop_first())
    } else {
        text
    }
}

/// A text without the white space it ends with.
pub open spec fn trimmed_end(text: Seq<char>) -> Seq<char>
    decreases text.len(),
{
    if text.len() > 0 && white_space(text.last()) {
        trimmed_end(text.drop_last())
    } else {
        text
    }
}

/// A text without the white space at either end.
pub open spec fn trimmed(text: Seq<char>) -> Seq<char> {
    trimmed_end(trimmed_start(text))
}

/// The first position from `from` on that holds `c`, before `to`; `to` where there is none.
pub fn find_char(chars: &[char], c: char, from: usize, to: usize) -> (at: usize)
    requires
        from <= to <= chars@.len(),
    ensures
        from <= at <= to,
        at - from == position(chars@.subrange(from as int, to as int), c, 0),
{
    let ghost run = chars@.subrange(from as int, to as int);
    let mut at: usize = from;
    while at < to && chars[at] != c
        invariant
            from <= at <= to <= chars@.len(),
            run == chars@.subrange(from as int, to as int),
            position(run, c, 0) == position(run, c, at - from),
        decreases to - at,
    {
        assert(run[at - from] == chars@[at as int]);
        at += 1;
    }
    assert(at < to ==> run[at - from] == chars@[at as int]);
    at
}

/// What is left of the characters `from` to `to` without the white space at either end.
pub fn trim(chars: &[char], from: usize, to: usize) -> (bounds: (usize, usize))
    requires
        from <= to <= chars@.len(),
    ensures
        from <= bounds.0 <= bounds.1 <= to,
        chars@.subrange(bounds.0 as int, bounds.1 as int) == trimmed(
            chars@.subrange(from as int, to as int),
        ),
{
    let mut start: usize = from;
    while start < to && is_white_space(chars[start])
        invariant
            from <= start <= to <= chars@.len(),
            trimmed_start(chars@.subrange(from as int, to as int)) == trimmed_start(
                chars@.subrange(start as int, to as int),
            ),
        decreases to - start,
    {
        assert(chars@.subrange(start as int, to as int).drop_first() =~= chars@.subrange(
            start + 1,
            to as int,
        ));
        start += 1;
    }
    let ghost kept = chars@.subrange(start as int, to as int);
    assert(trimmed_start(kept) == kept);
    let mut end: usize = to;
    while end > start && is_white_space(chars[end - 1])
        invariant
            from <= start <= end <= to <= chars@.len(),
            trimmed_end(kept) == trimmed_end(chars@.subrange(start as int, end as int)),
        decreases end - start,
    {
        assert(chars@.subrange(start as int, end as int).drop_last() =~= chars@.subrange(
            start as int,
            end - 1,
        ));
        end -= 1;
    }
    (start, end)
}

/// The character of a digit, in bases up to sixteen.
pub open spec fn digit(value: nat) -> char {
    if value < 10 {
        (value + '0' as nat) as char
    } else {
        (value - 10 + 'a' as nat) as char
    }
}

/// A number in decimal.
pub open spec fn decimal(value: nat) -> Seq<char>
    decreases value,
{
    if value < 10 {
        seq![digit(value)]
    } else {
        decimal(value / 10).push(digit(value % 10))
    }
}

/// The low `digits` digits of a number in hexadecimal.
pub open spec fn hexadecimal(value: nat, digits: nat) -> Seq<char>
    decreases digits,
{
    if digits == 0 {
        Seq::empty()
    } else {
        hexadecimal(value / 16, (digits - 1) as nat).push(digit(value % 16))
    }
}

fn digit_text(value: u64) -> (text: &'static str)
    requires
        value < 16,
    ensures
        text@ == seq![digit(value as nat)],
{
    let text: &'static str = match value {
        0 => "0",
        1 => "1",
        2 => "2",
        3 => "3",
        4 => "4",
        5 => "5",
        6 => "6",
        7 => "7",
        8 => "8",
        9 => "9",
        10 => "a",
        11 => "b",
        12 => "c",
        13 => "d",
        14 => "e",
        _ => "f",
    };
    proof {
        reveal_strlit("0");
        reveal_strlit("1");
        reveal_strlit("2");
        reveal_strlit("3");
        reveal_strlit("4");
        reveal_strlit("5");
        reveal_strlit("6");
        reveal_strlit("7");
        reveal_strlit("8");
        reveal_strlit("9");
        reveal_strlit("a");
        reveal_strlit("b");
        reveal_strlit("c");
        reveal_strlit("d");
        reveal_strlit("e");
        reveal_strlit("f");
        assert(text@ =~= seq![digit(value as nat)]);
    }
    text
}

/// Appends a number in decimal.
pub fn push_decimal(out: &mut String, value: u64)
    ensures
        final(out)@ == old(out)@ + decimal(value as nat),
    decreases value,
{
    let ghost before = out@;
    if value >= 10 {
        push_decimal(out, value / 10);
    }
    out.append(digit_text(value % 10));
    assert(out@ =~= before + decimal(value as nat));
}

/// Appends the low `digits` digits of a number in hexadecimal.
pub fn push_hexadecimal(out: &mut String, value: u64, digits: usize)
    ensures
        final(out)@ == old(out)@ + hexadecimal(value as nat, digits as nat),
    decreases digits,
{
    let ghost before = out@;
    if digits > 0 {
        push_hexadecimal(out, value / 16, digits - 1);
        out.append(digit_text(value % 16));
    }
    assert(out@ =~= before + hexadecimal(value as nat, digits as nat));
}

/// What `{:?}` writes for a text: the text between quotes, with what does not print escaped.
pub uninterp spec fn debug_text(text: Seq<char>) -> Seq<char>;

/// The `Debug` form of a `str`, by `format!("{:?}")`. Which characters it escapes, and how, is
/// left to its name.
#[verifier::external_body]
pub(crate) fn quoted(text: &str) -> (out: String)
    ensures
        out@ == debug_text(text@),
{
    format!("{:?}", text)
}

/// Whether a text is made of decimal digits.
pub open spec fn all_digits(text: Seq<char>) -> bool {
    forall|i: int| 0 <= i < text.len() ==> '0' <= #[trigger] text[i] <= '9'
}

/// The number a text of decimal digits spells.
pub open spec fn digits_value(text: Seq<char>) -> nat
    decreases text.len(),
{
    if text.len() == 0 {
        0
    } else {
        (10 * digits_value(text.drop_last()) + (text.last() as nat - '0' as nat)) as nat
    }
}

/// The number a text spells, where it is at most `max`: an optional plus sign, and one digit or
/// more.
pub open spec fn spelled_number(text: Seq<char>, max: nat) -> Option<nat> {
    let digits = if text.len() > 0 && text[0] == '+' {
        text.skip(1)
    } else {
        text
    };
    if digits.len() > 0 && all_digits(digits) && digits_value(digits) <= max {
        Some(digits_value(digits))
    } else {
        None
    }
}

proof fn lemma_prefix_value(text: Seq<char>, len: int)
    requires
        all_digits(text),
        0 <= len <= text.len(),
    ensures
        digits_value(text.take(len)) <= digits_value(text),
    decreases text.len() - len,
{
    if len == text.len() {
        assert(text.take(len) =~= text);
    } else {
        let longer = text.take(len + 1);
        assert(longer.drop_last() =~= text.take(len));
        assert('0' <= text[len] <= '9');
        lemma_prefix_value(text, len + 1);
    }
}

/// The number the characters `from` to `to` spell, where it is at most `max`.
pub fn parse_number(chars: &[char], from: usize, to: usize, max: u64) -> (value: Option<u64>)
    requires
        from <= to <= chars@.len(),
    ensures
        match value {
            Some(number) => spelled_number(
                chars@.subrange(from as int, to as int),
                max as nat,
            ) == Some(number as nat),
            None => spelled_number(chars@.subrange(from as int, to as int), max as nat) is None,
        },
{
    let ghost text = chars@.subrange(from as int, to as int);
    let mut at: usize = from;
    if from < to && chars[from] == '+' {
        at = from + 1;
    }
    let ghost digits = chars@.subrange(at as int, to as int);
    assert(at > from ==> digits =~= text.skip(1));
    assert(text.len() > 0 ==> text[0] == chars@[from as int]);
    if at == to {
        return None;
    }
    let start: usize = at;
    let mut number: u64 = 0;
    assert(digits.take(0).len() == 0);
    while at < to
        invariant
            from <= start <= at <= to <= chars@.len(),
            text == chars@.subrange(from as int, to as int),
            digits == chars@.subrange(start as int, to as int),
            forall|i: int| 0 <= i < at - start ==> '0' <= #[trigger] digits[i] <= '9',
            number == digits_value(digits.take(at - start)),
            number <= max,
            digits.len() > 0,
            spelled_number(text, max as nat) == (if all_digits(digits) && digits_value(digits)
                <= max {
                Some(digits_value(digits))
            } else {
                None
            }),
        decreases to - at,
    {
        let c: char = chars[at];
        assert(digits[at - start] == c);
        if c < '0' || c > '9' {
            return None;
        }
        let digit: u64 = c as u64 - '0' as u64;
        proof {
            let longer = digits.take(at - start + 1);
            assert(longer.drop_last() =~= digits.take(at - start));
            assert(longer.last() == c);
            if number * 10 + digit > max && all_digits(digits) {
                lemma_prefix_value(digits, at - start + 1);
            }
        }
        if number > max / 10 || digit > max || number * 10 > max - digit {
            return None;
        }
        number = number * 10 + digit;
        at += 1;
    }
    assert(digits.take(at - start) =~= digits);
    Some(number)
}

/// A text that is trimmed is no longer than it was, and does not begin with white space.
pub proof fn lemma_trimmed_start(text: Seq<char>)
    ensures
        trimmed_start(text).len() <= text.len(),
        trimmed_start(text).len() > 0 ==> !white_space(trimmed_start(text)[0]),
    decreases text.len(),
{
    if text.len() > 0 && white_space(text[0]) {
        lemma_trimmed_start(text.drop_first());
    }
}

/// The first position from `from` on that holds white space; the length where there is none.
pub open spec fn word_end(text: Seq<char>, from: int) -> int
    decreases text.len() - from,
{
    if from >= text.len() {
        text.len() as int
    } else if white_space(text[from]) {
        from
    } else {
        word_end(text, from + 1)
    }
}

/// The words of a text: its runs of characters between white space.
pub open spec fn words(text: Seq<char>) -> Seq<Seq<char>>
    decreases text.len(),
{
    let rest = trimmed_start(text);
    let end = word_end(rest, 0);
    if rest.len() == 0 {
        Seq::empty()
    } else {
        proof {
            lemma_trimmed_start(text);
            lemma_word_end(rest, 0);
        }
        seq![rest.take(end)] + words(rest.skip(end))
    }
}

/// A word ends in the text or at its end, and behind its start.
pub proof fn lemma_word_end(text: Seq<char>, from: int)
    requires
        0 <= from <= text.len(),
    ensures
        from <= word_end(text, from) <= text.len(),
        from < text.len() && !white_space(text[from]) ==> word_end(text, from) > from,
    decreases text.len() - from,
{
    if from < text.len() && !white_space(text[from]) {
        lemma_word_end(text, from + 1);
    }
}

/// The word number `n` of the characters `from` to `to`, as the bounds of it.
pub fn nth_word(chars: &[char], from: usize, to: usize, n: usize) -> (word: Option<(usize, usize)>)
    requires
        from <= to <= chars@.len(),
    ensures
        match word {
            Some((start, end)) => from <= start <= end <= to && n < words(
                chars@.subrange(from as int, to as int),
            ).len() && chars@.subrange(start as int, end as int) == words(
                chars@.subrange(from as int, to as int),
            )[n as int],
            None => n >= words(chars@.subrange(from as int, to as int)).len(),
        },
    decreases n,
{
    let ghost text = chars@.subrange(from as int, to as int);
    let mut start: usize = from;
    while start < to && is_white_space(chars[start])
        invariant
            from <= start <= to <= chars@.len(),
            trimmed_start(text) == trimmed_start(chars@.subrange(start as int, to as int)),
        decreases to - start,
    {
        assert(chars@.subrange(start as int, to as int).drop_first() =~= chars@.subrange(
            start + 1,
            to as int,
        ));
        start += 1;
    }
    let ghost rest = chars@.subrange(start as int, to as int);
    assert(trimmed_start(rest) == rest);
    if start == to {
        return None;
    }
    let mut end: usize = start;
    while end < to && !is_white_space(chars[end])
        invariant
            start <= end <= to <= chars@.len(),
            rest == chars@.subrange(start as int, to as int),
            word_end(rest, 0) == word_end(rest, end - start),
        decreases to - end,
    {
        assert(rest[end - start] == chars@[end as int]);
        end += 1;
    }
    proof {
        assert(end < to ==> rest[end - start] == chars@[end as int]);
        assert(rest[0] == chars@[start as int]);
        lemma_word_end(rest, 0);
        assert(rest.take(end - start) =~= chars@.subrange(start as int, end as int));
        assert(rest.skip(end - start) =~= chars@.subrange(end as int, to as int));
    }
    if n == 0 {
        return Some((start, end));
    }
    nth_word(chars, end, to, n - 1)
}

/// The runs put together again, with a character between each and the next.
pub open spec fn rejoined(runs: Seq<Seq<char>>, at: char) -> Seq<char>
    decreases runs.len(),
{
    if runs.len() == 0 {
        Seq::empty()
    } else if runs.len() == 1 {
        runs[0]
    } else {
        runs[0].push(at) + rejoined(runs.drop_first(), at)
    }
}

/// Splitting loses nothing and leaves nothing to split: put together again the runs are the text,
/// there is at least one of them, and none holds the character.
pub proof fn a_split_text_is_its_runs(text: Seq<char>, at: char)
    ensures
        split(text, at).len() >= 1,
        rejoined(split(text, at), at) == text,
        forall|i: int, j: int|
            0 <= i < split(text, at).len() && 0 <= j < split(text, at)[i].len() ==> (
            #[trigger] split(text, at)[i][j]) != at,
    decreases text.len(),
{
    let end = position(text, at, 0);
    let runs = split(text, at);
    lemma_first_position(text, at, 0);
    if end < text.len() {
        let rest = text.skip(end + 1);
        a_split_text_is_its_runs(rest, at);
        assert(runs.drop_first() =~= split(rest, at));
        assert(text =~= text.take(end).push(at) + rest);
        assert forall|i: int, j: int| 0 <= i < runs.len() && 0 <= j < runs[i].len() implies (
        #[trigger] runs[i][j]) != at by {
            if i > 0 {
                assert(runs[i] == split(rest, at)[i - 1]);
            }
        }
    } else {
        assert(runs =~= seq![text]);
    }
}

proof fn lemma_first_position(text: Seq<char>, c: char, from: int)
    requires
        0 <= from <= text.len(),
    ensures
        from <= position(text, c, from) <= text.len(),
        position(text, c, from) < text.len() ==> text[position(text, c, from)] == c,
        forall|i: int| from <= i < position(text, c, from) ==> #[trigger] text[i] != c,
    decreases text.len() - from,
{
    if from < text.len() && text[from] != c {
        lemma_first_position(text, c, from + 1);
    }
}

/// A run without the character, in front of the character and a text, is the first run of them, and
/// the rest are those of the text.
pub proof fn a_run_is_split_off(run: Seq<char>, rest: Seq<char>, at: char)
    requires
        forall|i: int| 0 <= i < run.len() ==> #[trigger] run[i] != at,
    ensures
        split(run, at) == seq![run],
        split(run.push(at) + rest, at) == seq![run] + split(rest, at),
{
    let text = run.push(at) + rest;
    lemma_first_position(run, at, 0);
    lemma_first_position(text, at, 0);
    assert(text[run.len() as int] == at);
    let end = position(text, at, 0);
    assert(end <= run.len()) by {
        if end > run.len() {
            assert(text[run.len() as int] != at);
        }
    }
    if end < run.len() {
        assert(text[end] == run[end]);
    }
    assert(text.take(end) =~= run);
    assert(text.skip(end + 1) =~= rest);
}

/// What trimming leaves: a run of the text, with nothing but white space before and behind it, that
/// neither begins nor ends with white space.
pub proof fn a_trimmed_text_is_a_run_of_it(text: Seq<char>)
    ensures
        exists|from: int, to: int|
            0 <= from <= to <= text.len() && trimmed(text) == #[trigger] text.subrange(from, to)
                && (forall|k: int| 0 <= k < from ==> white_space(#[trigger] text[k])) && (forall|
                k: int,
            |
                to <= k < text.len() ==> white_space(#[trigger] text[k])),
        trimmed(text).len() > 0 ==> !white_space(trimmed(text)[0]) && !white_space(
            trimmed(text).last(),
        ),
{
    let from = lemma_trimmed_start_run(text);
    let kept = trimmed_start(text);
    let len = lemma_trimmed_end_run(kept);
    lemma_trimmed_start(text);
    assert(trimmed(text) =~= text.subrange(from, from + len));
    assert forall|k: int| from + len <= k < text.len() implies white_space(#[trigger] text[k]) by {
        assert(kept[k - from] == text[k]);
    }
}

proof fn lemma_trimmed_start_run(text: Seq<char>) -> (from: int)
    ensures
        0 <= from <= text.len(),
        trimmed_start(text) == text.skip(from),
        forall|k: int| 0 <= k < from ==> white_space(#[trigger] text[k]),
    decreases text.len(),
{
    if text.len() > 0 && white_space(text[0]) {
        let rest = text.drop_first();
        let from = lemma_trimmed_start_run(rest);
        assert(rest.skip(from) =~= text.skip(from + 1));
        assert forall|k: int| 0 <= k < from + 1 implies white_space(#[trigger] text[k]) by {
            if k > 0 {
                assert(rest[k - 1] == text[k]);
            }
        }
        from + 1
    } else {
        assert(text.skip(0) =~= text);
        0
    }
}

proof fn lemma_trimmed_end_run(text: Seq<char>) -> (len: int)
    ensures
        0 <= len <= text.len(),
        trimmed_end(text) == text.take(len),
        forall|k: int| len <= k < text.len() ==> white_space(#[trigger] text[k]),
        len > 0 ==> !white_space(text[len - 1]),
    decreases text.len(),
{
    if text.len() > 0 && white_space(text.last()) {
        let rest = text.drop_last();
        let len = lemma_trimmed_end_run(rest);
        assert(rest.take(len) =~= text.take(len));
        assert forall|k: int| len <= k < text.len() implies white_space(#[trigger] text[k]) by {
            if k < rest.len() {
                assert(rest[k] == text[k]);
            }
        }
        len
    } else {
        assert(text.take(text.len() as int) =~= text);
        text.len() as int
    }
}

/// What trimming the end leaves: the beginning of the text up to its last character that is not
/// white space.
pub proof fn a_text_trimmed_at_its_end_is_its_beginning(text: Seq<char>, len: int)
    requires
        0 <= len <= text.len(),
        forall|k: int| len <= k < text.len() ==> white_space(#[trigger] text[k]),
        len > 0 ==> !white_space(text[len - 1]),
    ensures
        trimmed_end(text) == text.take(len),
{
    let kept = lemma_trimmed_end_run(text);
    if kept < len {
        assert(white_space(text[len - 1]));
    } else if len < kept {
        assert(white_space(text[kept - 1]));
    }
}

/// A text that neither begins nor ends with white space is left as it is.
pub proof fn a_trimmed_text_stays(text: Seq<char>)
    requires
        text.len() > 0 ==> !white_space(text[0]) && !white_space(text.last()),
    ensures
        trimmed(text) == text,
{
}

/// The words of a text are read off from the front: white space counts for nothing, and a run
/// without white space, up to white space or to the end, is a word.
pub proof fn the_words_are_the_runs_between_white_space(word: Seq<char>, rest: Seq<char>, blank: char)
    requires
        word.len() > 0,
        forall|i: int| 0 <= i < word.len() ==> !white_space(#[trigger] word[i]),
        rest.len() == 0 || white_space(rest[0]),
        white_space(blank),
    ensures
        words(Seq::empty()).len() == 0,
        words(word + rest) == seq![word] + words(rest),
        words(seq![blank] + rest) == words(rest),
        words(seq![blank] + word + rest) == words(word + rest),
{
    let text = word + rest;
    assert(text[0] == word[0]);
    lemma_word_end_at(text, 0, word.len() as int);
    assert(text.take(word.len() as int) =~= word);
    assert(text.skip(word.len() as int) =~= rest);
    let padded = seq![blank] + rest;
    assert(padded.drop_first() =~= rest);
    assert(trimmed_start(padded) == trimmed_start(rest));
    let more = seq![blank] + word + rest;
    assert(more.drop_first() =~= text);
    assert(more[0] == blank);
    assert(trimmed_start(more) == trimmed_start(text));
}

proof fn lemma_word_end_at(text: Seq<char>, from: int, end: int)
    requires
        0 <= from <= end <= text.len(),
        forall|i: int| from <= i < end ==> !white_space(#[trigger] text[i]),
        end < text.len() ==> white_space(text[end]),
    ensures
        word_end(text, from) == end,
    decreases end - from,
{
    if from < end {
        lemma_word_end_at(text, from + 1, end);
    }
}

/// A number in decimal is digits, the first of which is zero only where it is the only one, and
/// reads back as the number.
pub proof fn a_decimal_reads_back(value: nat)
    ensures
        decimal(value).len() >= 1,
        all_digits(decimal(value)),
        digits_value(decimal(value)) == value,
        value >= 1 ==> decimal(value)[0] != '0',
    decreases value,
{
    reveal_with_fuel(digits_value, 2);
    if value >= 10 {
        a_decimal_reads_back(value / 10);
        let text = decimal(value);
        assert(text.drop_last() =~= decimal(value / 10));
        assert(text[0] == decimal(value / 10)[0]);
        assert forall|i: int| 0 <= i < text.len() implies '0' <= #[trigger] text[i] <= '9' by {
            if i < text.len() - 1 {
                assert(text[i] == decimal(value / 10)[i]);
            }
        }
    } else {
        let text = decimal(value);
        assert(text.drop_last() =~= Seq::empty());
    }
}

/// A number is read in decimal: where it is at most the largest asked for it is what was spelled,
/// with a plus sign before it or without, and one past that is not read.
pub proof fn a_number_is_read_as_it_is_spelled(value: nat, max: nat)
    ensures
        value <= max ==> spelled_number(decimal(value), max) == Some(value) && spelled_number(
            seq!['+'] + decimal(value),
            max,
        ) == Some(value),
        value > max ==> spelled_number(decimal(value), max) is None && spelled_number(
            seq!['+'] + decimal(value),
            max,
        ) is None,
{
    a_decimal_reads_back(value);
    let text = decimal(value);
    assert('0' <= text[0]);
    let signed = seq!['+'] + text;
    assert(signed.skip(1) =~= text);
}

/// What is no number: nothing at all, a sign alone, or anything with a character that is no digit,
/// but for a plus sign in front.
pub proof fn what_is_not_spelled_in_digits_is_not_read(text: Seq<char>, max: nat, i: int)
    ensures
        text.len() == 0 ==> spelled_number(text, max) is None,
        text.len() == 1 && text[0] == '+' ==> spelled_number(text, max) is None,
        0 <= i < text.len() && !('0' <= text[i] <= '9') && !(i == 0 && text[i] == '+')
            ==> spelled_number(text, max) is None,
{
    if 0 <= i < text.len() && text[0] == '+' && i > 0 {
        assert(text.skip(1)[i - 1] == text[i]);
    }
}

/// A digit counts ten times less than the one before it, and a leading zero for nothing.
pub proof fn each_digit_weighs_ten_times_the_next(text: Seq<char>, c: char)
    requires
        '0' <= c <= '9',
    ensures
        digits_value(text.push(c)) == 10 * digits_value(text) + (c as nat - '0' as nat),
        digits_value(seq!['0'] + text) == digits_value(text),
    decreases text.len(),
{
    assert(text.push(c).drop_last() =~= text);
    let padded = seq!['0'] + text;
    if text.len() == 0 {
        reveal_with_fuel(digits_value, 2);
        assert(padded.drop_last() =~= Seq::empty());
    } else {
        each_digit_weighs_ten_times_the_next(text.drop_last(), c);
        assert(padded.drop_last() =~= seq!['0'] + text.drop_last());
        assert(padded.last() == text.last());
    }
}

/// A number in hexadecimal has the digits asked for, each weighs sixteen times the next, and two
/// numbers that fit them are spelled alike only where they are the same.
pub proof fn a_hexadecimal_tells_numbers_apart(a: nat, b: nat, digits: nat)
    requires
        hexadecimal(a, digits) == hexadecimal(b, digits),
    ensures
        hexadecimal(a, digits).len() == digits,
        a % sixteens(digits) == b % sixteens(digits),
    decreases digits,
{
    if digits > 0 {
        let less = (digits - 1) as nat;
        let x = hexadecimal(a, digits);
        let y = hexadecimal(b, digits);
        assert(x.drop_last() =~= hexadecimal(a / 16, less));
        assert(y.drop_last() =~= hexadecimal(b / 16, less));
        assert(x.last() == digit(a % 16) && y.last() == digit(b % 16));
        a_hexadecimal_tells_numbers_apart(a / 16, b / 16, less);
        lemma_sixteens(a, less);
        lemma_sixteens(b, less);
    } else {
        assert(a % 1 == 0 && b % 1 == 0);
    }
}

/// How many numbers so many hexadecimal digits can spell.
pub open spec fn sixteens(digits: nat) -> nat
    decreases digits,
{
    if digits == 0 {
        1
    } else {
        16 * sixteens((digits - 1) as nat)
    }
}

proof fn lemma_sixteens(value: nat, less: nat)
    ensures
        sixteens(less) > 0,
        value % sixteens(less + 1) == 16 * ((value / 16) % sixteens(less)) + value % 16,
    decreases less,
{
    lemma_sixteens_positive(less);
    let m = sixteens(less) as int;
    let q = (value / 16) as int / m;
    let r = (value / 16) as int % m;
    vstd::arithmetic::div_mod::lemma_fundamental_div_mod((value / 16) as int, m);
    assert(value == q * (16 * m) + (16 * r + value % 16)) by (nonlinear_arith)
        requires
            (value / 16) as int == m * q + r,
            value == 16 * (value / 16) + value % 16,
    ;
    assert(0 <= r < m) by (nonlinear_arith)
        requires
            r == (value / 16) as int % m,
            m > 0,
    ;
    vstd::arithmetic::div_mod::lemma_fundamental_div_mod_converse(
        value as int,
        16 * m,
        q,
        16 * r + value as int % 16,
    );
}

proof fn lemma_sixteens_positive(digits: nat)
    ensures
        sixteens(digits) > 0,
    decreases digits,
{
    if digits > 0 {
        lemma_sixteens_positive((digits - 1) as nat);
    }
}

/// Which characters are white space: of ASCII the five from the tab to the carriage return and the
/// space, the two of Latin-1, the ogham space, the eleven spaces of general punctuation with its
/// line and paragraph separators, its narrow and its mathematical space, and the ideographic one.
pub proof fn which_characters_are_white_space(c: char)
    ensures
        ({
            let code = c as int;
            &&& code < 0x80 ==> (white_space(c) <==> 0x09 <= code <= 0x0d || code == 0x20)
            &&& 0x80 <= code < 0x2000 ==> (white_space(c) <==> code == 0x85 || code == 0xa0 || code
                == 0x1680)
            &&& 0x2000 <= code ==> (white_space(c) <==> code <= 0x200a || code == 0x2028 || code
                == 0x2029 || code == 0x202f || code == 0x205f || code == 0x3000)
        }),
{
}

} // verus!
