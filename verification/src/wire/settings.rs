//! The policy word an operator spells, and the symbols the loader patches.

use vstd::prelude::*;

use super::setting;
use crate::text::{chars_of, find_char, run_is, trim};

verus! {

/// What the program runs with when the operator has said nothing: refuse IP options, pass ICMP,
/// drop later fragments.
pub const DEFAULT_SETTINGS: u32 = 0;

/// The bits an operator may set, and the name each is set by.
///
/// Six of the eight, because two are not the operator's to choose: a name for
/// [`setting::URPF_ENFORCE`] or [`setting::MARK_OVER_BUDGET`] would let an operator claim a
/// verdict the machine cannot deliver.
pub const OPERATOR_SETTINGS: [(&'static str, u32); 6] = [
    ("accept-ip-options", setting::ACCEPT_IP_OPTIONS),
    ("drop-icmp-echo", setting::DROP_ICMP_ECHO),
    ("drop-icmp-other", setting::DROP_ICMP_OTHER),
    ("allow-later-fragments", setting::ALLOW_LATER_FRAGMENTS),
    ("enforce-signatures", setting::ENFORCE_SIGNATURES),
    ("enforce-buckets", setting::ENFORCE_BUCKETS),
];

/// Where the measurement build reads the pipeline cutoff from, in the same word.
pub const STAGE_CUTOFF_SHIFT: u32 = 16;

/// The cutoff value that runs the whole pipeline.
pub const NO_CUTOFF: u32 = 0;

/// The symbol the loader patches with the policy word.
pub const SETTINGS_SYMBOL: &'static str = "SETTINGS";

/// The two halves of the 128-bit key the bucket index is hashed with, drawn at load and never
/// persisted.
pub const BUCKET_KEY_SYMBOLS: [&'static str; 2] = ["BUCKET_KEY0", "BUCKET_KEY1"];

/// The two budgets the bucket stage charges against, as `(rate, burst)` symbol pairs: normal
/// first, then the one a signature match routes a packet to.
pub const BUCKET_RATE_SYMBOLS: [[&'static str; 2]; 2] = [
    ["BUCKET_NORMAL_RATE", "BUCKET_NORMAL_BURST"],
    ["BUCKET_SUSPECT_RATE", "BUCKET_SUSPECT_BURST"],
];

/// Dead words read between the load and the store of a bucket. Zero in every load that is not a
/// measurement.
pub const BUCKET_STALL_SYMBOL: &'static str = "BUCKET_STALL";

/// One bit per vector of the signature catalogue, in catalogue order.
pub const SIGNATURE_VECTORS_SYMBOL: &'static str = "SIGNATURE_VECTORS";

/// The whole catalogue, ten vectors.
pub const SIGNATURE_VECTORS_ALL: u32 = 0x3ff;

/// The bit a name sets: that of the first row, from `from` on, which carries the name.
pub open spec fn named_bit(name: Seq<char>, from: int) -> Option<u32>
    decreases OPERATOR_SETTINGS@.len() - from,
{
    if from >= OPERATOR_SETTINGS@.len() {
        None
    } else if OPERATOR_SETTINGS@[from].0@ == name {
        Some(OPERATOR_SETTINGS@[from].1)
    } else {
        named_bit(name, from + 1)
    }
}

/// The word a list of fields adds to: a blank field adds nothing, and a name its bit. The first
/// field that is neither is the error.
pub open spec fn spelled(fields: Seq<Seq<char>>, word: u32) -> Result<u32, Seq<char>>
    decreases fields.len(),
{
    if fields.len() == 0 {
        Ok(word)
    } else {
        let name = crate::text::trimmed(fields[0]);
        if name.len() == 0 {
            spelled(fields.drop_first(), word)
        } else {
            match named_bit(name, 0) {
                Some(bit) => spelled(fields.drop_first(), word | bit),
                None => Err(name),
            }
        }
    }
}

/// The policy word a list spells, or the first name of it that is not one.
pub open spec fn word_of(list: Seq<char>) -> Result<u32, Seq<char>> {
    spelled(crate::text::split(list, ','), DEFAULT_SETTINGS)
}

/// A list is its fields: two lists with a comma between spell the bits of both, and are refused
/// where one of them is, by the first of them that is. A blank list spells nothing.
pub proof fn two_lists_spell_the_bits_of_both(field: Seq<char>, rest: Seq<char>)
    requires
        forall|i: int| 0 <= i < field.len() ==> #[trigger] field[i] != ',',
    ensures
        word_of(Seq::empty()) == Ok::<u32, Seq<char>>(0),
        match (word_of(field), word_of(rest)) {
            (Ok(a), Ok(b)) => word_of(field.push(',') + rest) == Ok::<u32, Seq<char>>(a | b),
            (Err(name), _) => word_of(field.push(',') + rest) == Err::<u32, Seq<char>>(name),
            (Ok(_), Err(name)) => word_of(field.push(',') + rest) == Err::<u32, Seq<char>>(name),
        },
{
    reveal_with_fuel(spelled, 2);
    let none = Seq::<char>::empty();
    crate::text::a_run_is_split_off(none, none, ',');
    assert(seq![none].drop_first() =~= Seq::empty());
    crate::text::a_run_is_split_off(field, rest, ',');
    let fields = seq![field] + crate::text::split(rest, ',');
    assert(fields.drop_first() =~= crate::text::split(rest, ','));
    assert(seq![field].drop_first() =~= Seq::empty());
    let name = crate::text::trimmed(field);
    assert(0u32 | 0u32 == 0) by (bit_vector);
    if name.len() == 0 {
        lemma_spelled_from(crate::text::split(rest, ','), 0);
    } else if let Some(bit) = named_bit(name, 0) {
        assert(0u32 | bit == bit) by (bit_vector);
        lemma_spelled_from(crate::text::split(rest, ','), bit);
    }
}

/// What a list adds does not depend on what it is added to.
proof fn lemma_spelled_from(fields: Seq<Seq<char>>, word: u32)
    ensures
        match spelled(fields, 0) {
            Ok(bits) => spelled(fields, word) == Ok::<u32, Seq<char>>(word | bits),
            Err(name) => spelled(fields, word) == Err::<u32, Seq<char>>(name),
        },
    decreases fields.len(),
{
    assert(word | 0u32 == word) by (bit_vector);
    if fields.len() > 0 {
        let name = crate::text::trimmed(fields[0]);
        let rest = fields.drop_first();
        if name.len() == 0 {
            lemma_spelled_from(rest, word);
        } else if let Some(bit) = named_bit(name, 0) {
            lemma_spelled_from(rest, 0u32 | bit);
            lemma_spelled_from(rest, word | bit);
            if let Ok(bits) = spelled(rest, 0) {
                assert((word | bit) | bits == word | ((0u32 | bit) | bits)) by (bit_vector);
            }
        }
    }
}

/// The policy word a comma-separated list of names spells, or the first name that is not one.
///
/// Empty fragments are skipped, so a trailing comma is not an error. An unknown one is, rather
/// than a warning: a typo that silently leaves a stage observing is the failure an operator
/// finds during the attack it was meant to stop.
pub fn settings_word(list: &str) -> (word: Result<u32, &str>)
    ensures
        match word {
            Ok(bits) => word_of(list@) == Ok::<u32, Seq<char>>(bits),
            Err(name) => word_of(list@) == Err::<u32, Seq<char>>(name@),
        },
        match word {
            Ok(bits) => spelled(crate::text::split(list@, ','), DEFAULT_SETTINGS) == Ok::<
                u32,
                Seq<char>,
            >(bits),
            Err(name) => spelled(crate::text::split(list@, ','), DEFAULT_SETTINGS) == Err::<
                u32,
                Seq<char>,
            >(name@),
        },
{
    let chars: Vec<char> = chars_of(list);
    let len: usize = chars.len();
    let mut word: u32 = DEFAULT_SETTINGS;
    let mut from: usize = 0;
    assert(list@.skip(0) =~= list@);
    loop
        invariant
            chars@ == list@,
            len == chars@.len(),
            from <= len,
            spelled(crate::text::split(list@, ','), DEFAULT_SETTINGS) == spelled(
                crate::text::split(list@.skip(from as int), ','),
                word,
            ),
        decreases len - from,
    {
        let end: usize = find_char(&chars, ',', from, len);
        let (start, stop) = trim(&chars, from, end);
        proof {
            reveal_with_fuel(spelled, 2);
            let rest = list@.skip(from as int);
            assert(chars@.subrange(from as int, len as int) =~= rest);
            assert(chars@.subrange(from as int, end as int) =~= rest.take(end - from));
            assert(end == len ==> rest.take(end - from) =~= rest);
            assert(end < len ==> rest.skip(end - from + 1) =~= list@.skip(end + 1));
            let fields = crate::text::split(rest, ',');
            assert(fields[0] == chars@.subrange(from as int, end as int));
            assert(end == len ==> fields.drop_first() =~= Seq::empty());
            assert(end < len ==> fields.drop_first() =~= crate::text::split(
                list@.skip(end + 1),
                ',',
            ));
        }
        if start < stop {
            match operator_bit(&chars, start, stop) {
                Some(bit) => {
                    word = word | bit;
                },
                None => {
                    return Err(list.substring_char(start, stop));
                },
            }
        }
        if end == len {
            return Ok(word);
        }
        from = end + 1;
    }
}

/// The bit the characters `from` to `to` name.
fn operator_bit(chars: &[char], from: usize, to: usize) -> (bit: Option<u32>)
    requires
        from <= to <= chars@.len(),
    ensures
        bit == named_bit(chars@.subrange(from as int, to as int), 0),
{
    let ghost name = chars@.subrange(from as int, to as int);
    let mut row: usize = 0;
    while row < 6
        invariant
            row <= 6,
            from <= to <= chars@.len(),
            name == chars@.subrange(from as int, to as int),
            named_bit(name, 0) == named_bit(name, row as int),
        decreases 6 - row,
    {
        if run_is(chars, from, to, OPERATOR_SETTINGS[row].0) {
            return Some(OPERATOR_SETTINGS[row].1);
        }
        row += 1;
    }
    None
}

/// Whether a list names a setting.
pub open spec fn names(fields: Seq<Seq<char>>, row: int) -> bool {
    exists|i: int|
        0 <= i < fields.len() && crate::text::trimmed(#[trigger] fields[i]) == OPERATOR_SETTINGS@[row].0@
}

/// A list that is accepted sets exactly the bits it names: each of the operator's bits where one
/// of its fields is the name of that bit, and no other. So no list reaches the bits of the
/// loader or the half of the word that holds the stage cutoff, and naming one twice is naming it
/// once.
pub proof fn a_list_sets_exactly_the_bits_it_names(list: Seq<char>, word: u32)
    requires
        spelled(crate::text::split(list, ','), DEFAULT_SETTINGS) == Ok::<u32, Seq<char>>(word),
    ensures
        forall|row: int|
            0 <= row < 6 ==> (#[trigger] (word & OPERATOR_SETTINGS@[row].1) != 0 <==> names(
                crate::text::split(list, ','),
                row,
            )),
        word & !0x6fu32 == 0,
        word & (setting::URPF_ENFORCE | setting::MARK_OVER_BUDGET) == 0,
        word >> STAGE_CUTOFF_SHIFT == 0,
{
    assert(0u32 & !0x6fu32 == 0) by (bit_vector);
    let fields = crate::text::split(list, ',');
    lemma_spelled_stays_inside(fields, 0, word);
    assert forall|row: int| 0 <= row < 6 implies (#[trigger] (word & OPERATOR_SETTINGS@[row].1) != 0
        <==> names(fields, row)) by {
        lemma_spelled(fields, 0, word, row);
        let bit = OPERATOR_SETTINGS@[row].1;
        assert(0u32 & bit == 0) by (bit_vector);
    }
    assert(word & (0x10u32 | 0x80u32) == 0 && word >> 16u32 == 0) by (bit_vector)
        requires
            word & !0x6fu32 == 0,
    ;
}

proof fn lemma_spelled_stays_inside(fields: Seq<Seq<char>>, before: u32, word: u32)
    requires
        spelled(fields, before) == Ok::<u32, Seq<char>>(word),
        before & !0x6fu32 == 0,
    ensures
        word & !0x6fu32 == 0,
    decreases fields.len(),
{
    if fields.len() > 0 {
        let name = crate::text::trimmed(fields[0]);
        if name.len() == 0 {
            lemma_spelled_stays_inside(fields.drop_first(), before, word);
        } else {
            lemma_named_bit(name, 0);
            let bit = named_bit(name, 0)->0;
            assert((before | bit) & !0x6fu32 == 0) by (bit_vector)
                requires
                    before & !0x6fu32 == 0,
                    bit == 1 || bit == 2 || bit == 4 || bit == 8 || bit == 0x20 || bit == 0x40,
            ;
            lemma_spelled_stays_inside(fields.drop_first(), before | bit, word);
        }
    }
}

/// The bit of a name belongs to a row that carries the name.
proof fn lemma_named_bit(name: Seq<char>, from: int)
    requires
        0 <= from,
    ensures
        named_bit(name, from) matches Some(bit) ==> exists|row: int|
            from <= row < 6 && OPERATOR_SETTINGS@[row].0@ == name && bit == (
            #[trigger] OPERATOR_SETTINGS@[row]).1,
    decreases 6 - from,
{
    if from < 6 && OPERATOR_SETTINGS@[from].0@ != name {
        lemma_named_bit(name, from + 1);
    }
}

/// No two names of the table are the same, and none is blank.
pub proof fn the_names_are_distinct(a: int, b: int)
    requires
        0 <= a < 6,
        0 <= b < 6,
    ensures
        OPERATOR_SETTINGS@[a].0@ == OPERATOR_SETTINGS@[b].0@ ==> a == b,
        OPERATOR_SETTINGS@[a].1 == OPERATOR_SETTINGS@[b].1 ==> a == b,
        OPERATOR_SETTINGS@[a].0@.len() > 0,
{
    reveal_strlit("accept-ip-options");
    reveal_strlit("drop-icmp-echo");
    reveal_strlit("drop-icmp-other");
    reveal_strlit("allow-later-fragments");
    reveal_strlit("enforce-signatures");
    reveal_strlit("enforce-buckets");
    assert("accept-ip-options"@.len() == 17);
    assert("drop-icmp-echo"@.len() == 14);
    assert("drop-icmp-other"@.len() == 15);
    assert("allow-later-fragments"@.len() == 21);
    assert("enforce-signatures"@.len() == 18);
    assert("enforce-buckets"@.len() == 15);
    assert("drop-icmp-other"@[0] == 'd');
    assert("enforce-buckets"@[0] == 'e');
    let rows = OPERATOR_SETTINGS@;
    assert(rows[0].0@.len() == 17 && rows[1].0@.len() == 14 && rows[2].0@.len() == 15
        && rows[3].0@.len() == 21 && rows[4].0@.len() == 18 && rows[5].0@.len() == 15);
    assert(rows[2].0@[0] == 'd' && rows[5].0@[0] == 'e');
}

proof fn lemma_spelled(fields: Seq<Seq<char>>, before: u32, word: u32, row: int)
    requires
        0 <= row < 6,
        spelled(fields, before) == Ok::<u32, Seq<char>>(word),
    ensures
        word & OPERATOR_SETTINGS@[row].1 != 0 <==> (before & OPERATOR_SETTINGS@[row].1 != 0
            || names(fields, row)),
    decreases fields.len(),
{
    if fields.len() > 0 {
        let name = crate::text::trimmed(fields[0]);
        let rest = fields.drop_first();
        assert forall|i: int| 0 <= i < rest.len() implies #[trigger] rest[i] == fields[i + 1] by {}
        the_names_are_distinct(row, row);
        if name.len() == 0 {
            lemma_spelled(rest, before, word, row);
            assert(names(fields, row) <==> names(rest, row)) by {
                if names(fields, row) {
                    let i = choose|i: int|
                        0 <= i < fields.len() && crate::text::trimmed(#[trigger] fields[i])
                            == OPERATOR_SETTINGS@[row].0@;
                    assert(rest[i - 1] == fields[i]);
                }
            }
        } else {
            lemma_named_bit(name, 0);
            let bit = named_bit(name, 0)->0;
            let held = choose|r: int|
                0 <= r < 6 && OPERATOR_SETTINGS@[r].0@ == name && bit == (
                #[trigger] OPERATOR_SETTINGS@[r]).1;
            the_names_are_distinct(held, row);
            let own = OPERATOR_SETTINGS@[row].1;
            assert((before | bit) & own != 0 <==> (before & own != 0 || bit == own)) by (bit_vector)
                requires
                    bit == 1 || bit == 2 || bit == 4 || bit == 8 || bit == 0x20 || bit == 0x40,
                    own == 1 || own == 2 || own == 4 || own == 8 || own == 0x20 || own == 0x40,
            ;
            lemma_spelled(rest, before | bit, word, row);
            assert(names(fields, row) <==> (held == row || names(rest, row))) by {
                if names(fields, row) {
                    let i = choose|i: int|
                        0 <= i < fields.len() && crate::text::trimmed(#[trigger] fields[i])
                            == OPERATOR_SETTINGS@[row].0@;
                    if i > 0 {
                        assert(rest[i - 1] == fields[i]);
                    }
                }
                if held == row {
                    assert(crate::text::trimmed(fields[0]) == OPERATOR_SETTINGS@[row].0@);
                }
            }
        }
    }
}

/// Whether a field of a list can stand: it is blank, or the name of a setting.
pub open spec fn may_stand(field: Seq<char>) -> bool {
    crate::text::trimmed(field).len() == 0 || exists|row: int|
        0 <= row < 6 && #[trigger] OPERATOR_SETTINGS@[row].0@ == crate::text::trimmed(field)
}

/// A list is refused for its first field that is neither blank nor the name of a setting, and by
/// that field without the white space around it; where every field is one or the other it is
/// taken.
pub proof fn a_list_is_refused_for_its_first_unknown_name(
    fields: Seq<Seq<char>>,
    word: u32,
    i: int,
)
    ensures
        0 <= i < fields.len() && !may_stand(fields[i]) && (forall|j: int|
            0 <= j < i ==> may_stand(#[trigger] fields[j])) ==> spelled(fields, word) == Err::<
            u32,
            Seq<char>,
        >(crate::text::trimmed(fields[i])),
        (forall|j: int| 0 <= j < fields.len() ==> may_stand(#[trigger] fields[j])) ==> spelled(
            fields,
            word,
        ) is Ok,
    decreases fields.len(),
{
    if fields.len() > 0 {
        let name = crate::text::trimmed(fields[0]);
        let rest = fields.drop_first();
        lemma_named_where_listed(name, 0);
        lemma_named_bit(name, 0);
        assert forall|j: int| 0 <= j < rest.len() implies #[trigger] rest[j] == fields[j + 1] by {}
        let next = if name.len() == 0 {
            word
        } else {
            word | named_bit(name, 0)->0
        };
        a_list_is_refused_for_its_first_unknown_name(rest, next, i - 1);
        assert(may_stand(fields[0]) <==> name.len() == 0 || named_bit(name, 0) is Some);
        if forall|j: int| 0 <= j < fields.len() ==> may_stand(#[trigger] fields[j]) {
            assert forall|j: int| 0 <= j < rest.len() implies may_stand(#[trigger] rest[j]) by {
                assert(may_stand(fields[j + 1]));
            }
        }
        if 0 < i < fields.len() && !may_stand(fields[i]) && (forall|j: int|
            0 <= j < i ==> may_stand(#[trigger] fields[j])) {
            assert(rest[i - 1] == fields[i]);
            assert forall|j: int| 0 <= j < i - 1 implies may_stand(#[trigger] rest[j]) by {
                assert(may_stand(fields[j + 1]));
            }
        }
    }
}

/// A name that a row carries has a bit.
proof fn lemma_named_where_listed(name: Seq<char>, from: int)
    requires
        0 <= from,
    ensures
        named_bit(name, from) is Some <==> exists|row: int|
            from <= row < 6 && #[trigger] OPERATOR_SETTINGS@[row].0@ == name,
    decreases 6 - from,
{
    if from < 6 {
        lemma_named_where_listed(name, from + 1);
        if named_bit(name, from) is Some && OPERATOR_SETTINGS@[from].0@ != name {
            let row = choose|row: int|
                from + 1 <= row < 6 && #[trigger] OPERATOR_SETTINGS@[row].0@ == name;
            assert(OPERATOR_SETTINGS@[row].0@ == name);
        }
    }
}

/// Which names set a bit, and which bit each sets, as the program tests it: these six, and no
/// other name sets any.
pub proof fn the_bits_of_the_names(name: Seq<char>, bit: u32)
    ensures
        named_bit(name, 0) == Some(bit) <==> {
            ||| name == "accept-ip-options"@ && bit == 0x01
            ||| name == "drop-icmp-echo"@ && bit == 0x02
            ||| name == "drop-icmp-other"@ && bit == 0x04
            ||| name == "allow-later-fragments"@ && bit == 0x08
            ||| name == "enforce-signatures"@ && bit == 0x20
            ||| name == "enforce-buckets"@ && bit == 0x40
        },
{
    reveal_with_fuel(named_bit, 7);
    the_names_are_distinct(0, 1);
    the_names_are_distinct(0, 2);
    the_names_are_distinct(0, 3);
    the_names_are_distinct(0, 4);
    the_names_are_distinct(0, 5);
    the_names_are_distinct(1, 2);
    the_names_are_distinct(1, 3);
    the_names_are_distinct(1, 4);
    the_names_are_distinct(1, 5);
    the_names_are_distinct(2, 3);
    the_names_are_distinct(2, 4);
    the_names_are_distinct(2, 5);
    the_names_are_distinct(3, 4);
    the_names_are_distinct(3, 5);
    the_names_are_distinct(4, 5);
}

} // verus!
