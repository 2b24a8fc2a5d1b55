//! The names an operator types against the bits they set.

use lorica::wire::settings::{DEFAULT_SETTINGS, OPERATOR_SETTINGS, STAGE_CUTOFF_SHIFT};
use lorica::{setting, settings_word, NO_CUTOFF, SIGNATURE_VECTORS_ALL};

/// The bits the loader sets itself: a criterion it evaluates, and a capability it asks for.
const LOADER_OWNED: u32 = setting::URPF_ENFORCE | setting::MARK_OVER_BUDGET;

#[test]
fn the_table_names_every_bit_that_is_not_the_loaders() {
    let named = OPERATOR_SETTINGS
        .iter()
        .fold(0, |word, (_, bit)| word | bit);

    let all = named | LOADER_OWNED;
    assert_eq!(
        all, 0xff,
        "the policy word spells {all:#x}: a bit belongs to the table or to the loader, and one \
         that belongs to neither is a knob nobody can set"
    );
    assert_eq!(
        named & LOADER_OWNED,
        0,
        "a bit is both named for the operator and set by the loader"
    );
}

#[test]
fn no_two_names_set_the_same_bit() {
    for (i, (name, bit)) in OPERATOR_SETTINGS.iter().enumerate() {
        for (other, other_bit) in &OPERATOR_SETTINGS[i + 1..] {
            assert_ne!(bit, other_bit, "{name} and {other} set the same bit");
        }
    }
}

#[test]
fn a_list_sets_exactly_the_bits_it_names() {
    assert_eq!(settings_word(""), Ok(DEFAULT_SETTINGS));
    assert_eq!(
        settings_word("enforce-signatures"),
        Ok(setting::ENFORCE_SIGNATURES)
    );
    assert_eq!(
        settings_word("enforce-signatures,enforce-buckets"),
        Ok(setting::ENFORCE_SIGNATURES | setting::ENFORCE_BUCKETS)
    );
    // Whitespace and a trailing comma are how a shell-quoted list arrives.
    assert_eq!(
        settings_word(" enforce-buckets , drop-icmp-echo ,"),
        Ok(setting::ENFORCE_BUCKETS | setting::DROP_ICMP_ECHO)
    );
    // The word is a set.
    assert_eq!(
        settings_word("enforce-buckets,enforce-buckets"),
        Ok(setting::ENFORCE_BUCKETS)
    );
}

#[test]
fn an_unknown_name_is_refused_and_named() {
    assert_eq!(
        settings_word("enforce-buckets,enforce-signature"),
        Err("enforce-signature")
    );
    // A bit the loader owns is refused by the same path.
    assert_eq!(settings_word("urpf-enforce"), Err("urpf-enforce"));
    assert_eq!(settings_word("mark-over-budget"), Err("mark-over-budget"));
}

/// The upper half of the word is the stage cutoff of a measurement build.
#[test]
fn no_name_reaches_the_stage_cutoff_half() {
    for (name, bit) in OPERATOR_SETTINGS {
        assert_eq!(
            bit >> STAGE_CUTOFF_SHIFT,
            0,
            "{name} sets {bit:#x}, which overlaps the stage cutoff"
        );
    }
}

#[test]
fn every_name_sets_its_own_bit() {
    for (name, bit) in OPERATOR_SETTINGS {
        assert_eq!(settings_word(name), Ok(bit));
    }
    assert_eq!(
        OPERATOR_SETTINGS.iter().map(|(name, _)| *name).collect::<Vec<&str>>().join(","),
        "accept-ip-options,drop-icmp-echo,drop-icmp-other,allow-later-fragments,\
         enforce-signatures,enforce-buckets"
    );
    assert_eq!(NO_CUTOFF, 0);
    assert_eq!(SIGNATURE_VECTORS_ALL, 0x3ff);
}

/// The first name that is not one is the one that is told, trimmed.
#[test]
fn the_first_unknown_name_is_told() {
    assert_eq!(settings_word(" , first , second"), Err("first"));
    assert_eq!(settings_word("\u{a0}drop-icmp-other\u{a0}"), Ok(setting::DROP_ICMP_OTHER));
}
