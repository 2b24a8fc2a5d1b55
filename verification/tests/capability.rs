//! What a kernel has, from its release and its symbols.

use lorica::capability::matrix::Capability;
use lorica::capability::probe::{defines, detect_all, parse_release};

#[test]
fn a_release_is_its_first_two_numbers() {
    assert_eq!(parse_release("6.15.4-arch1-1\n"), Some((6, 15)));
    assert_eq!(parse_release("7.1"), Some((7, 1)));
    assert_eq!(parse_release(" +5.04.0 "), Some((5, 4)));
    assert_eq!(parse_release("6"), None);
    assert_eq!(parse_release("6.15-rc1"), None);
    assert_eq!(parse_release("6."), None);
    assert_eq!(parse_release("4294967296.1"), None);
    assert_eq!(parse_release(""), None);
}

fn chars(text: &str) -> Vec<char> {
    text.chars().collect()
}

#[test]
fn a_symbol_is_the_third_word_of_a_line() {
    let table = chars("0000 T other\n0000 t bpf_Qdisc_ops [sch_bpf]\n0000 D arena_map_ops_x\n");
    assert!(defines(&table, "bpf_Qdisc_ops"));
    assert!(defines(&table, "other"));
    assert!(!defines(&table, "arena_map_ops"));
    assert!(!defines(&table, "T"));
    assert!(!defines(&[], "other"));
}

fn available(release: Option<(u32, u32)>, symbols: Option<&str>) -> Vec<Capability> {
    detect_all(release, symbols)
        .iter()
        .filter(|found| found.available)
        .map(|found| found.cap)
        .collect()
}

#[test]
fn a_release_tells_the_capabilities_no_symbol_tells() {
    assert_eq!(available(Some((6, 8)), None), vec![]);
    assert_eq!(available(Some((6, 15)), None), vec![Capability::CpumapGro, Capability::BpfArena]);
    assert_eq!(available(Some((7, 1)), None), Capability::ALL.to_vec());
    assert_eq!(available(None, None), vec![]);
}

/// A symbol survives a backport, and catches an option that is off.
#[test]
fn a_symbol_is_preferred_over_the_release() {
    let symbols = "0 T arena_map_ops\n";
    assert_eq!(available(Some((5, 4)), Some(symbols)), vec![Capability::BpfArena]);
    assert_eq!(
        available(Some((7, 1)), Some("")),
        vec![
            Capability::CpumapGro,
            Capability::MultiByteMeta,
            Capability::RehashFlows,
            Capability::QueueLeasing
        ]
    );
}

/// What one release tells, every later one tells too.
#[test]
fn a_newer_release_loses_nothing() {
    let mut before = vec![];
    for release in [(5, 19), (6, 0), (6, 9), (6, 15), (6, 16), (6, 18), (6, 19), (7, 0), (7, 1)] {
        let now = available(Some(release), None);
        assert!(before.iter().all(|cap| now.contains(cap)), "{release:?}");
        before = now;
    }
}

#[test]
fn every_capability_has_its_row() {
    for (found, cap) in detect_all(None, None).iter().zip(Capability::ALL) {
        assert_eq!(found.cap, cap);
        assert_eq!(cap.row().cap, cap);
        assert_eq!(found.fallback, cap.row().fallback);
    }
    assert_eq!(Capability::QueueLeasing.row().name, "queue_leasing");
    assert_eq!(Capability::XdpPullData.row().symbol, Some("bpf_xdp_pull_data"));
    assert_eq!(Capability::RehashFlows.row().since, (6, 19));
}
