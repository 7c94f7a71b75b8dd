use nasty_dx_dumper::verdicts::relocatable_constants;

/// The lines of `text-refs.json` these tests read, as the export writes them.
const TEXT_REFS: &str = r#"{
  "0x80257808": {"relocatable": false, "blocked_by": ["PTRADD", "INDEXED"]},
  "0x8025791c": {"relocatable": true, "uses": 2},
  "0x80257948": {"relocatable": true, "uses": 1},
  "0x80257a00": {"relocatable": false},
  "not an entry": {"relocatable": true},
  "0xzz": {"relocatable": true}
}"#;

/// The egg-space digging lines were translated and their pointer word was
/// relocated, while the code that builds their address directly was left
/// alone, so one route through the game showed English and the other
/// Japanese. Both are on the branch-crossing shape the old linear walk
/// rejected out of hand.
#[test]
fn the_excavation_point_lines_are_relocatable() {
    let verdicts = relocatable_constants(TEXT_REFS);
    for addr in [0x8025_791c, 0x8025_7948] {
        assert!(verdicts.ok.contains(&addr), "0x{addr:08x} is not relocatable: {:?}", verdicts.blocked.get(&addr));
    }
}

/// A table base is not one string and cannot move on its own. The old walk
/// accepted this one; Ghidra sees the indexing.
#[test]
fn a_table_base_is_not_relocatable() {
    let verdicts = relocatable_constants(TEXT_REFS);
    assert!(!verdicts.ok.contains(&0x8025_7808));
    assert!(verdicts.blocked[&0x8025_7808].contains("PTRADD"));
}

#[test]
fn a_blocked_address_carries_its_reasons_without_quotes() {
    let verdicts = relocatable_constants(TEXT_REFS);
    assert_eq!(verdicts.blocked[&0x8025_7808], "PTRADD, INDEXED");
    // blocked with no reason given
    assert_eq!(verdicts.blocked[&0x8025_7a00], "");
    // lines that are not entries are passed over
    assert_eq!(verdicts.ok.len(), 2);
    assert_eq!(verdicts.blocked.len(), 2);
}
