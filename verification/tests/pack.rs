use nasty_dx_dumper::pack::{pack, Replacement};
use nasty_dx_dumper::sorted_map::SortedMap;
use nasty_dx_dumper::spt::{Plan, RefKind, StringRef, WalkStats, TERMINATOR};

fn put(buf: &mut [u8], at: usize, value: u16) {
    buf[at..at + 2].copy_from_slice(&value.to_be_bytes());
}

/// A script with no arena: one string at 0x40 read through two table slots.
fn no_arena_script() -> (Vec<u8>, Plan) {
    let mut buf = vec![0u8; 0x80];
    put(&mut buf, 0x10, 0x40);
    put(&mut buf, 0x12, 0x40);
    put(&mut buf, 0x40, 1);
    put(&mut buf, 0x42, TERMINATOR);
    let slot = |at: usize| StringRef { at, offset: 0x40, end: 0x44, kind: RefKind::Table(2), slot: Some(at), jp: "A".to_string() };
    let stats = WalkStats { steps: 0, sentinel: true, unknown: SortedMap::new(), arrays: 0, targets: 0, cmds: SortedMap::new() };
    let p = Plan { strings: vec![slot(0x10), slot(0x12)], stats, dir_words: 2, script_end: 0x44, record_cursor: 0x10000 };
    (buf, p)
}

/// Recycling frees a string's bytes, so replacing only some of its
/// references is refused, keyed by the first one left.
#[test]
fn recycling_refuses_a_string_left_half_replaced() {
    let (buf, p) = no_arena_script();
    let repl = [Replacement { at: 0x10, offset: 0x40, codes: vec![2] }];
    let refusals = match pack(&buf, &p, &repl) {
        Err(refusals) => refusals,
        Ok(_) => panic!("recycling accepted it"),
    };
    assert_eq!(refusals.len(), 1);
    assert_eq!(refusals[0].key, Some((0x12, 0x40)));
    assert!(refusals[0].why.message().starts_with("1 of 2 references to this string were left as Japanese (first at 0x0012)"));
}

/// Without an arena a text can be no longer than the one it replaces: each
/// reference to the string is refused.
#[test]
fn recycling_refuses_a_text_longer_than_the_japanese() {
    let (buf, p) = no_arena_script();
    let repl = [
        Replacement { at: 0x10, offset: 0x40, codes: vec![2, 1, 2] },
        Replacement { at: 0x12, offset: 0x40, codes: vec![2, 1, 2] },
    ];
    let refusals = match pack(&buf, &p, &repl) {
        Err(refusals) => refusals,
        Ok(_) => panic!("recycling accepted it"),
    };
    assert_eq!(refusals.iter().map(|r| r.key).collect::<Vec<_>>(), [Some((0x10, 0x40)), Some((0x12, 0x40))]);
    assert!(refusals[0].why.message().starts_with("string 0x0040-0x0044 holds 2 words and the replacement needs 4: 2 too many"));
}

/// A text that fits is written over the Japanese, the rest of its bytes
/// reading as terminators.
#[test]
fn recycling_writes_a_text_that_fits_in_place() {
    let (buf, p) = no_arena_script();
    let repl = [
        Replacement { at: 0x10, offset: 0x40, codes: vec![2] },
        Replacement { at: 0x12, offset: 0x40, codes: vec![2] },
    ];
    let packed = pack(&buf, &p, &repl).unwrap();
    let mut want = buf.clone();
    put(&mut want, 0x40, 2);
    assert_eq!(packed.bytes, want);
}
