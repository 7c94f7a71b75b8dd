use std::collections::HashMap;

use nasty_dx_dumper::spt::{check, check_variadic_args, jump_array, native_tables, obj_text_arrays, plan, tables, RefKind, StringRef, END, TERMINATOR};

fn put(buf: &mut [u8], at: usize, value: u16) {
    buf[at..at + 2].copy_from_slice(&value.to_be_bytes());
}

fn ab_glyphs() -> HashMap<u16, String> {
    HashMap::from([(1, "A".to_string()), (2, "B".to_string())])
}

#[test]
fn complete_string_expansion_reserves_a_word_for_the_terminator() {
    assert!(check(&vec![0; 255], &[], None).is_ok());
    let error = check(&vec![0; 256], &[], None).unwrap_err();
    assert!(error.message().contains("255-code expansion cap"));
}

#[test]
fn variadic_argument_families_keep_their_count_and_order() {
    // The status-damage crash: the call supplies player text, ailment
    // text, then damage. Moving the integer before the second string made
    // the damage value (0x84 in the observed crash) become a text pointer.
    let original = [0x4006, 0x2000, 0x4003, 0x2000, 0x3800, 0x1000];
    let reordered = [0x4006, 0x2000, 0x3800, 0x1000, 0x4003, 0x2000];
    let error = check_variadic_args(&original, &reordered).unwrap_err();
    assert!(error.message().contains("[2000, 2000, 1000] -> [2000, 1000, 2000]"));

    // Moving non-consuming controls is fine, and changing a field width
    // keeps the same argument type because only the family is compared.
    let safe = [0x2007, 0x3800, 0x4006, 0x2001, 0x1003];
    assert!(check_variadic_args(&original, &safe).is_ok());

    assert!(check_variadic_args(&[0x2000], &[0x2000, 0x1000]).is_err());
    assert!(check_variadic_args(&[0x2000, 0x1000], &[0x2000]).is_err());
}

#[test]
fn nested_native_string_tables_are_discovered_with_leaf_slots() {
    let mut buf = vec![0u8; 0x200];
    // Two outer entries. The first value proves the outer table ends at
    // 0x24; each inner table then ends at 0xffff.
    put(&mut buf, 0x20, 0x24);
    put(&mut buf, 0x22, 0x2a);
    put(&mut buf, 0x24, 0x100);
    put(&mut buf, 0x26, 0x104);
    put(&mut buf, 0x28, 0xffff);
    put(&mut buf, 0x2a, 0x108);
    put(&mut buf, 0x2c, 0xffff);
    put(&mut buf, 0x100, 1);
    put(&mut buf, 0x102, TERMINATOR);
    put(&mut buf, 0x104, 2);
    put(&mut buf, 0x106, TERMINATOR);
    put(&mut buf, 0x108, 1);
    put(&mut buf, 0x10a, 2);
    put(&mut buf, 0x10c, TERMINATOR);

    let glyphs = ab_glyphs();
    let found = native_tables(&buf, &[0x20], 4, buf.len(), &vec![false; buf.len()], &[], &glyphs);
    assert_eq!(found.len(), 3);
    assert_eq!(
        found.iter().map(|s| (s.slot, s.offset)).collect::<Vec<_>>(),
        [(Some(0x24), 0x100), (Some(0x26), 0x104), (Some(0x2a), 0x108)]
    );
    assert_eq!(found.iter().map(|s| s.jp.as_str()).collect::<Vec<_>>(), ["A", "B", "AB"]);
}

/// The two shapes a jump table comes in: bodies laid out right after it,
/// and a table the next command abuts.
#[test]
fn a_jump_table_ends_at_its_first_body_or_at_the_next_command() {
    let mut buf = vec![0u8; 0x40];
    // three cases whose bodies begin at 0x0a, where the table stops
    put(&mut buf, 0x04, 0x0a);
    put(&mut buf, 0x06, 0x0c);
    put(&mut buf, 0x08, 0x0e);
    put(&mut buf, 0x0a, END);
    put(&mut buf, 0x0c, END);
    put(&mut buf, 0x0e, END);
    assert_eq!(jump_array(&buf, 0x04, buf.len()), [0x0a, 0x0c, 0x0e]);

    // two cases far away, and then a 0x0702 command whose opcode reads as
    // the offset 0x0702 -- past the buffer, so it cannot be a target
    put(&mut buf, 0x20, 0x30);
    put(&mut buf, 0x22, 0x32);
    put(&mut buf, 0x24, 0x0702);
    put(&mut buf, 0x30, END);
    put(&mut buf, 0x32, END);
    assert_eq!(jump_array(&buf, 0x20, buf.len()), [0x30, 0x32]);

    // the same, with the stray offset in range but landing on nothing the
    // interpreter could run
    put(&mut buf, 0x24, 0x12);
    put(&mut buf, 0x12, 0xdead);
    assert_eq!(jump_array(&buf, 0x20, buf.len()), [0x30, 0x32]);
}

/// An `OBJ_TEXT` array runs to the zero padding, and every entry is a
/// writable slot -- the shape `drama09.spt:0x63c` has.
#[test]
fn an_obj_text_array_ends_where_its_entries_stop_decoding() {
    let mut buf = vec![0u8; 0x100];
    put(&mut buf, 0x40, 0x60);
    put(&mut buf, 0x42, 0x66);
    // 0x44 stays zero: the pad the arrays that end early are written with
    put(&mut buf, 0x60, 1);
    put(&mut buf, 0x62, 2);
    put(&mut buf, 0x64, TERMINATOR);
    put(&mut buf, 0x66, 2);
    put(&mut buf, 0x68, TERMINATOR);

    let glyphs = ab_glyphs();
    let mut cmds = vec![false; buf.len()];
    cmds[..0x10].fill(true);
    let found = obj_text_arrays(&buf, &[0x40, 0x40], 4, &cmds, &[], &glyphs);
    assert_eq!(
        found.iter().map(|s| (s.slot, s.offset, s.jp.as_str())).collect::<Vec<_>>(),
        [(Some(0x40), 0x60, "AB"), (Some(0x42), 0x66, "B")]
    );
    // a base the walk already claimed as a command is not an array
    assert!(obj_text_arrays(&buf, &[0x08], 4, &cmds, &[], &glyphs).is_empty());
}

/// A directory string table runs until a slot stops naming a string, and
/// stops early where an entry would overlap a string already known.
#[test]
fn a_directory_table_stops_at_its_first_bad_slot() {
    let mut buf = vec![0u8; 0x100];
    put(&mut buf, 0x04, 0x20);
    put(&mut buf, 0x20, 0x40);
    put(&mut buf, 0x22, 0x44);
    // 0x24 stays zero: an offset inside the directory ends the table
    put(&mut buf, 0x40, 1);
    put(&mut buf, 0x42, TERMINATOR);
    put(&mut buf, 0x44, 2);
    put(&mut buf, 0x46, 1);
    put(&mut buf, 0x48, TERMINATOR);

    let glyphs = ab_glyphs();
    let cmds = vec![false; buf.len()];
    let found = tables(&buf, 4, &cmds, &[], &glyphs);
    assert_eq!(
        found.iter().map(|s| (s.kind, s.slot, s.offset, s.end, s.jp.as_str())).collect::<Vec<_>>(),
        [(RefKind::Table(2), Some(0x20), 0x40, 0x44, "A"), (RefKind::Table(2), Some(0x22), 0x44, 0x4a, "BA")]
    );

    let known = [StringRef { at: 0, offset: 0x46, end: 0x48, kind: RefKind::Direct(0x0201), slot: None, jp: String::new() }];
    let found = tables(&buf, 4, &cmds, &known, &glyphs);
    assert_eq!(found.iter().map(|s| s.offset).collect::<Vec<_>>(), [0x40]);
}

/// One bad string anywhere in a nested native table voids the whole outer
/// table.
#[test]
fn a_native_table_with_one_bad_entry_yields_nothing() {
    let mut buf = vec![0u8; 0x200];
    put(&mut buf, 0x20, 0x24);
    put(&mut buf, 0x22, 0x2a);
    put(&mut buf, 0x24, 0x100);
    put(&mut buf, 0x26, 0x104);
    put(&mut buf, 0x28, 0xffff);
    put(&mut buf, 0x2a, 0x109);
    put(&mut buf, 0x2c, 0xffff);
    put(&mut buf, 0x100, 1);
    put(&mut buf, 0x102, TERMINATOR);
    put(&mut buf, 0x104, 2);
    put(&mut buf, 0x106, TERMINATOR);

    let glyphs = ab_glyphs();
    let found = native_tables(&buf, &[0x20], 4, buf.len(), &vec![false; buf.len()], &[], &glyphs);
    assert!(found.is_empty());
}

/// The plan of a script of one command and one directory table: the walk
/// claims the command, the table yields its string, and the script ends
/// after that string.
#[test]
fn a_plan_gathers_the_directory_table_past_the_commands() {
    let mut buf = vec![0u8; 0x80];
    put(&mut buf, 0x00, 0x80);
    put(&mut buf, 0x02, 0x08);
    put(&mut buf, 0x04, 0x20);
    put(&mut buf, 0x08, END);
    put(&mut buf, 0x20, 0x40);
    put(&mut buf, 0x40, 1);
    put(&mut buf, 0x42, TERMINATOR);

    let glyphs = ab_glyphs();
    let p = plan(&buf, &glyphs);
    assert_eq!(p.dir_words, 4);
    assert_eq!(p.record_cursor, 0x80);
    assert!(p.stats.sentinel);
    assert_eq!(
        p.strings.iter().map(|s| (s.kind, s.slot, s.offset, s.end, s.jp.as_str())).collect::<Vec<_>>(),
        [(RefKind::Table(2), Some(0x20), 0x40, 0x44, "A")]
    );
    assert_eq!(p.script_end, 0x44);
}
