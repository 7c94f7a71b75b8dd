use std::collections::HashMap;

use nasty_dx_dumper::script_patch::patch_spt;
use nasty_dx_dumper::utils::{load_reverse_character_table, Encoder, TLEntry};

const TABLE: &str = "0021=A\n0022=B\n0024=W\n0025=a\n0026=l\n0027=c\n0028=e\n0029=s\n";

/// A translation the encoder cannot take refuses the whole script, and the
/// original bytes are written through untouched.
#[test]
fn a_refused_script_is_written_through_untouched() {
    let encoder = Encoder::new(&load_reverse_character_table(TABLE));
    let glyphs = HashMap::from([(0x21u16, "A".to_string())]);
    let mut buf = vec![0u8; 0x40];
    buf[0x20] = 0x00;
    buf[0x21] = 0x21;
    let entries = vec![TLEntry { og_ptr: 0x20, references: vec![0x10], en_string: Some("Wallace's".to_string()) }];
    let out = patch_spt(&buf, &entries, &glyphs, &encoder, false).unwrap();
    assert_eq!(out.bytes, buf);
    assert_eq!(out.replacements, 0);
    assert_eq!(
        out.refusals,
        vec!["0x20: cannot encode '\\'' at position 7 (not in the glyph table; use [0xhhhh] for a raw code)".to_string()]
    );
}

/// With nothing translated, the script is written through as it is.
#[test]
fn an_untranslated_script_is_written_through() {
    let encoder = Encoder::new(&load_reverse_character_table(TABLE));
    let glyphs = HashMap::new();
    let buf = vec![0u8; 0x40];
    let entries = vec![TLEntry { og_ptr: 0x20, references: vec![0x10], en_string: None }];
    let out = patch_spt(&buf, &entries, &glyphs, &encoder, false).unwrap();
    assert_eq!(out.bytes, buf);
    assert!(out.refusals.is_empty());
    assert_eq!(out.replacements, 0);
}
