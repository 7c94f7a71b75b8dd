use nasty_dx_dumper::constants::LATIN_SPACE;
use nasty_dx_dumper::text::{chars_of, quote_char, quote_debug, string_of};
use nasty_dx_dumper::utils::{
    from_hex, load_character_table, load_reverse_character_table, parse_patch, Encoder, IntError,
};

const TABLE: &str = "0021=A\n0022=B\n0023=I\n01f8=II\n0100=タ\n0101=ッ\n0102=プ\nnot a line\nzz=Q\n0103=A\n";

fn encoder() -> Encoder {
    Encoder::new(&load_reverse_character_table(TABLE))
}

#[test]
fn the_glyph_table_reads_code_equals_rendering_lines() {
    let table = load_character_table(TABLE);
    assert_eq!(table[&0x21], "A");
    assert_eq!(table[&0x1f8], "II");
    assert_eq!(table[&0x100], "タ");
    assert_eq!(table[&0x103], "A");
    // the terminator and the Latin space are always there
    assert_eq!(table[&0xf800], "\n");
    assert_eq!(table[&LATIN_SPACE], " ");
    assert!(!table.contains_key(&0x24));
}

#[test]
fn a_shared_rendering_encodes_as_the_lower_code() {
    let reverse = load_reverse_character_table(TABLE);
    let a = reverse.iter().find(|(r, _)| r == "A").unwrap();
    assert_eq!(a.1, 0x21);
    let space = reverse.iter().find(|(r, _)| r == " ").unwrap();
    assert_eq!(space.1, LATIN_SPACE);
    assert_eq!(encoder().encode("A B").unwrap(), vec![0x21, LATIN_SPACE, 0x22]);
}

#[test]
fn the_encoder_takes_the_longest_token_and_raw_escapes() {
    let e = encoder();
    assert_eq!(e.encode("III").unwrap(), vec![0x1f8, 0x23]);
    assert_eq!(e.encode("タップ").unwrap(), vec![0x100, 0x101, 0x102]);
    assert_eq!(e.encode("A[0x1234]B").unwrap(), vec![0x21, 0x1234, 0x22]);
    assert_eq!(e.encode("[0xf]").unwrap(), vec![0xf]);
    assert_eq!(e.encode("").unwrap(), Vec::<u16>::new());
}

#[test]
fn the_encoder_refuses_what_it_cannot_encode_with_the_byte_position() {
    let e = encoder();
    assert_eq!(
        e.encode("タ$").unwrap_err(),
        "cannot encode '$' at position 3 (not in the glyph table; use [0xhhhh] for a raw code)"
    );
    // a newline is the terminator's rendering, which the encoder never matches
    assert!(e.encode("A\nB").is_err());
    // an escape of five digits is not an escape
    assert!(e.encode("[0x12345]").is_err());
}

#[test]
fn a_sidecar_parses_into_entries_with_their_references() {
    let sidecar = "# main.dol: 2 strings, 3 references. Translate by repeating the 0xOFFSET line with English.\n\
                   \n\
                   # reference at main.dol:0x1234 (RAM 0x80001234) [item]\n\
                   # reference at main.dol:0x2000 (RAM 0x80002000) [addi paired with the lis at RAM 0x80001ffc]\n\
                   0x3000 銀行員\n\
                   0x3000 Teller\n\
                   \n\
                   # reference at main.dol:0x1238 (RAM 0x80001238) [item]\n\
                   0x3010 薬草\n\
                   \n";
    let entries = parse_patch(sidecar).unwrap();
    assert_eq!(entries.len(), 2);
    assert_eq!(entries[0].og_ptr, 0x3000);
    assert_eq!(entries[0].references, vec![0x1234, 0x2000]);
    assert_eq!(entries[0].en_string.as_deref(), Some("Teller"));
    assert_eq!(entries[1].og_ptr, 0x3010);
    assert_eq!(entries[1].references, vec![0x1238]);
    assert_eq!(entries[1].en_string, None);
}

#[test]
fn a_sidecar_with_a_bad_offset_is_refused() {
    let err = parse_patch("0xzz 銀行員\n").err().unwrap();
    assert_eq!(err, IntError::InvalidDigit);
    assert_eq!(err.message(), "invalid digit found in string");
    assert_eq!(IntError::Empty.message(), "cannot parse integer from empty string");
    assert_eq!(IntError::PosOverflow.message(), "number too large to fit in target type");
}

#[test]
fn hex_digits_parse_up_to_the_bound() {
    let digits: Vec<char> = "1f8".chars().collect();
    assert_eq!(from_hex(&digits, 0xffff), Ok(0x1f8));
    let big: Vec<char> = "10000".chars().collect();
    assert_eq!(from_hex(&big, 0xffff), Err(IntError::PosOverflow));
    assert_eq!(from_hex(&[], 0xffff), Err(IntError::Empty));
}

#[test]
fn the_std_text_helpers_keep_every_character() {
    let chars = chars_of("aタ\n");
    assert_eq!(chars, vec!['a', 'タ', '\n']);
    assert_eq!(string_of(&chars), "aタ\n");
    assert_eq!(quote_debug("Wallace's \"x\"\n"), "\"Wallace's \\\"x\\\"\\n\"");
    assert_eq!(quote_char('\''), "'\\''");
    assert_eq!(quote_char('$'), "'$'");
}
