use nasty_dx_dumper::longname::{
    stub_word, is_redirect, LongNameBank, LONG_NAME_GLYPHS, LONG_NAME_INDICES, NAME_FIELD_BYTES, STUB_STRIDE, TERMINATOR,
};

#[test]
fn a_stub_is_a_terminated_two_word_string() {
    let stub = LongNameBank::record(0x123, STUB_STRIDE);
    assert_eq!(stub.len(), STUB_STRIDE);
    assert_eq!(&stub[0..4], [0xc1, 0x23, 0xf8, 0x00]);
    // the blind 0x12-byte copy has to have something defined to move
    assert!(stub.len() >= NAME_FIELD_BYTES);
    assert!(stub[4..].iter().all(|&b| b == 0));
}

#[test]
fn the_bank_refuses_a_name_that_begins_with_a_redirect() {
    let mut bank = LongNameBank::new();
    let err = bank.intern(&[stub_word(3), 0x0041]).unwrap_err();
    assert!(err.message().contains("may not itself begin"));
}

#[test]
fn the_bank_refuses_a_name_over_the_glyph_cap() {
    let mut bank = LongNameBank::new();
    let long = vec![0x0041u16; LONG_NAME_GLYPHS + 1];
    assert!(bank.intern(&long).is_err());
    assert!(bank.intern(&long[..LONG_NAME_GLYPHS]).is_ok());
}

#[test]
fn every_pointer_table_entry_resolves_into_the_bank() {
    let mut bank = LongNameBank::new();
    assert_eq!(bank.intern(&[0x0041, 0x0042]).unwrap(), 0);
    assert_eq!(bank.intern(&[0x0043]).unwrap(), 1);

    const BASE: u32 = 0x802e_0000;
    let (blob, layout) = bank.emit(BASE);
    let word = |ram: u32| {
        let at = (ram - BASE) as usize;
        u16::from_be_bytes(blob[at..at + 2].try_into().unwrap())
    };
    let ptr = |i: u32| {
        let at = (layout.ptrs - BASE + i * 4) as usize;
        u32::from_be_bytes(blob[at..at + 4].try_into().unwrap())
    };

    // the stub each reference is pointed at
    assert_eq!(word(LongNameBank::stub_ram(BASE, 0)), stub_word(0));
    assert_eq!(word(LongNameBank::stub_ram(BASE, 1)), stub_word(1));
    // and what following the redirect lands on
    assert_eq!(word(ptr(0)), 0x0041);
    assert_eq!(word(ptr(1)), 0x0043);
    // unclaimed indices, including the last, render as nothing
    assert_eq!(word(ptr(2)), TERMINATOR);
    assert_eq!(word(ptr(LONG_NAME_INDICES - 1)), TERMINATOR);
    assert_eq!(layout.ptrs % 4, 0);
}

#[test]
fn a_stub_word_is_a_redirect_exactly_within_the_index_range() {
    assert_eq!(stub_word(0), 0xc000);
    assert_eq!(stub_word(0x7ff), 0xc7ff);
    assert!(is_redirect(stub_word(0)));
    assert!(is_redirect(stub_word(LONG_NAME_INDICES - 1)));
    assert!(!is_redirect(0xc800));
    assert!(!is_redirect(0x0041));
    assert!(!is_redirect(TERMINATOR));
}

#[test]
fn each_interned_name_takes_the_next_index() {
    let mut bank = LongNameBank::new();
    assert_eq!(bank.intern(&[0x0041, 0x0042]).unwrap(), 0);
    assert_eq!(bank.intern(&[0x0043]).unwrap(), 1);
    // a refusal takes no index
    assert!(bank.intern(&[stub_word(0)]).is_err());
    assert_eq!(bank.intern(&[0x0041, 0x0042]).unwrap(), 2);
}

#[test]
fn the_bank_refusals_name_their_reason() {
    let mut bank = LongNameBank::new();
    let long = vec![0x0041u16; LONG_NAME_GLYPHS + 1];
    let err = bank.intern(&long).unwrap_err();
    assert_eq!(err.message(), "17 glyphs exceeds the 16-glyph redirected name cap");
    let err = bank.intern(&[stub_word(0)]).unwrap_err();
    assert_eq!(err.message(), "a redirected name may not itself begin with a 0xC000 family word");
}

#[test]
fn stub_ram_steps_by_the_stub_stride() {
    assert_eq!(LongNameBank::stub_ram(0x8030_0000, 0), 0x8030_0000);
    assert_eq!(LongNameBank::stub_ram(0x8030_0000, 3), 0x8030_0000 + 3 * STUB_STRIDE as u32);
}
