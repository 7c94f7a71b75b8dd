use std::collections::HashSet;

use nasty_dx_dumper::constants::{NameCap, WalkerHook};
use nasty_dx_dumper::dol::{
    dol_entry_cap, install_redirect_caves, reviewed_immediate_refs, CAVE_PTRS_HI, CAVE_PTRS_LO, CAVE_RESUME, CAVE_WORDS,
};
use nasty_dx_dumper::ppc;
use nasty_dx_dumper::script_patch::patch_title_default_names;
use nasty_dx_dumper::shape::{DolHeader, Section, DATA0};
use nasty_dx_dumper::sorted_map::SortedMap;
use nasty_dx_dumper::spt;
use nasty_dx_dumper::utils::{load_reverse_character_table, Encoder, TLEntry};

/// The reviewed redirect cave, with the displaced retail word first.
const REVIEWED_CAVE: [u32; 10] = [
    0xa3dd_0000, // lhz    r30,0x0(r29)      the displaced retail word
    0x57c0_0428, // rlwinm r0,r30,0,16,20    family
    0x2800_c000, // cmplwi r0,0xc000
    0x4082_0018, // bne    +0x18             -> the resume branch
    0x57c0_14fa, // rlwinm r0,r30,2,19,29    (code & 0x7ff) * 4
    0x3fc0_0000, // lis    r30,0             -> longNamePtrs@ha
    0x3bde_0000, // addi   r30,r30,0         -> longNamePtrs@l
    0x7fbe_002e, // lwzx   r29,r30,r0        cursor = longNamePtrs[i]
    0x4bff_ffe0, // b      -0x20             re-read at the new cursor
    0x4800_0000, // b      .                 -> the hooked loop head + 4
];

fn hooks() -> Vec<WalkerHook> {
    vec![
        WalkerHook { ram: 0x8001_6a20, expect: REVIEWED_CAVE[0], what: "message walker".to_string() },
        WalkerHook { ram: 0x8004_1c5c, expect: REVIEWED_CAVE[0], what: "name walker".to_string() },
    ]
}

fn cave_code(n: usize) -> Vec<u8> {
    let mut code = Vec::new();
    for _ in 0..n {
        for w in REVIEWED_CAVE {
            code.extend(w.to_be_bytes());
        }
    }
    code
}

fn text_header() -> DolHeader {
    let mut header = DolHeader::zeroed();
    header.sections[0] = Section { file: 0x100, ram: 0x8001_4000, size: 0x000d_0000 };
    header
}

/// A glyph table in the game's `hhhh=rendering` form: the Latin letters, a
/// two-letter ligature, and the katakana of the title defaults.
const TABLE: &str = "0021=A\n0022=B\n0023=I\n01f8=II\n0024=W\n0025=a\n0026=l\n0027=c\n0028=e\n0029=s\n\
002a=T\n002b=p\n002c=L\n002d=u\n002e=r\n002f=i\n0030=k\n0031=G\n0032=m\n0033=R\n0034=z\n0035=V\n0036=n\n0037=t\n0038=w\n\
0100=タ\n0101=ッ\n0102=プ\n0103=ル\n0104=チ\n0105=ブ\n0106=リ\n0107=キ\n0108=ン\n0109=ガ\n010a=マ\n010b=ラ\n010c=ズ\n\
010d=ウ\n010e=ィ\n010f=ヴ\n0110=ト\n";

fn encoder() -> Encoder {
    Encoder::new(&load_reverse_character_table(TABLE))
}

/// The two branches that make a cave reachable and survivable: into it from
/// the walker, and back out one instruction past the hook.
#[test]
fn a_cave_branches_into_the_walker_and_back() {
    const TEXT: u32 = 0x8001_4000;
    const SIZE: u32 = 0x000d_0000;
    const TEXT2_RAM: u32 = 0x802f_0000;
    const PTRS: u32 = 0x802e_4004;

    let header = text_header();
    let hooks = hooks();
    let mut buf = vec![0u8; (0x100 + SIZE) as usize];
    for hook in &hooks {
        let at = (0x100 + hook.ram - TEXT) as usize;
        buf[at..at + 4].copy_from_slice(&hook.expect.to_be_bytes());
    }

    let mut updates = SortedMap::new();
    let caves = install_redirect_caves(&buf, &header, &mut updates, TEXT2_RAM, PTRS, &cave_code(hooks.len()), &hooks).unwrap();
    let code: Vec<u32> = caves.chunks_exact(4).map(|b| u32::from_be_bytes(b.try_into().unwrap())).collect();

    for (i, hook) in hooks.iter().enumerate() {
        let cave = TEXT2_RAM + (i * CAVE_WORDS * 4) as u32;
        let at = i * CAVE_WORDS;

        let hooked = *updates.get(header.file_offset(hook.ram).unwrap()).unwrap();
        assert_eq!(hooked, ppc::branch(hook.ram, cave).unwrap());
        assert_eq!(code[at + CAVE_RESUME], ppc::branch(cave + (CAVE_RESUME * 4) as u32, hook.ram + 4).unwrap());
        // PTRS has bit 15 clear, so the addi takes no carry
        assert_eq!(code[at + CAVE_PTRS_HI] & 0xffff, PTRS >> 16);
        assert_eq!(code[at + CAVE_PTRS_LO] & 0xffff, PTRS & 0xffff);
    }
}

/// A cave assembled for one walker refuses to install over another.
#[test]
fn a_hook_refuses_a_dol_whose_loop_head_moved() {
    let header = text_header();
    let hooks = hooks();
    let buf = vec![0u8; 0x100 + 0x000d_0000];
    let names: Vec<String> = hooks.iter().map(|h| h.what.clone()).collect();
    let err = install_redirect_caves(&buf, &header, &mut SortedMap::new(), 0x802f_0000, 0x802e_8004, &cave_code(hooks.len()), &hooks)
        .unwrap_err();
    assert!(err.message(&names).contains("expected retail instruction"));
}

/// A cave that does not repeat the instruction it displaces is refused: its
/// registers would not be the ones the walker reads.
#[test]
fn a_cave_that_does_not_open_with_the_displaced_word_is_refused() {
    const TEXT: u32 = 0x8001_4000;
    let header = text_header();
    let hooks = hooks();
    let mut buf = vec![0u8; 0x100 + 0x000d_0000];
    for hook in &hooks {
        let at = (0x100 + hook.ram - TEXT) as usize;
        buf[at..at + 4].copy_from_slice(&hook.expect.to_be_bytes());
    }
    let mut code = cave_code(hooks.len());
    code[CAVE_WORDS * 4..CAVE_WORDS * 4 + 4].copy_from_slice(&0x6000_0000u32.to_be_bytes());
    let names: Vec<String> = hooks.iter().map(|h| h.what.clone()).collect();
    let err = install_redirect_caves(&buf, &header, &mut SortedMap::new(), 0x802f_0000, 0x802e_8004, &code, &hooks).unwrap_err();
    assert_eq!(
        err.message(&names),
        "cave 1 opens with 0x60000000 but name walker loop head is 0xa3dd0000; the cave's registers do not match the walker"
    );
}

/// The assembled code must hold exactly one cave per hook.
#[test]
fn a_cave_count_other_than_the_hook_count_is_refused() {
    let header = text_header();
    let hooks = hooks();
    let buf = vec![0u8; 0x100 + 0x000d_0000];
    let err = install_redirect_caves(&buf, &header, &mut SortedMap::new(), 0x802f_0000, 0x802e_8004, &cave_code(1), &hooks).unwrap_err();
    assert_eq!(err.message(&[]), "long_names.s assembled to 10 words, expected 2 caves of 10");
}

#[test]
fn playtested_immediate_references_are_exact_and_unique() {
    let reviewed = reviewed_immediate_refs();
    let refs: HashSet<u32> = reviewed.iter().map(|&(ref_off, _)| ref_off).collect();
    assert_eq!(reviewed.len(), 57);
    assert_eq!(refs.len(), reviewed.len());
    assert_eq!(reviewed[0], (0x01ee6c, 0x1cf810));
    assert_eq!(reviewed[56], (0x10e7b4, 0x2712d0));
}

#[test]
fn monster_name_references_are_stubbed_rather_than_capped() {
    let mut header = DolHeader::zeroed();
    header.sections[DATA0] = Section { file: 0x100, ram: 0x8024_0000, size: 0x1_0000 };
    let entry = TLEntry {
        og_ptr: 0,
        references: vec![0x100 + (0x8024_1d8c - 0x8024_0000)],
        en_string: Some("Pakkun Grass".into()),
    };

    assert_eq!(dol_entry_cap(&header, &entry), NameCap::Stub);
}

#[test]
fn a_reference_outside_every_name_table_is_free() {
    let mut header = DolHeader::zeroed();
    header.sections[DATA0] = Section { file: 0x100, ram: 0x8024_0000, size: 0x1_0000 };
    let entry = TLEntry { og_ptr: 0, references: vec![0x100 + 0x10], en_string: Some("Teller".into()) };
    assert_eq!(dol_entry_cap(&header, &entry), NameCap::Free);
}

#[test]
fn title_legacy_name_slots_receive_width_preserving_latin_defaults() {
    let encoder = encoder();
    let cases = [
        (0x7260, "タップ", "Tap"),
        (0x7268, "ルチル", "Luc"),
        (0x7270, "ブリキン", "Brik"),
        (0x727a, "ガママル", "Gama"),
        (0x7284, "ラズリ", "Raz"),
        (0x728c, "ウィウィ", "Wiwi"),
        (0x7296, "ヴィント", "Vint"),
    ];
    let mut buf = vec![0u8; 0x72a0];

    for (offset, japanese, _) in cases {
        let mut at = offset;
        for code in encoder.encode(japanese).unwrap() {
            buf[at..at + 2].copy_from_slice(&code.to_be_bytes());
            at += 2;
        }
        buf[at..at + 2].copy_from_slice(&spt::TERMINATOR.to_be_bytes());
    }

    patch_title_default_names(&mut buf, &encoder).unwrap();

    for (offset, _, latin) in cases {
        let mut expected = Vec::new();
        for code in encoder.encode(latin).unwrap() {
            expected.extend(code.to_be_bytes());
        }
        expected.extend(spt::TERMINATOR.to_be_bytes());
        assert_eq!(&buf[offset..offset + expected.len()], expected);
    }
}

#[test]
fn a_title_slot_that_is_not_the_retail_name_refuses_the_pass() {
    let encoder = encoder();
    let mut buf = vec![0u8; 0x72a0];
    let before = buf.clone();
    assert!(patch_title_default_names(&mut buf, &encoder).is_err());
    assert_eq!(buf, before);
}

#[test]
fn dol_encoder_is_strict_and_uses_longest_table_tokens() {
    let encoder = encoder();

    assert_eq!(encoder.encode("II").unwrap(), vec![0x01f8]);
    assert!(encoder.encode("Wallace's").is_err());
}
