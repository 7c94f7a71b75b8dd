use std::collections::{HashMap, HashSet};

use nasty_dx_dumper::dump::{dump_main_dol, dx_str_at_offset, DumpError};
use nasty_dx_dumper::shape::{DolHeader, Section, DATA0};
use nasty_dx_dumper::dump_all::{dump_all, sidecar_kind, SidecarKind};
use nasty_dx_dumper::ppc::Relocatable;
use nasty_dx_dumper::sorted_map::SortedMap;
use nasty_dx_dumper::spt::{Plan, RefKind, StringRef, WalkStats};
use nasty_dx_dumper::spt_dump::{dump_spt, spt_sidecar_text};
use nasty_dx_dumper::utils::parse_patch;

fn stats() -> WalkStats {
    WalkStats { steps: 0, sentinel: false, unknown: SortedMap::new(), arrays: 0, targets: 0, cmds: SortedMap::new() }
}

fn sref(at: usize, offset: usize, end: usize, kind: RefKind, slot: Option<usize>, jp: &str) -> StringRef {
    StringRef { at, offset, end, kind, slot, jp: jp.to_string() }
}

fn glyphs() -> HashMap<u16, String> {
    HashMap::from([(1, "A".to_string()), (2, "B".to_string()), (0xf800, "\n".to_string())])
}

#[test]
fn the_executable_and_every_script_get_a_sidecar() {
    assert_eq!(sidecar_kind("main.dol"), Some(SidecarKind::MainDol));
    assert_eq!(sidecar_kind("MAIN.DOL"), Some(SidecarKind::MainDol));
    assert_eq!(sidecar_kind("Main.Dol"), Some(SidecarKind::MainDol));
    assert_eq!(sidecar_kind("BANK.SPT"), Some(SidecarKind::Script));
    assert_eq!(sidecar_kind("drama09.spt"), Some(SidecarKind::Script));
    assert_eq!(sidecar_kind("a.b.SpT"), Some(SidecarKind::Script));
    // a leading dot is a hidden name, not an extension
    assert_eq!(sidecar_kind(".spt"), None);
    assert_eq!(sidecar_kind("spt"), None);
    assert_eq!(sidecar_kind("BANK.SPT.patch"), None);
    assert_eq!(sidecar_kind("main.dol.patch"), None);
    assert_eq!(sidecar_kind("other.dol"), None);
    assert_eq!(sidecar_kind("BANK.SPTX"), None);
}

#[test]
fn a_script_sidecar_groups_references_by_string() {
    let plan = Plan {
        strings: vec![
            sref(0x10, 0x40, 0x46, RefKind::Direct(0x0102), Some(0x12), "AB"),
            sref(0x30, 0x50, 0x60, RefKind::ObjText(0x80), None, "CDEFGHI"),
            sref(0x20, 0x40, 0x46, RefKind::Table(11), Some(0x20), "AB"),
        ],
        stats: stats(),
        dir_words: 2,
        script_end: 0x100,
        record_cursor: 0x9000,
    };
    let text = spt_sidecar_text("EV.SPT", &plan);
    assert_eq!(
        text,
        "# EV.SPT: 2 strings, 3 references. Translate by repeating the 0xOFFSET line with English.\n\
         # record cursor 0x9000, script ends 0x0100, 28672 bytes of arena shared by every replacement\n\
         \n\
         # reference at EV.SPT:0x10 (cmd 0102 direct, slot 0x12)\n\
         # reference at EV.SPT:0x20 (cmd table table[11], slot 0x20)\n\
         # cap 8 glyphs: this is a name field, and over the cap the 0x12-byte copy loses its terminator\n\
         0x40 AB\n\
         \n\
         # reference at EV.SPT:0x30 (cmd 0307-array obj-text[0x80], slot unwritable)\n\
         0x50 CDEFGHI\n\
         \n"
    );
}

#[test]
fn a_name_longer_than_the_field_is_not_capped_and_a_full_file_has_no_arena() {
    let plan = Plan {
        strings: vec![sref(0x8, 0x40, 0x54, RefKind::Table(11), Some(0x8), "ABABABABA")],
        stats: stats(),
        dir_words: 8,
        script_end: 0x54,
        record_cursor: 0x10000,
    };
    let text = spt_sidecar_text("N.SPT", &plan);
    assert_eq!(
        text,
        "# N.SPT: 1 strings, 1 references. Translate by repeating the 0xOFFSET line with English.\n\
         # record cursor 0x10000, script ends 0x0054, no arena: a string may not grow past the Japanese it replaces\n\
         \n\
         # reference at N.SPT:0x8 (cmd table table[11], slot 0x8)\n\
         0x40 ABABABABA\n\
         \n"
    );
}

#[test]
fn native_table_references_name_their_outer_table() {
    let plan = Plan {
        strings: vec![sref(0x24, 0x100, 0x104, RefKind::Native(0x20), Some(0x24), "A")],
        stats: stats(),
        dir_words: 2,
        script_end: 0x104,
        record_cursor: 0xfff0,
    };
    let text = spt_sidecar_text("S.spt", &plan);
    assert!(text.contains("# reference at S.spt:0x24 (cmd 0808-table native-table[0x20], slot 0x24)\n0x100 A\n\n"));
    assert!(text.contains(", 16 bytes of arena shared by every replacement\n"));
}

#[test]
fn an_empty_script_dumps_a_header_alone() {
    let buf = vec![0u8; 0x40];
    let text = dump_spt(&buf, "EMPTY.SPT", &glyphs());
    assert!(text.starts_with("# EMPTY.SPT: "));
    assert!(text.contains("# record cursor 0x0000, "));
}

#[test]
fn dump_all_passes_over_files_that_carry_no_text() {
    let files = vec![
        ("readme.txt".to_string(), b"hello".to_vec()),
        ("EV.SPT".to_string(), vec![0u8; 0x40]),
        ("movie.thp".to_string(), vec![0u8; 8]),
    ];
    let verdicts = Relocatable { ok: Default::default(), blocked: Default::default() };
    let outs = dump_all(&files, &glyphs(), &verdicts).unwrap();
    assert_eq!(outs.len(), 1);
    assert_eq!(outs[0].file, 1);
    assert!(outs[0].text.starts_with("# EV.SPT: "));
    assert!(outs[0].notes.is_empty());
}

#[test]
fn a_main_dol_too_short_for_a_header_ends_the_run() {
    let files = vec![("EV.SPT".to_string(), vec![0u8; 0x40]), ("main.dol".to_string(), vec![0u8; 16])];
    let verdicts = Relocatable { ok: Default::default(), blocked: Default::default() };
    let (at, err) = dump_all(&files, &glyphs(), &verdicts).err().unwrap();
    assert_eq!(at, 1);
    assert_eq!(err, DumpError::Read);
    assert_eq!(err.message(), "failed to fill whole buffer");
}

#[test]
fn a_dol_string_reads_to_its_terminator() {
    let buf = [0x00, 0x01, 0x00, 0x02, 0x12, 0x34, 0xf8, 0x00, 0x00, 0x01];
    assert_eq!(dx_str_at_offset(&buf, 0, &glyphs()).unwrap(), "AB[0x1234]\n");
    assert_eq!(dx_str_at_offset(&buf, 2, &glyphs()).unwrap(), "B[0x1234]\n");
    // the terminator renders as the table says, and as its code without one
    let bare = HashMap::from([(1u16, "A".to_string())]);
    assert_eq!(dx_str_at_offset(&buf, 0, &bare).unwrap(), "A[0x2][0x1234][0xf800]");
}

#[test]
fn a_dol_string_that_runs_off_the_file_or_past_the_limit_is_an_error() {
    let buf = [0x00, 0x01, 0x00, 0x02];
    assert_eq!(dx_str_at_offset(&buf, 0, &glyphs()), Err(DumpError::Read));
    let long = vec![0u8; 2 * 4096 + 2];
    let err = dx_str_at_offset(&long, 0, &glyphs()).unwrap_err();
    assert_eq!(err, DumpError::NoTerminator { offset: 0x2000 });
    assert_eq!(err.message(), "no terminator within 4096 glyphs of 0x2000");
}

#[test]
fn every_dump_error_has_its_sentence() {
    assert_eq!(DumpError::Unmapped { at: 0x1234 }.message(), "no section loads main.dol:0x1234");
    assert_eq!(DumpError::SectionOverflow.message(), "DOL section address overflow");
}

#[test]
fn a_script_sidecar_reads_back_as_one_entry_per_string() {
    let plan = Plan {
        strings: vec![
            sref(0x10, 0x40, 0x46, RefKind::Direct(0x0102), Some(0x12), "AB"),
            sref(0x30, 0x50, 0x60, RefKind::ObjText(0x80), None, "CDEFGHI"),
            sref(0x20, 0x40, 0x46, RefKind::Table(11), Some(0x20), "AB"),
        ],
        stats: stats(),
        dir_words: 2,
        script_end: 0x100,
        record_cursor: 0x9000,
    };
    let entries = parse_patch(&spt_sidecar_text("EV.SPT", &plan)).unwrap();
    assert_eq!(entries.len(), 2);
    assert_eq!(entries[0].og_ptr, 0x40);
    assert_eq!(entries[0].references, vec![0x10, 0x20]);
    assert_eq!(entries[0].en_string, None);
    assert_eq!(entries[1].og_ptr, 0x50);
    assert_eq!(entries[1].references, vec![0x30]);
    assert_eq!(entries[1].en_string, None);
}

/// A DOL with one instruction pair that builds the address of one string:
/// the sidecar holds that string with the pair's low half as its reference,
/// and reads back as one entry.
#[test]
fn a_dol_sidecar_reads_back_as_one_entry_per_string() {
    let mut header = DolHeader::zeroed();
    header.sections[0] = Section { file: 0x100, ram: 0x8000_3100, size: 0x20 };
    header.sections[DATA0] = Section { file: 0x120, ram: 0x8020_0000, size: 0x20 };
    let mut buf = header.write();
    buf.resize(0x140, 0);
    // lis r3,0x8020 / addi r3,r3,0x10 / blr
    buf[0x100..0x104].copy_from_slice(&0x3c60_8020u32.to_be_bytes());
    buf[0x104..0x108].copy_from_slice(&0x3863_0010u32.to_be_bytes());
    buf[0x108..0x10c].copy_from_slice(&0x4e80_0020u32.to_be_bytes());
    buf[0x130..0x134].copy_from_slice(&[0x00, 0x21, 0xf8, 0x00]);

    let glyphs = HashMap::from([(0x21u16, "A".to_string()), (0xf800u16, "\n".to_string())]);
    let verdicts = Relocatable { ok: HashSet::from([0x8020_0010u32]), blocked: Default::default() };
    let dump = dump_main_dol(&buf, &glyphs, &verdicts).unwrap();
    assert!(dump.text.starts_with("# main.dol: 101 strings, 1 references."));
    assert!(dump.text.contains(
        "# reference at main.dol:0x104 (RAM 0x80003104) [addi paired with the lis at RAM 0x80003100]\n0x130 A\n\n"
    ));
    let entries = parse_patch(&dump.text).unwrap();
    assert_eq!(entries.len(), 1);
    assert_eq!(entries[0].og_ptr, 0x130);
    assert_eq!(entries[0].references, vec![0x104]);
    assert_eq!(entries[0].en_string, None);
    assert!(dump.notes.iter().any(|n| n == "instruction-stream text: 1 strings from 1 immediate pairs, 0 addressed runs left out"));
}
