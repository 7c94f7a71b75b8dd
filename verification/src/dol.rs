//! Patching `main.dol`: every translated string is appended in a new data
//! section and every reference to it rewritten; names too long for their
//! fixed field go to the long-name bank behind a redirect stub; the script
//! resolvers and the runtime arena are moved to fit.

use vstd::prelude::*;
use crate::bytes::{spec_u32_at, u32at, be32_bytes, push_be32};
use crate::shape::{DolHeader, Section, DATA7, DATA8, TEXT2, SECTIONS, find_file_offset, find_ram_addr};
use crate::ppc::{rewrite, branch, spec_branch, built_addr, ha, ImmKind, ImmRef, BranchError, covers};
use crate::sorted_map::SortedMap;
use crate::constants::{NameCap, TextTable, TableShape, shape, explicit_shapes, text_tables_explicit, WalkerHook};
use crate::utils::TLEntry;
use crate::text::{hex, decimal, push_str, push_hex, push_dec, string_of, chars_of};

verus! {

broadcast use {crate::shape::lemma_fits_ram_maps, crate::shape::lemma_fits_file_maps};

/// The big-endian word at `off`.
pub fn word(buf: &[u8], off: u32) -> (w: u32)
    requires
        off + 4 <= buf@.len(),
    ensures
        Some(w) == spec_u32_at(buf@, off as int),
{
    match u32at(buf, off as usize) {
        Some(w) => w,
        None => 0,
    }
}

/// Retail memory immediately above BSS is not free: the linker reserves a
/// 64 KiB main stack and an 8 KiB debugger stack there. The runtime arena,
/// and so the first address genuinely free, starts after both.
pub const TRANSLATION_ARENA_RAM: u32 = 0x802e_26a0;

/// The end of retail BSS, the bottom of the main stack.
pub const RETAIL_BSS_END: u32 = 0x802d_0698;

/// The end of the GameCube's main memory.
pub const MEM1_END_RAM: u32 = 0x8180_0000;

/// The immediate references that were playtested: (low-half file offset,
/// target file offset).
pub open spec fn reviewed_refs_spec() -> Seq<(u32, u32)> {
    seq![
        (0x01ee6c, 0x1cf810), (0x040440, 0x1d39fc), (0x04052c, 0x1d397c), (0x0405c4, 0x1d3990),
        (0x04065c, 0x1d39a4), (0x0406f4, 0x1d39bc), (0x04078c, 0x1d39d4), (0x040824, 0x1d39ec),
        (0x044a9c, 0x1d4478), (0x0457d0, 0x1d4398), (0x045824, 0x1d4380), (0x0458b8, 0x1d4414),
        (0x069a80, 0x243450), (0x069a8c, 0x24345c), (0x069b68, 0x243474), (0x069bf0, 0x243480),
        (0x06c4ac, 0x244090), (0x06c504, 0x243ec4), (0x06c52c, 0x243ec4), (0x06c550, 0x243f00),
        (0x06c574, 0x243fe4), (0x06c588, 0x243f3c), (0x06c59c, 0x243f80), (0x06c5b0, 0x243fb8),
        (0x06c5c4, 0x243edc), (0x06c5d8, 0x243f1c), (0x06c608, 0x243f1c), (0x06c638, 0x243f1c),
        (0x06c66c, 0x243f1c), (0x06c6a0, 0x244038), (0x06c6bc, 0x244038), (0x06c6d8, 0x244064),
        (0x06c6ec, 0x244010), (0x06c71c, 0x243e38), (0x06ca14, 0x244120), (0x06ca88, 0x244120),
        (0x06cac4, 0x244138), (0x06ccac, 0x2441f8), (0x06cf08, 0x2433d8), (0x06d2cc, 0x24414c),
        (0x06d328, 0x244164), (0x06d368, 0x244178), (0x06d3c4, 0x2441ac), (0x06d404, 0x2441c4),
        (0x06dba4, 0x244024), (0x06dbd0, 0x243e6c), (0x098754, 0x2440f4), (0x0ac260, 0x2440b0),
        (0x0ac288, 0x2440d0), (0x0ac2b0, 0x243cd0), (0x0ac2f4, 0x243e4c), (0x0ac3fc, 0x243bf0),
        (0x0ac42c, 0x243c14), (0x0ac468, 0x243c40), (0x0ac4b0, 0x243c74), (0x0ac4d8, 0x243c98),
        (0x10e7b4, 0x2712d0),
    ]
}

/// The playtested immediate references, a sanity check that the scan of a
/// DOL recovers exactly the pairs that were confirmed good: (low-half file
/// offset, target file offset). The alchemist's duplication result, the
/// roulette prompts and names, the dig-space lines, the battle cards, the
/// punishment prompts and results, the dropped-item lines, and the Dropped
/// Items heading.
pub fn reviewed_immediate_refs() -> (v: Vec<(u32, u32)>)
    ensures
        v@ == reviewed_refs_spec(),
{
    let v = vec![
        (0x01ee6c, 0x1cf810), (0x040440, 0x1d39fc), (0x04052c, 0x1d397c), (0x0405c4, 0x1d3990),
        (0x04065c, 0x1d39a4), (0x0406f4, 0x1d39bc), (0x04078c, 0x1d39d4), (0x040824, 0x1d39ec),
        (0x044a9c, 0x1d4478), (0x0457d0, 0x1d4398), (0x045824, 0x1d4380), (0x0458b8, 0x1d4414),
        (0x069a80, 0x243450), (0x069a8c, 0x24345c), (0x069b68, 0x243474), (0x069bf0, 0x243480),
        (0x06c4ac, 0x244090), (0x06c504, 0x243ec4), (0x06c52c, 0x243ec4), (0x06c550, 0x243f00),
        (0x06c574, 0x243fe4), (0x06c588, 0x243f3c), (0x06c59c, 0x243f80), (0x06c5b0, 0x243fb8),
        (0x06c5c4, 0x243edc), (0x06c5d8, 0x243f1c), (0x06c608, 0x243f1c), (0x06c638, 0x243f1c),
        (0x06c66c, 0x243f1c), (0x06c6a0, 0x244038), (0x06c6bc, 0x244038), (0x06c6d8, 0x244064),
        (0x06c6ec, 0x244010), (0x06c71c, 0x243e38), (0x06ca14, 0x244120), (0x06ca88, 0x244120),
        (0x06cac4, 0x244138), (0x06ccac, 0x2441f8), (0x06cf08, 0x2433d8), (0x06d2cc, 0x24414c),
        (0x06d328, 0x244164), (0x06d368, 0x244178), (0x06d3c4, 0x2441ac), (0x06d404, 0x2441c4),
        (0x06dba4, 0x244024), (0x06dbd0, 0x243e6c), (0x098754, 0x2440f4), (0x0ac260, 0x2440b0),
        (0x0ac288, 0x2440d0), (0x0ac2b0, 0x243cd0), (0x0ac2f4, 0x243e4c), (0x0ac3fc, 0x243bf0),
        (0x0ac42c, 0x243c14), (0x0ac468, 0x243c40), (0x0ac4b0, 0x243c74), (0x0ac4d8, 0x243c98),
        (0x10e7b4, 0x2712d0),
    ];
    assert(v@ =~= reviewed_refs_spec());
    v
}

/// `value` rounded up to a multiple of 32.
pub open spec fn aligned_32(value: u32) -> int {
    ((value + 31) / 32) * 32
}

/// `value` rounded up to a multiple of 32.
pub fn align_32(value: u32) -> (r: u32)
    requires
        value <= u32::MAX - 31,
    ensures
        r == aligned_32(value),
{
    let v = value + 31;
    let r = v & !31u32;
    assert(v & !31u32 == (v / 32) * 32) by (bit_vector);
    r
}


/// Why `main.dol` could not be patched.
#[derive(Debug, Clone, Copy, PartialEq, Eq, Structural)]
pub enum DolError {
    /// the header or a section runs past the end of the file
    Truncated,
    ArenaLisOutside { ram: u32 },
    ArenaAddiOutside { ram: u32 },
    ArenaMismatch { ram: u32, hi: u32, lo: u32, want_hi: u32, want_lo: u32 },
    ResolverOutside { ram: u32 },
    ResolverMismatch { ram: u32, off: u32, found: u32, want: u32 },
    AssemblerMismatch { word: u32, i: usize, want: u32 },
    CaveWords { words: usize, caves: usize },
    HookOutside { hook: usize, ram: u32 },
    HookMismatch { hook: usize, ram: u32, found: u32, want: u32 },
    CaveMismatch { i: usize, opens: u32, want: u32 },
    Branch { from: u32, to: u32, why: BranchError },
    ReviewedMissing { off: u32 },
    ReviewedTarget { off: u32, found: u32, want: u32 },
    Data7Empty,
    BssEnd { end: u32 },
    InlineStride { field: usize, stride: u32 },
    Text2NotEmpty,
    BeyondMem1 { end: u32 },
    SectionOverflow,
    Overlap { lo: u32, hi: u32, ram: u32, end: u32 },
    TooLarge,
    AddressOverflow,
}

/// `format!("{:08x}", v)`.
pub open spec fn hex8(v: u32) -> Seq<char> {
    hex(v as nat, 8)
}

pub open spec fn branch_error_text(from: u32, to: u32, why: BranchError) -> Seq<char> {
    "branch from 0x"@ + hex8(from) + " to 0x"@ + hex8(to) + match why {
        BranchError::Misaligned => " is not word aligned"@,
        BranchError::OutOfRange => " is beyond the 26-bit displacement"@,
    }
}

/// The text of a refusal. `names` are the hooked walkers' names.
pub open spec fn dol_error_text(e: DolError, names: Seq<Seq<char>>) -> Seq<char> {
    match e {
        DolError::Truncated => "failed to fill whole buffer"@,
        DolError::ArenaLisOutside { ram } => "ArenaLo lis at 0x"@ + hex8(ram) + " is outside the DOL"@,
        DolError::ArenaAddiOutside { ram } => "ArenaLo addi at 0x"@ + hex8(ram) + " is outside the DOL"@,
        DolError::ArenaMismatch { ram, hi, lo, want_hi, want_lo } => "ArenaLo instructions at 0x"@ + hex8(ram) + " are 0x"@
            + hex8(hi) + "/0x"@ + hex8(lo) + ", expected 0x"@ + hex8(want_hi) + "/0x"@ + hex8(want_lo),
        DolError::ResolverOutside { ram } => "SPT resolver RAM 0x"@ + hex8(ram) + " is outside the DOL"@,
        DolError::ResolverMismatch { ram, off, found, want } => "SPT resolver at RAM 0x"@ + hex8(ram) + " (file 0x"@
            + hex(off as nat, 1) + ") is 0x"@ + hex8(found) + ", expected retail instruction 0x"@ + hex8(want),
        DolError::AssemblerMismatch { word, i, want } => "assembler produced 0x"@ + hex8(word) + " for SPT resolver "@
            + decimal(i as nat) + ", expected 0x"@ + hex8(want),
        DolError::CaveWords { words, caves } => "long_names.s assembled to "@ + decimal(words as nat) + " words, expected "@
            + decimal(caves as nat) + " caves of 10"@,
        DolError::HookOutside { hook, ram } => name_of(names, hook) + " loop head at 0x"@ + hex8(ram)
            + " is outside the DOL"@,
        DolError::HookMismatch { hook, ram, found, want } => name_of(names, hook) + " loop head at RAM 0x"@ + hex8(ram)
            + " is 0x"@ + hex8(found) + ", expected retail instruction 0x"@ + hex8(want),
        DolError::CaveMismatch { i, opens, want } => "cave "@ + decimal(i as nat) + " opens with 0x"@ + hex8(opens)
            + " but "@ + name_of(names, i) + " loop head is 0x"@ + hex8(want)
            + "; the cave's registers do not match the walker"@,
        DolError::Branch { from, to, why } => branch_error_text(from, to, why),
        DolError::ReviewedMissing { off } => "reviewed immediate reference 0x"@ + hex(off as nat, 1)
            + " was not recovered from this DOL"@,
        DolError::ReviewedTarget { off, found, want } => "reviewed immediate reference 0x"@ + hex(off as nat, 1)
            + " targets 0x"@ + hex(found as nat, 1) + ", expected 0x"@ + hex(want as nat, 1),
        DolError::Data7Empty => "data7 is empty; this is not the retail DOL"@,
        DolError::BssEnd { end } => "unexpected retail BSS end 0x"@ + hex8(end)
            + "; refusing to guess where the stacks end"@,
        DolError::InlineStride { field, stride } => "inline field "@ + name_of(inline_tags(), field) + " has stride 0x"@
            + hex(stride as nat, 1) + "; a stub is written a word at a time and needs a multiple of four"@,
        DolError::Text2NotEmpty => "text2 is not empty; this is not the retail DOL"@,
        DolError::BeyondMem1 { end } => "translation arena ends at 0x"@ + hex8(end) + ", beyond MEM1"@,
        DolError::SectionOverflow => "DOL section address overflow"@,
        DolError::Overlap { lo, hi, ram, end } => "translation arena 0x"@ + hex8(lo) + "..0x"@ + hex8(hi)
            + " overlaps DOL section 0x"@ + hex8(ram) + "..0x"@ + hex8(end),
        DolError::TooLarge => "out of range integral type conversion attempted"@,
        DolError::AddressOverflow => "RAM address overflow"@,
    }
}

/// Name `i` of `names`, or nothing.
pub open spec fn name_of(names: Seq<Seq<char>>, i: usize) -> Seq<char> {
    if i < names.len() { names[i as int] } else { Seq::empty() }
}

/// The tags of the inline fields, in order.
pub open spec fn inline_tags() -> Seq<Seq<char>> {
    seq!["cpuname"@]
}


fn push_hex8(out: &mut Vec<char>, v: u32)
    ensures
        final(out)@ == old(out)@ + hex8(v),
{
    push_hex(out, v as u64, 8);
}

fn push_name(out: &mut Vec<char>, names: &[String], i: usize)
    ensures
        final(out)@ == old(out)@ + name_of(names@.map_values(|n: String| n@), i),
{
    if i < names.len() {
        let c = chars_of(names[i].as_str());
        crate::text::append_chars(out, c.as_slice());
    } else {
        assert(old(out)@ + Seq::<char>::empty() =~= old(out)@);
    }
}

impl DolError {
    /// The refusal as a sentence; `names` are the hooked walkers' names.
    pub fn message(&self, names: &[String]) -> (s: String)
        ensures
            s@ == dol_error_text(*self, names@.map_values(|n: String| n@)),
    {
        let mut o: Vec<char> = Vec::new();
        match *self {
            DolError::Truncated => push_str(&mut o, "failed to fill whole buffer"),
            DolError::ArenaLisOutside { ram } => {
                push_str(&mut o, "ArenaLo lis at 0x");
                push_hex8(&mut o, ram);
                push_str(&mut o, " is outside the DOL");
            },
            DolError::ArenaAddiOutside { ram } => {
                push_str(&mut o, "ArenaLo addi at 0x");
                push_hex8(&mut o, ram);
                push_str(&mut o, " is outside the DOL");
            },
            DolError::ArenaMismatch { ram, hi, lo, want_hi, want_lo } => {
                push_str(&mut o, "ArenaLo instructions at 0x");
                push_hex8(&mut o, ram);
                push_str(&mut o, " are 0x");
                push_hex8(&mut o, hi);
                push_str(&mut o, "/0x");
                push_hex8(&mut o, lo);
                push_str(&mut o, ", expected 0x");
                push_hex8(&mut o, want_hi);
                push_str(&mut o, "/0x");
                push_hex8(&mut o, want_lo);
            },
            DolError::ResolverOutside { ram } => {
                push_str(&mut o, "SPT resolver RAM 0x");
                push_hex8(&mut o, ram);
                push_str(&mut o, " is outside the DOL");
            },
            DolError::ResolverMismatch { ram, off, found, want } => {
                push_str(&mut o, "SPT resolver at RAM 0x");
                push_hex8(&mut o, ram);
                push_str(&mut o, " (file 0x");
                push_hex(&mut o, off as u64, 1);
                push_str(&mut o, ") is 0x");
                push_hex8(&mut o, found);
                push_str(&mut o, ", expected retail instruction 0x");
                push_hex8(&mut o, want);
            },
            DolError::AssemblerMismatch { word, i, want } => {
                push_str(&mut o, "assembler produced 0x");
                push_hex8(&mut o, word);
                push_str(&mut o, " for SPT resolver ");
                push_dec(&mut o, i as u64);
                push_str(&mut o, ", expected 0x");
                push_hex8(&mut o, want);
            },
            DolError::CaveWords { words, caves } => {
                push_str(&mut o, "long_names.s assembled to ");
                push_dec(&mut o, words as u64);
                push_str(&mut o, " words, expected ");
                push_dec(&mut o, caves as u64);
                push_str(&mut o, " caves of 10");
            },
            DolError::HookOutside { hook, ram } => {
                push_name(&mut o, names, hook);
                push_str(&mut o, " loop head at 0x");
                push_hex8(&mut o, ram);
                push_str(&mut o, " is outside the DOL");
            },
            DolError::HookMismatch { hook, ram, found, want } => {
                push_name(&mut o, names, hook);
                push_str(&mut o, " loop head at RAM 0x");
                push_hex8(&mut o, ram);
                push_str(&mut o, " is 0x");
                push_hex8(&mut o, found);
                push_str(&mut o, ", expected retail instruction 0x");
                push_hex8(&mut o, want);
            },
            DolError::CaveMismatch { i, opens, want } => {
                push_str(&mut o, "cave ");
                push_dec(&mut o, i as u64);
                push_str(&mut o, " opens with 0x");
                push_hex8(&mut o, opens);
                push_str(&mut o, " but ");
                push_name(&mut o, names, i);
                push_str(&mut o, " loop head is 0x");
                push_hex8(&mut o, want);
                push_str(&mut o, "; the cave's registers do not match the walker");
            },
            DolError::Branch { from, to, why } => {
                push_str(&mut o, "branch from 0x");
                push_hex8(&mut o, from);
                push_str(&mut o, " to 0x");
                push_hex8(&mut o, to);
                match why {
                    BranchError::Misaligned => push_str(&mut o, " is not word aligned"),
                    BranchError::OutOfRange => push_str(&mut o, " is beyond the 26-bit displacement"),
                }
            },
            DolError::ReviewedMissing { off } => {
                push_str(&mut o, "reviewed immediate reference 0x");
                push_hex(&mut o, off as u64, 1);
                push_str(&mut o, " was not recovered from this DOL");
            },
            DolError::ReviewedTarget { off, found, want } => {
                push_str(&mut o, "reviewed immediate reference 0x");
                push_hex(&mut o, off as u64, 1);
                push_str(&mut o, " targets 0x");
                push_hex(&mut o, found as u64, 1);
                push_str(&mut o, ", expected 0x");
                push_hex(&mut o, want as u64, 1);
            },
            DolError::Data7Empty => push_str(&mut o, "data7 is empty; this is not the retail DOL"),
            DolError::BssEnd { end } => {
                push_str(&mut o, "unexpected retail BSS end 0x");
                push_hex8(&mut o, end);
                push_str(&mut o, "; refusing to guess where the stacks end");
            },
            DolError::InlineStride { field, stride } => {
                push_str(&mut o, "inline field ");
                if field == 0 {
                    push_str(&mut o, "cpuname");
                }
                push_str(&mut o, " has stride 0x");
                push_hex(&mut o, stride as u64, 1);
                push_str(&mut o, "; a stub is written a word at a time and needs a multiple of four");
                proof {
                    reveal_strlit("cpuname");
                }
            },
            DolError::Text2NotEmpty => push_str(&mut o, "text2 is not empty; this is not the retail DOL"),
            DolError::BeyondMem1 { end } => {
                push_str(&mut o, "translation arena ends at 0x");
                push_hex8(&mut o, end);
                push_str(&mut o, ", beyond MEM1");
            },
            DolError::SectionOverflow => push_str(&mut o, "DOL section address overflow"),
            DolError::Overlap { lo, hi, ram, end } => {
                push_str(&mut o, "translation arena 0x");
                push_hex8(&mut o, lo);
                push_str(&mut o, "..0x");
                push_hex8(&mut o, hi);
                push_str(&mut o, " overlaps DOL section 0x");
                push_hex8(&mut o, ram);
                push_str(&mut o, "..0x");
                push_hex8(&mut o, end);
            },
            DolError::TooLarge => push_str(&mut o, "out of range integral type conversion attempted"),
            DolError::AddressOverflow => push_str(&mut o, "RAM address overflow"),
        }
        string_of(o.as_slice())
    }
}


/// The two words `rewrite` makes of a pair: the opcode halves kept, the
/// immediates replaced so that the pair builds `addr`.
pub open spec fn rewritten(hi: u32, lo: u32, kind: ImmKind, addr: u32) -> (u32, u32) {
    (
        (hi & 0xffff0000) | (match kind {
            ImmKind::Addi => ha(addr),
            ImmKind::Ori => addr >> 16u32,
        }),
        (lo & 0xffff0000) | (addr & 0xffff),
    )
}

/// `rewrite` gives exactly `rewritten`.
fn rewrite_pair(hi: u32, lo: u32, kind: ImmKind, addr: u32) -> (r: (u32, u32))
    ensures
        r == rewritten(hi, lo, kind, addr),
        built_addr(r.0, r.1, kind) == addr,
{
    let r = rewrite(hi, lo, kind, addr);
    let (a, b) = r;
    let ghost h2 = match kind {
        ImmKind::Addi => ha(addr),
        ImmKind::Ori => addr >> 16u32,
    };
    proof {
        assert(ha(addr) <= 0xffff) by (bit_vector);
        assert(addr >> 16u32 <= 0xffff) by (bit_vector);
        assert(a & 0xffff0000 == hi & 0xffff0000 && a & 0xffff == h2 && h2 <= 0xffff ==> a == (hi & 0xffff0000) | h2) by (bit_vector);
        assert(b & 0xffff0000 == lo & 0xffff0000 && b & 0xffff == addr & 0xffff ==> b == (lo & 0xffff0000) | (addr & 0xffff)) by (bit_vector);
    }
    r
}

/// The word at file offset `off`.
pub open spec fn word_of(buf: Seq<u8>, off: u32) -> u32 {
    spec_u32_at(buf, off as int).unwrap()
}

/// Wherever `ram` is loaded from, a whole word is there.
pub open spec fn ram_word_in(h: Seq<Section>, buf: Seq<u8>, ram: u32) -> bool {
    find_file_offset(h, ram, 0) matches Some(off) ==> off + 4 <= buf.len()
}

/// The linker default, and the normal retail path followed by addi +31 /
/// align-down-32: (lis RAM, addi RAM, retail lis, retail addi).
pub open spec fn arena_sites() -> Seq<(u32, u32, u32, u32)> {
    seq![(0x8014_1eec, 0x8014_1ef0, 0x3c60_802e, 0x3863_26a0), (0x8014_1f24, 0x8014_1f28, 0x3c60_802e, 0x3863_0698)]
}

/// One ArenaLo site moved to `arena_lo`, or why it cannot be.
pub open spec fn arena_site(h: Seq<Section>, buf: Seq<u8>, site: (u32, u32, u32, u32), arena_lo: u32, m: Map<u32, u32>) -> Result<Map<u32, u32>, DolError> {
    let (hi_ram, lo_ram, want_hi, want_lo) = site;
    match find_file_offset(h, hi_ram, 0) {
        None => Err(DolError::ArenaLisOutside { ram: hi_ram }),
        Some(hi_off) => match find_file_offset(h, lo_ram, 0) {
            None => Err(DolError::ArenaAddiOutside { ram: lo_ram }),
            Some(lo_off) => {
                let hi = word_of(buf, hi_off);
                let lo = word_of(buf, lo_off);
                if hi != want_hi || lo != want_lo {
                    Err(DolError::ArenaMismatch { ram: hi_ram, hi, lo, want_hi, want_lo })
                } else {
                    let (nh, nl) = rewritten(hi, lo, ImmKind::Addi, arena_lo);
                    Ok(m.insert(hi_off, nh).insert(lo_off, nl))
                }
            },
        },
    }
}

/// Both ArenaLo sites moved, in order.
pub open spec fn arena_lo_updates(h: Seq<Section>, buf: Seq<u8>, arena_lo: u32, m: Map<u32, u32>) -> Result<Map<u32, u32>, DolError> {
    match arena_site(h, buf, arena_sites()[0], arena_lo, m) {
        Err(e) => Err(e),
        Ok(m1) => arena_site(h, buf, arena_sites()[1], arena_lo, m1),
    }
}

fn arena_site_exec(
    buf: &[u8],
    header: &DolHeader,
    updates: &mut SortedMap<u32>,
    site: (u32, u32, u32, u32),
    arena_lo: u32,
) -> (r: Result<(), DolError>)
    requires
        header.fits(),
        old(updates).wf(),
        ram_word_in(header.sections@, buf@, site.0),
        ram_word_in(header.sections@, buf@, site.1),
    ensures
        final(updates).wf(),
        match arena_site(header.sections@, buf@, site, arena_lo, old(updates)@) {
            Ok(m) => r is Ok && final(updates)@ == m,
            Err(e) => r == Err::<(), DolError>(e),
        },
{
    let (hi_ram, lo_ram, want_hi, want_lo) = site;
    let hi_off = match header.file_offset(hi_ram) {
        Some(o) => o,
        None => {
            return Err(DolError::ArenaLisOutside { ram: hi_ram });
        },
    };
    let lo_off = match header.file_offset(lo_ram) {
        Some(o) => o,
        None => {
            return Err(DolError::ArenaAddiOutside { ram: lo_ram });
        },
    };
    let hi = word(buf, hi_off);
    let lo = word(buf, lo_off);
    if hi != want_hi || lo != want_lo {
        return Err(DolError::ArenaMismatch { ram: hi_ram, hi, lo, want_hi, want_lo });
    }
    let (nh, nl) = rewrite_pair(hi, lo, ImmKind::Addi, arena_lo);
    updates.insert(hi_off, nh);
    updates.insert(lo_off, nl);
    Ok(())
}

/// Move every retail ArenaLo path past the appended translation bank. The
/// boot code first installs the linker default at 0x802e26a0; on the normal
/// non-debug path it then reclaims the debugger stack by installing
/// aligned(0x802e0698). Patching only the first pair lets later heap
/// allocations overwrite the new data even though the game initially boots.
pub fn patch_runtime_arena_lo(buf: &[u8], header: &DolHeader, updates: &mut SortedMap<u32>, arena_lo: u32) -> (r: Result<(), DolError>)
    requires
        header.fits(),
        old(updates).wf(),
        forall|k: int| 0 <= k < 2 ==> ram_word_in(header.sections@, buf@, (#[trigger] arena_sites()[k]).0) && ram_word_in(header.sections@, buf@, arena_sites()[k].1),
    ensures
        final(updates).wf(),
        match arena_lo_updates(header.sections@, buf@, arena_lo, old(updates)@) {
            Ok(m) => r is Ok && final(updates)@ == m,
            Err(e) => r == Err::<(), DolError>(e),
        },
{
    let sites = [(0x8014_1eecu32, 0x8014_1ef0u32, 0x3c60_802eu32, 0x3863_26a0u32), (0x8014_1f24u32, 0x8014_1f28u32, 0x3c60_802eu32, 0x3863_0698u32)];
    proof {
        assert(arena_sites()[0] == sites[0]);
        assert(arena_sites()[1] == sites[1]);
    }
    arena_site_exec(buf, header, updates, sites[0], arena_lo)?;
    arena_site_exec(buf, header, updates, sites[1], arena_lo)
}


/// The three resolver instructions that sign-extend SPT offsets: (RAM,
/// retail word): `extsh r0,r3`, `lhax r0,r4,r0`, `lhax r3,r3,r0`.
pub open spec fn resolver_sites() -> Seq<(u32, u32)> {
    seq![(0x800d_2cdc, 0x7c60_0734), (0x800d_2d00, 0x7c04_02ae), (0x800d_2d2c, 0x7c63_02ae)]
}

/// What they become: `clrlwi r0,r3,16`, `lhzx r0,r4,r0`, `lhzx r3,r3,r0`.
pub open spec fn resolver_words() -> Seq<u32> {
    seq![0x5460_043e, 0x7c04_022e, 0x7c63_022e]
}

/// Word `i` of the assembled bytes.
pub open spec fn code_word(code: Seq<u8>, i: int) -> u32 {
    spec_u32_at(code, 4 * i).unwrap()
}

/// The first `n` resolvers replaced by the assembled words, or why not.
pub open spec fn resolver_updates(h: Seq<Section>, buf: Seq<u8>, code: Seq<u8>, n: int, m: Map<u32, u32>) -> Result<Map<u32, u32>, DolError>
    decreases n,
{
    if n <= 0 {
        Ok(m)
    } else {
        match resolver_updates(h, buf, code, n - 1, m) {
            Err(e) => Err(e),
            Ok(m1) => {
                let (ram, want) = resolver_sites()[n - 1];
                match find_file_offset(h, ram, 0) {
                    None => Err(DolError::ResolverOutside { ram }),
                    Some(off) => if word_of(buf, off) != want {
                        Err(DolError::ResolverMismatch { ram, off, found: word_of(buf, off), want })
                    } else if code_word(code, n - 1) != resolver_words()[n - 1] {
                        Err(DolError::AssemblerMismatch { word: code_word(code, n - 1), i: (n - 1) as usize, want: resolver_words()[n - 1] })
                    } else {
                        Ok(m1.insert(off, code_word(code, n - 1)))
                    },
                }
            },
        }
    }
}

/// Retail SPT offsets are signed. Install the three independently assembled
/// instructions that make direct, directory and table offsets unsigned, each
/// checked against the retail word it replaces and the word it should be.
pub fn patch_spt_resolvers(buf: &[u8], header: &DolHeader, updates: &mut SortedMap<u32>, assembled: &[u8]) -> (r: Result<(), DolError>)
    requires
        header.fits(),
        old(updates).wf(),
        forall|k: int| 0 <= k < 3 ==> ram_word_in(header.sections@, buf@, (#[trigger] resolver_sites()[k]).0),
    ensures
        final(updates).wf(),
        match resolver_updates(header.sections@, buf@, assembled@, if assembled@.len() / 4 < 3 { (assembled@.len() / 4) as int } else { 3 }, old(updates)@) {
            Ok(m) => r is Ok && final(updates)@ == m,
            Err(e) => r == Err::<(), DolError>(e),
        },
{
    let sites = [(0x800d_2cdcu32, 0x7c60_0734u32), (0x800d_2d00u32, 0x7c04_02aeu32), (0x800d_2d2cu32, 0x7c63_02aeu32)];
    let expected = [0x5460_043eu32, 0x7c04_022eu32, 0x7c63_022eu32];
    let n: usize = if assembled.len() / 4 < 3 { assembled.len() / 4 } else { 3 };
    let ghost m0 = updates@;
    let mut i: usize = 0;
    while i < n
        invariant
            i <= n <= 3,
            n <= assembled@.len() / 4,
            n as int == (if assembled@.len() / 4 < 3 { (assembled@.len() / 4) as int } else { 3 }),
            m0 == old(updates)@,
            header.fits(),
            updates.wf(),
            forall|k: int| 0 <= k < 3 ==> ram_word_in(header.sections@, buf@, (#[trigger] resolver_sites()[k]).0),
            forall|k: int| 0 <= k < 3 ==> sites@[k] == #[trigger] resolver_sites()[k] && expected@[k] == resolver_words()[k],
            resolver_updates(header.sections@, buf@, assembled@, i as int, m0) == Ok::<Map<u32, u32>, DolError>(updates@),
        decreases n - i,
    {
        let (ram, want) = sites[i];
        proof {
            assert(resolver_sites()[i as int] == (ram, want));
        }
        let off = match header.file_offset(ram) {
            Some(o) => o,
            None => {
                proof {
                    lemma_resolver_err(header.sections@, buf@, assembled@, i as int + 1, n as int, m0, DolError::ResolverOutside { ram });
                }
                return Err(DolError::ResolverOutside { ram });
            },
        };
        let found = word(buf, off);
        if found != want {
            proof {
                lemma_resolver_err(header.sections@, buf@, assembled@, i as int + 1, n as int, m0, DolError::ResolverMismatch { ram, off, found, want });
            }
            return Err(DolError::ResolverMismatch { ram, off, found, want });
        }
        let new_word = match u32at(assembled, 4 * i) {
            Some(w) => w,
            None => 0,
        };
        if new_word != expected[i] {
            proof {
                lemma_resolver_err(header.sections@, buf@, assembled@, i as int + 1, n as int, m0, DolError::AssemblerMismatch { word: new_word, i, want: expected[i as int] });
            }
            return Err(DolError::AssemblerMismatch { word: new_word, i, want: expected[i] });
        }
        updates.insert(off, new_word);
        i = i + 1;
    }
    Ok(())
}

/// Once a resolver fails, the whole run fails the same way.
proof fn lemma_resolver_err(h: Seq<Section>, buf: Seq<u8>, code: Seq<u8>, i: int, n: int, m: Map<u32, u32>, e: DolError)
    requires
        0 < i <= n,
        resolver_updates(h, buf, code, i, m) == Err::<Map<u32, u32>, DolError>(e),
    ensures
        resolver_updates(h, buf, code, n, m) == Err::<Map<u32, u32>, DolError>(e),
    decreases n - i,
{
    if i < n {
        lemma_resolver_err(h, buf, code, i + 1, n, m, e);
    }
}

/// The words `point_at` writes for the first `n` references: an immediate
/// pair gets both halves rebuilt to `ram`, any other reference is a pointer
/// word and gets `ram`.
pub open spec fn point_updates(buf: Seq<u8>, imm: Map<u32, ImmRef>, refs: Seq<u32>, ram: u32, n: int, m: Map<u32, u32>) -> Map<u32, u32>
    decreases n,
{
    if n <= 0 {
        m
    } else {
        let m1 = point_updates(buf, imm, refs, ram, n - 1, m);
        let r = refs[n - 1];
        if imm.contains_key(r) {
            let p = imm[r];
            let (hi, lo) = rewritten(word_of(buf, p.hi_off), word_of(buf, p.lo_off), p.kind, ram);
            m1.insert(p.hi_off, hi).insert(p.lo_off, lo)
        } else {
            m1.insert(r, ram)
        }
    }
}

/// Every pair of `imm` has both its words inside the file.
pub open spec fn pairs_in(buf: Seq<u8>, imm: Map<u32, ImmRef>) -> bool {
    forall|k: u32| #[trigger] imm.contains_key(k) ==> imm[k].hi_off + 4 <= buf.len() && imm[k].lo_off + 4 <= buf.len()
}

/// Make every reference to one string resolve to `ram`: a pointer word gets
/// the address, an immediate pair gets both its halves rebuilt.
pub fn point_at(buf: &[u8], imm: &SortedMap<ImmRef>, updates: &mut SortedMap<u32>, refs: &[u32], ram: u32)
    requires
        imm.wf(),
        old(updates).wf(),
        pairs_in(buf@, imm@),
    ensures
        final(updates).wf(),
        final(updates)@ == point_updates(buf@, imm@, refs@, ram, refs@.len() as int, old(updates)@),
{
    let ghost m0 = updates@;
    let mut i: usize = 0;
    while i < refs.len()
        invariant
            i <= refs@.len(),
            imm.wf(),
            updates.wf(),
            pairs_in(buf@, imm@),
            updates@ == point_updates(buf@, imm@, refs@, ram, i as int, m0),
        decreases refs@.len() - i,
    {
        let ref_off = refs[i];
        match imm.get(ref_off) {
            Some(r) => {
                let (hi, lo) = rewrite_pair(word(buf, r.hi_off), word(buf, r.lo_off), r.kind, ram);
                updates.insert(r.hi_off, hi);
                updates.insert(r.lo_off, lo);
            },
            None => {
                updates.insert(ref_off, ram);
            },
        }
        i = i + 1;
    }
}


/// Words in one redirect cave.
pub const CAVE_WORDS: usize = 10;

/// The cave's `lis` of the long-name pointer table.
pub const CAVE_PTRS_HI: usize = 5;

/// The cave's `addi` of the long-name pointer table.
pub const CAVE_PTRS_LO: usize = 6;

/// The cave's branch back into the walker.
pub const CAVE_RESUME: usize = 9;

/// The whole big-endian words of `code`; a trailing partial word is dropped.
pub open spec fn code_words(code: Seq<u8>) -> Seq<u32> {
    Seq::new(code.len() / 4, |i: int| code_word(code, i))
}

/// The words, each as its four big-endian bytes.
pub open spec fn words_bytes(w: Seq<u32>) -> Seq<u8>
    decreases w.len(),
{
    if w.len() == 0 {
        Seq::empty()
    } else {
        words_bytes(w.drop_last()) + be32_bytes(w.last())
    }
}

/// `b to` at `from`, or the refusal that names both ends.
pub open spec fn branch_or(from: u32, to: u32) -> Result<u32, DolError> {
    match spec_branch(from, to) {
        Ok(w) => Ok(w),
        Err(why) => Err(DolError::Branch { from, to, why }),
    }
}

/// The walkers' loop heads: (RAM, retail word).
pub open spec fn hook_sites(hooks: Seq<WalkerHook>) -> Seq<(u32, u32)> {
    hooks.map_values(|w: WalkerHook| (w.ram, w.expect))
}

/// Cave `i` installed over its walker: the pointer-table pair and the resume
/// branch filled in, and the loop head replaced by a branch into the cave.
pub open spec fn cave_step(
    h: Seq<Section>,
    buf: Seq<u8>,
    c: Seq<u32>,
    m: Map<u32, u32>,
    i: int,
    hook: (u32, u32),
    text2: u32,
    ptrs: u32,
) -> Result<(Seq<u32>, Map<u32, u32>), DolError> {
    let at = i * 10;
    match find_file_offset(h, hook.0, 0) {
        None => Err(DolError::HookOutside { hook: i as usize, ram: hook.0 }),
        Some(off) => if word_of(buf, off) != hook.1 {
            Err(DolError::HookMismatch { hook: i as usize, ram: hook.0, found: word_of(buf, off), want: hook.1 })
        } else if c[at] != hook.1 {
            Err(DolError::CaveMismatch { i: i as usize, opens: c[at], want: hook.1 })
        } else {
            let cave = (text2 + at * 4) as u32;
            let (hi, lo) = rewritten(c[at + 5], c[at + 6], ImmKind::Addi, ptrs);
            match branch_or((cave + 36) as u32, (hook.0 + 4) as u32) {
                Err(e) => Err(e),
                Ok(back) => match branch_or(hook.0, cave) {
                    Err(e) => Err(e),
                    Ok(into) => Ok((c.update(at + 5, hi).update(at + 6, lo).update(at + 9, back), m.insert(off, into))),
                },
            }
        },
    }
}

/// The first `k` caves installed in order.
pub open spec fn caves_run(
    h: Seq<Section>,
    buf: Seq<u8>,
    c0: Seq<u32>,
    m0: Map<u32, u32>,
    hooks: Seq<(u32, u32)>,
    text2: u32,
    ptrs: u32,
    k: int,
) -> Result<(Seq<u32>, Map<u32, u32>), DolError>
    decreases k,
{
    if k <= 0 {
        Ok((c0, m0))
    } else {
        match caves_run(h, buf, c0, m0, hooks, text2, ptrs, k - 1) {
            Err(e) => Err(e),
            Ok(cm) => cave_step(h, buf, cm.0, cm.1, k - 1, hooks[k - 1], text2, ptrs),
        }
    }
}

/// Every cave installed, and the text2 payload; or why not.
pub open spec fn caves_result(
    h: Seq<Section>,
    buf: Seq<u8>,
    code: Seq<u8>,
    m0: Map<u32, u32>,
    hooks: Seq<(u32, u32)>,
    text2: u32,
    ptrs: u32,
) -> Result<(Seq<u8>, Map<u32, u32>), DolError> {
    let words = code_words(code);
    if words.len() != hooks.len() * 10 {
        Err(DolError::CaveWords { words: words.len() as usize, caves: hooks.len() as usize })
    } else {
        match caves_run(h, buf, words, m0, hooks, text2, ptrs, hooks.len() as int) {
            Err(e) => Err(e),
            Ok(cm) => Ok((words_bytes(cm.0), cm.1)),
        }
    }
}

proof fn lemma_caves_err(
    h: Seq<Section>,
    buf: Seq<u8>,
    c0: Seq<u32>,
    m0: Map<u32, u32>,
    hooks: Seq<(u32, u32)>,
    text2: u32,
    ptrs: u32,
    i: int,
    n: int,
    e: DolError,
)
    requires
        0 < i <= n,
        caves_run(h, buf, c0, m0, hooks, text2, ptrs, i) == Err::<(Seq<u32>, Map<u32, u32>), DolError>(e),
    ensures
        caves_run(h, buf, c0, m0, hooks, text2, ptrs, n) == Err::<(Seq<u32>, Map<u32, u32>), DolError>(e),
    decreases n - i,
{
    if i < n {
        lemma_caves_err(h, buf, c0, m0, hooks, text2, ptrs, i + 1, n, e);
    }
}

fn branch_checked(from: u32, to: u32) -> (r: Result<u32, DolError>)
    ensures
        r == branch_or(from, to),
{
    match branch(from, to) {
        Ok(w) => Ok(w),
        Err(why) => Err(DolError::Branch { from, to, why }),
    }
}

/// The whole words of `code`.
fn words_of(code: &[u8]) -> (w: Vec<u32>)
    ensures
        w@ == code_words(code@),
{
    let n = code.len() / 4;
    let mut w: Vec<u32> = Vec::new();
    let mut i: usize = 0;
    while i < n
        invariant
            n == code@.len() / 4,
            code@.len() == code.len(),
            i <= n,
            w@ == code_words(code@).take(i as int),
        decreases n - i,
    {
        assert(4 * i < code@.len());
        let x = match u32at(code, 4 * i) {
            Some(x) => x,
            None => 0,
        };
        proof {
            assert(code_words(code@).take(i + 1) =~= code_words(code@).take(i as int).push(x));
        }
        w.push(x);
        i = i + 1;
    }
    proof {
        assert(code_words(code@).take(n as int) =~= code_words(code@));
    }
    w
}

/// The words as big-endian bytes.
fn bytes_of(words: &[u32]) -> (out: Vec<u8>)
    ensures
        out@ == words_bytes(words@),
        out@.len() == 4 * words@.len(),
{
    let mut out: Vec<u8> = Vec::new();
    let mut i: usize = 0;
    while i < words.len()
        invariant
            i <= words@.len(),
            out@ == words_bytes(words@.take(i as int)),
            out@.len() == 4 * i,
        decreases words@.len() - i,
    {
        proof {
            assert(words@.take(i + 1).drop_last() =~= words@.take(i as int));
        }
        push_be32(&mut out, words[i]);
        i = i + 1;
    }
    proof {
        assert(words@.take(words@.len() as int) =~= words@);
    }
    out
}

/// Install one redirect cave per text walker and return the text2 payload.
/// Each cave is entered by the branch written over the walker's loop-head
/// `lhz`, and leaves either through the resume branch, one instruction past
/// the hook with the code already loaded into the register the walker
/// expects, or, having followed a redirect, through its own loop head with
/// the cursor moved. `code` is the assembled caves, one per hook in order.
pub fn install_redirect_caves(
    buf: &[u8],
    header: &DolHeader,
    updates: &mut SortedMap<u32>,
    text2_ram: u32,
    ptrs_ram: u32,
    code: &[u8],
    hooks: &[WalkerHook],
) -> (r: Result<Vec<u8>, DolError>)
    requires
        header.fits(),
        old(updates).wf(),
        text2_ram + code@.len() <= u32::MAX,
        forall|k: int| 0 <= k < hooks@.len() ==> ram_word_in(header.sections@, buf@, (#[trigger] hooks@[k]).ram) && hooks@[k].ram
            <= u32::MAX - 4,
    ensures
        final(updates).wf(),
        match caves_result(header.sections@, buf@, code@, old(updates)@, hook_sites(hooks@), text2_ram, ptrs_ram) {
            Ok(res) => r == Ok::<Vec<u8>, DolError>(r->Ok_0) && r->Ok_0@ == res.0 && final(updates)@ == res.1,
            Err(e) => r == Err::<Vec<u8>, DolError>(e),
        },
        r matches Ok(v) ==> v@.len() == 4 * (code@.len() / 4),
{
    let mut words = words_of(code);
    if words.len() % CAVE_WORDS != 0 || words.len() / CAVE_WORDS != hooks.len() {
        return Err(DolError::CaveWords { words: words.len(), caves: hooks.len() });
    }
    let ghost sites = hook_sites(hooks@);
    let ghost c0 = words@;
    let ghost m0 = updates@;
    let mut i: usize = 0;
    while i < hooks.len()
        invariant
            i <= hooks@.len(),
            words@.len() == hooks@.len() * 10,
            c0 == code_words(code@),
            m0 == old(updates)@,
            sites == hook_sites(hooks@),
            header.fits(),
            updates.wf(),
            text2_ram + code@.len() <= u32::MAX,
            code@.len() / 4 == hooks@.len() * 10,
            forall|k: int| 0 <= k < hooks@.len() ==> ram_word_in(header.sections@, buf@, (#[trigger] hooks@[k]).ram) && hooks@[k].ram
                <= u32::MAX - 4,
            caves_run(header.sections@, buf@, c0, m0, sites, text2_ram, ptrs_ram, i as int) == Ok::<(Seq<u32>, Map<u32, u32>), DolError>((words@, updates@)),
        decreases hooks@.len() - i,
    {
        let hook_ram = hooks[i].ram;
        let expect = hooks[i].expect;
        let ghost n = hooks@.len() as int;
        proof {
            assert(sites[i as int] == (hook_ram, expect));
        }
        let off = match header.file_offset(hook_ram) {
            Some(o) => o,
            None => {
                proof {
                    lemma_caves_err(header.sections@, buf@, c0, m0, sites, text2_ram, ptrs_ram, i + 1, n, DolError::HookOutside { hook: i, ram: hook_ram });
                }
                return Err(DolError::HookOutside { hook: i, ram: hook_ram });
            },
        };
        let found = word(buf, off);
        if found != expect {
            proof {
                lemma_caves_err(header.sections@, buf@, c0, m0, sites, text2_ram, ptrs_ram, i + 1, n, DolError::HookMismatch { hook: i, ram: hook_ram, found, want: expect });
            }
            return Err(DolError::HookMismatch { hook: i, ram: hook_ram, found, want: expect });
        }
        let at = i * CAVE_WORDS;
        if words[at] != expect {
            proof {
                lemma_caves_err(header.sections@, buf@, c0, m0, sites, text2_ram, ptrs_ram, i + 1, n, DolError::CaveMismatch { i, opens: words@[at as int], want: expect });
            }
            return Err(DolError::CaveMismatch { i, opens: words[at], want: expect });
        }
        let cave_ram = text2_ram + (at * 4) as u32;
        let (hi, lo) = rewrite_pair(words[at + CAVE_PTRS_HI], words[at + CAVE_PTRS_LO], ImmKind::Addi, ptrs_ram);
        let back = match branch_checked(cave_ram + (CAVE_RESUME * 4) as u32, hook_ram + 4) {
            Ok(w) => w,
            Err(e) => {
                proof {
                    lemma_caves_err(header.sections@, buf@, c0, m0, sites, text2_ram, ptrs_ram, i + 1, n, e);
                }
                return Err(e);
            },
        };
        let into = match branch_checked(hook_ram, cave_ram) {
            Ok(w) => w,
            Err(e) => {
                proof {
                    lemma_caves_err(header.sections@, buf@, c0, m0, sites, text2_ram, ptrs_ram, i + 1, n, e);
                }
                return Err(e);
            },
        };
        words.set(at + CAVE_PTRS_HI, hi);
        words.set(at + CAVE_PTRS_LO, lo);
        words.set(at + CAVE_RESUME, back);
        updates.insert(off, into);
        i = i + 1;
    }
    Ok(bytes_of(words.as_slice()))
}


/// The address of pointer field `j` of entry `i`.
pub open spec fn slot(t: TableShape, i: int, j: int) -> int {
    t.0 + i * t.1 + t.3[j]
}

/// `ram` is one of the table's pointer words.
pub open spec fn table_holds(t: TableShape, ram: u32) -> bool {
    exists|i: int, j: int| 0 <= i < t.2 && 0 <= j < t.3.len() && ram == #[trigger] slot(t, i, j)
}

/// The cap of the first table, from `k` on, that holds `ram`.
pub open spec fn cap_from(tables: Seq<TableShape>, ram: u32, k: nat) -> Option<NameCap>
    decreases tables.len() - k,
{
    if k >= tables.len() {
        None
    } else if table_holds(tables[k as int], ram) {
        Some(tables[k as int].4)
    } else {
        cap_from(tables, ram, k + 1)
    }
}

/// The cap of the first reference, from `k` on, that lands in a table;
/// `Free` when none does.
pub open spec fn refs_cap(h: Seq<Section>, tables: Seq<TableShape>, refs: Seq<u32>, k: nat) -> NameCap
    decreases refs.len() - k,
{
    if k >= refs.len() {
        NameCap::Free
    } else {
        match find_ram_addr(h, refs[k as int], 0) {
            Some(ram) => match cap_from(tables, ram, 0) {
                Some(c) => c,
                None => refs_cap(h, tables, refs, k + 1),
            },
            None => refs_cap(h, tables, refs, k + 1),
        }
    }
}

fn table_holds_exec(t: &TextTable, ram: u32) -> (r: bool)
    ensures
        r == table_holds(shape(*t), ram),
{
    let ghost ts = shape(*t);
    let mut i: u32 = 0;
    while i < t.count
        invariant
            ts == shape(*t),
            forall|ii: int, jj: int| 0 <= ii < i && 0 <= jj < ts.3.len() ==> ram != #[trigger] slot(ts, ii, jj),
        decreases t.count - i,
    {
        let mut j: usize = 0;
        while j < t.fields.len()
            invariant
                ts == shape(*t),
                i < t.count,
                forall|ii: int, jj: int| 0 <= ii < i && 0 <= jj < ts.3.len() ==> ram != #[trigger] slot(ts, ii, jj),
                forall|jj: int| 0 <= jj < j ==> ram != #[trigger] slot(ts, i as int, jj),
            decreases t.fields@.len() - j,
        {
            let f = t.fields[j];
            let stride = t.stride;
            assert((i as int) * (stride as int) <= 0xffff_fffe_0000_0001) by (nonlinear_arith)
                requires
                    i <= 0xffff_ffffu32,
                    stride <= 0xffff_ffffu32,
            {
                assert((i as int) * (stride as int) <= 0xffff_ffffint * (stride as int));
                assert(0xffff_ffffint * (stride as int) <= 0xffff_ffffint * 0xffff_ffffint);
            }
            let prod: u64 = (i as u64) * (stride as u64);
            let at: u64 = t.base as u64 + prod + f as u64;
            if at == ram as u64 {
                proof {
                    assert(ram == slot(ts, i as int, j as int));
                }
                return true;
            }
            j = j + 1;
        }
        i = i + 1;
    }
    false
}

fn cap_in_tables(tables: &[TextTable], ram: u32) -> (r: Option<NameCap>)
    ensures
        r == cap_from(tables@.map_values(|t: TextTable| shape(t)), ram, 0),
{
    let ghost shapes = tables@.map_values(|t: TextTable| shape(t));
    let mut k: usize = 0;
    while k < tables.len()
        invariant
            k <= tables@.len(),
            shapes == tables@.map_values(|t: TextTable| shape(t)),
            cap_from(shapes, ram, 0) == cap_from(shapes, ram, k as nat),
        decreases tables@.len() - k,
    {
        proof {
            assert(shapes[k as int] == shape(tables@[k as int]));
        }
        if table_holds_exec(&tables[k], ram) {
            return Some(tables[k].cap);
        }
        k = k + 1;
    }
    None
}

/// How a translation of `entry` is limited: by the first of its references
/// that is a pointer word of an explicit text table, the cap of that table;
/// with none, `Free`.
pub fn dol_entry_cap(header: &DolHeader, entry: &TLEntry) -> (r: NameCap)
    requires
        header.fits(),
    ensures
        r == refs_cap(header.sections@, explicit_shapes(), entry.references@, 0),
{
    let tables = text_tables_explicit();
    let refs = &entry.references;
    let mut k: usize = 0;
    while k < refs.len()
        invariant
            k <= refs@.len(),
            header.fits(),
            tables@.map_values(|t: TextTable| shape(t)) == explicit_shapes(),
            refs@ == entry.references@,
            refs_cap(header.sections@, explicit_shapes(), refs@, 0) == refs_cap(header.sections@, explicit_shapes(), refs@, k as nat),
        decreases refs@.len() - k,
    {
        if let Some(ram) = header.ram_addr(refs[k]) {
            if let Some(c) = cap_in_tables(tables.as_slice(), ram) {
                assert(refs_cap(header.sections@, explicit_shapes(), refs@, k as nat) == c);
                return c;
            }
        }
        k = k + 1;
    }
    NameCap::Free
}


/// The two words `rewritten` makes of a pair build `addr`, and keep both
/// opcode halves.
pub proof fn lemma_rewritten_builds(hi: u32, lo: u32, kind: ImmKind, addr: u32)
    ensures
        built_addr(rewritten(hi, lo, kind, addr).0, rewritten(hi, lo, kind, addr).1, kind) == addr,
        rewritten(hi, lo, kind, addr).0 & 0xffff0000 == hi & 0xffff0000,
        rewritten(hi, lo, kind, addr).1 & 0xffff0000 == lo & 0xffff0000,
{
    let l = (lo & 0xffff0000) | (addr & 0xffff);
    assert(l & 0xffff0000 == lo & 0xffff0000 && l & 0xffff == addr & 0xffff && l & 0x8000 == addr & 0x8000) by (bit_vector)
        requires
            l == (lo & 0xffff0000) | (addr & 0xffff),
    ;
    match kind {
        ImmKind::Addi => {
            let hh = ha(addr);
            let h = (hi & 0xffff0000) | hh;
            assert(h & 0xffff0000 == hi & 0xffff0000 && h & 0xffff == hh) by (bit_vector)
                requires
                    h == (hi & 0xffff0000) | hh,
                    hh == (((addr >> 16u32) + ((addr >> 15u32) & 1u32)) as u32) & 0xffffu32,
            ;
            assert((((h & 0xffff) << 16u32) + (if l & 0x8000 != 0 { (l & 0xffff) | 0xffff0000u32 } else { l & 0xffff })) as u32 == addr)
                by (bit_vector)
                requires
                    h & 0xffff == (((addr >> 16u32) + ((addr >> 15u32) & 1u32)) as u32) & 0xffffu32,
                    l & 0xffff == addr & 0xffff,
            ;
        },
        ImmKind::Ori => {
            let h = (hi & 0xffff0000) | (addr >> 16u32);
            assert(h & 0xffff0000 == hi & 0xffff0000 && h & 0xffff == addr >> 16u32 && ((h & 0xffff) << 16u32) | (l & 0xffff) == addr)
                by (bit_vector)
                requires
                    h == (hi & 0xffff0000) | (addr >> 16u32),
                    l & 0xffff == addr & 0xffff,
            ;
        },
    }
}

/// The offsets `point_at` writes for reference `r`.
pub open spec fn written_at(imm: Map<u32, ImmRef>, r: u32) -> Set<u32> {
    if imm.contains_key(r) {
        set![imm[r].hi_off, imm[r].lo_off]
    } else {
        set![r]
    }
}

/// Whether the writes for references `a` and `b` leave each other alone:
/// a pointer word is no word of the other, no low half is a word of the
/// other, and two pairs sharing a high half rebuild it the same way.
pub open spec fn writes_apart(imm: Map<u32, ImmRef>, a: u32, b: u32) -> bool {
    &&& !imm.contains_key(a) ==> !written_at(imm, b).contains(a)
    &&& imm.contains_key(a) && imm.contains_key(b) ==> imm[a].lo_off != imm[b].hi_off && imm[a].lo_off != imm[b].lo_off
        && (imm[a].hi_off == imm[b].hi_off ==> imm[a].kind == imm[b].kind)
}

/// The words written for reference `r` once its string moves to `ram`: a
/// pointer word holds `ram`; a pair is rebuilt from its retail words.
pub open spec fn moved(buf: Seq<u8>, imm: Map<u32, ImmRef>, res: Map<u32, u32>, r: u32, ram: u32) -> bool {
    if imm.contains_key(r) {
        let (h, l) = rewritten(word_of(buf, imm[r].hi_off), word_of(buf, imm[r].lo_off), imm[r].kind, ram);
        res.contains_key(imm[r].hi_off) && res.contains_key(imm[r].lo_off) && res[imm[r].hi_off] == h && res[imm[r].lo_off] == l
    } else {
        res.contains_key(r) && res[r] == ram
    }
}

/// A moved pair builds `ram` and keeps both opcode halves.
pub open spec fn pair_builds(buf: Seq<u8>, imm: Map<u32, ImmRef>, res: Map<u32, u32>, r: u32, ram: u32) -> bool {
    imm.contains_key(r) ==> {
        &&& built_addr(res[imm[r].hi_off], res[imm[r].lo_off], imm[r].kind) == ram
        &&& res[imm[r].hi_off] & 0xffff0000 == word_of(buf, imm[r].hi_off) & 0xffff0000
        &&& res[imm[r].lo_off] & 0xffff0000 == word_of(buf, imm[r].lo_off) & 0xffff0000
    }
}

/// Moving a string moves every reference to it: after `point_at`, each
/// pointer word among `refs` holds `ram`, and each immediate pair among them
/// is rebuilt to build `ram` with its opcodes kept, so long as the words
/// written for two different references leave each other alone.
pub proof fn lemma_every_reference_moves(buf: Seq<u8>, imm: Map<u32, ImmRef>, refs: Seq<u32>, ram: u32, m: Map<u32, u32>)
    requires
        forall|i: int, j: int|
            0 <= i < refs.len() && 0 <= j < refs.len() && refs[i] != refs[j] ==> writes_apart(imm, #[trigger] refs[i], #[trigger] refs[j]),
        forall|i: int| 0 <= i < refs.len() && #[trigger] imm.contains_key(refs[i]) ==> imm[refs[i]].hi_off != imm[refs[i]].lo_off,
    ensures
        forall|i: int| 0 <= i < refs.len() ==> moved(buf, imm, point_updates(buf, imm, refs, ram, refs.len() as int, m), #[trigger] refs[i], ram),
        forall|i: int| 0 <= i < refs.len() ==> pair_builds(buf, imm, point_updates(buf, imm, refs, ram, refs.len() as int, m), #[trigger] refs[i], ram),
    decreases refs.len(),
{
    if refs.len() > 0 {
        let n = refs.len() as int;
        let init = refs.drop_last();
        assert forall|i: int, j: int|
            0 <= i < init.len() && 0 <= j < init.len() && init[i] != init[j] implies writes_apart(imm, #[trigger] init[i], #[trigger] init[j]) by {
            assert(init[i] == refs[i] && init[j] == refs[j]);
        }
        assert forall|i: int| 0 <= i < init.len() && #[trigger] imm.contains_key(init[i]) implies imm[init[i]].hi_off != imm[init[i]].lo_off by {
            assert(init[i] == refs[i]);
        }
        lemma_every_reference_moves(buf, imm, init, ram, m);
        lemma_point_prefix(buf, imm, refs, ram, n - 1, m);
        let prev = point_updates(buf, imm, refs, ram, n - 1, m);
        let res = point_updates(buf, imm, refs, ram, n, m);
        let last = refs[n - 1];
        assert forall|i: int| 0 <= i < n implies moved(buf, imm, res, #[trigger] refs[i], ram) by {
            let r = refs[i];
            if r != last {
                assert(init[i] == r);
                assert(moved(buf, imm, prev, r, ram));
                assert(writes_apart(imm, r, last));
                assert(writes_apart(imm, last, r));
            }
        }
        assert forall|i: int| 0 <= i < n implies pair_builds(buf, imm, res, #[trigger] refs[i], ram) by {
            let r = refs[i];
            assert(moved(buf, imm, res, r, ram));
            if imm.contains_key(r) {
                lemma_rewritten_builds(word_of(buf, imm[r].hi_off), word_of(buf, imm[r].lo_off), imm[r].kind, ram);
            }
        }
    }
}

proof fn lemma_point_prefix(buf: Seq<u8>, imm: Map<u32, ImmRef>, refs: Seq<u32>, ram: u32, k: int, m: Map<u32, u32>)
    requires
        refs.len() > 0,
        0 <= k <= refs.len() - 1,
    ensures
        point_updates(buf, imm, refs.drop_last(), ram, k, m) == point_updates(buf, imm, refs, ram, k, m),
    decreases k,
{
    if k > 0 {
        lemma_point_prefix(buf, imm, refs, ram, k - 1, m);
        assert(refs.drop_last()[k - 1] == refs[k - 1]);
    }
}

} // verus!
