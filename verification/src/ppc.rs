//! Text the code addresses with an immediate pair (`lis` + `addi`/`ori`)
//! instead of loading from a pointer word.
//!
//! Both the dumper and the patcher call [`scan`] on the same untouched
//! `main.dol`, so the pairing never has to survive in the `.patch` file.
//! Anything left out is recorded in [`Scan::rejected`] and the string it
//! points at is dropped from the dump rather than half-relocated.

use vstd::prelude::*;
use std::collections::{HashMap, HashSet};
use crate::bytes::{be16, spec_u32_at, u32at};
use crate::constants::{EXCLUDED_TEXT, inline_fields, cpu_names};
use crate::shape::{DolHeader, Section};
use crate::sorted_map::{SortedMap, keys_sorted, seq_map, seq_has};
use crate::patcher::{increasing, lemma_increasing_unique};
use crate::text::{push_str, chars_of, append_chars, string_of};

verus! {

/// `_SDA_BASE_` (r13) and `_SDA2_BASE_` (r2), set by the init code at
/// 0x8000544c and 0x80005444. Nothing in game code reloads them.
pub const SDA_BASE: u32 = 0x802d4e00;
pub const SDA2_BASE: u32 = 0x802d6920;

/// A run this long is not a string; the longest the game ships is 163 glyphs.
pub const MAX_GLYPHS: u32 = 4096;

pub const TERMINATOR: u16 = 0xf800;

#[derive(Clone, Copy, PartialEq, Eq, Debug, Structural)]
pub enum ImmKind {
    /// low half is sign-extended, so the high half needs the `@ha` carry
    Addi,
    /// low half is zero-extended
    Ori,
}

impl ImmKind {
    pub fn name(&self) -> (s: &'static str)
        ensures
            *self == ImmKind::Addi ==> s@ == "addi"@,
            *self == ImmKind::Ori ==> s@ == "ori"@,
    {
        match self {
            ImmKind::Addi => "addi",
            ImmKind::Ori => "ori",
        }
    }
}

/// The address `hi_imm:lo_imm` builds: `addi` adds the sign-extended low half
/// to the high half shifted up, `ori` ors the low half in.
pub open spec fn built_addr(hi_imm: u32, lo_imm: u32, kind: ImmKind) -> u32 {
    match kind {
        ImmKind::Addi => (((hi_imm & 0xffff) << 16u32) + (if lo_imm & 0x8000 != 0 {
            (lo_imm & 0xffff) | 0xffff0000u32
        } else {
            lo_imm & 0xffff
        })) as u32,
        ImmKind::Ori => ((hi_imm & 0xffff) << 16u32) | (lo_imm & 0xffff),
    }
}

/// The two instruction words that make `pair` build `addr` instead.
///
/// `addi` sign-extends its low half, so a low half with bit 15 set borrows one
/// from the high half; `ori` zero-extends and must not get that carry.
/// The `@ha` half of `addr`: the high half plus the borrow the sign-extended
/// low half takes.
pub open spec fn ha(addr: u32) -> u32 {
    (((addr >> 16u32) + ((addr >> 15u32) & 1u32)) as u32) & 0xffffu32
}

pub fn rewrite(hi_insn: u32, lo_insn: u32, kind: ImmKind, addr: u32) -> (r: (u32, u32))
    ensures
        r.0 & 0xffff0000 == hi_insn & 0xffff0000,
        r.1 & 0xffff0000 == lo_insn & 0xffff0000,
        built_addr(r.0, r.1, kind) == addr,
        kind == ImmKind::Addi ==> r.0 & 0xffff == ha(addr),
        kind == ImmKind::Ori ==> r.0 & 0xffff == addr >> 16u32,
        r.1 & 0xffff == addr & 0xffff,
{
    assert(addr >> 16u32 <= 0xffffu32 && (addr >> 15u32) & 1u32 <= 1u32) by (bit_vector);
    let hi = match kind {
        ImmKind::Addi => ((addr >> 16) + ((addr >> 15) & 1)) & 0xffff,
        ImmKind::Ori => addr >> 16,
    };
    let lo = addr & 0xffff;
    let h = (hi_insn & 0xffff0000) | hi;
    let l = (lo_insn & 0xffff0000) | lo;
    proof {
        assert(((lo_insn & 0xffff0000u32) | (addr & 0xffffu32)) & 0xffff0000u32 == lo_insn & 0xffff0000u32
            && ((lo_insn & 0xffff0000u32) | (addr & 0xffffu32)) & 0xffffu32 == addr & 0xffffu32) by (bit_vector);
        match kind {
            ImmKind::Addi => {
                assert(hi == ha(addr));
                assert((((addr >> 16u32) + ((addr >> 15u32) & 1u32)) as u32) & 0xffffu32 <= 0xffffu32) by (bit_vector);
                assert(((hi_insn & 0xffff0000u32) | hi) & 0xffff0000u32 == hi_insn & 0xffff0000u32
                    && ((hi_insn & 0xffff0000u32) | hi) & 0xffffu32 == hi) by (bit_vector)
                    requires hi <= 0xffffu32;
                assert(l & 0xffffu32 == addr & 0xffffu32);
                assert(h & 0xffffu32 == hi);
                assert((((h & 0xffffu32) << 16u32) + (if l & 0x8000u32 != 0 {
                    (l & 0xffffu32) | 0xffff0000u32
                } else {
                    l & 0xffffu32
                })) as u32 == addr) by (bit_vector)
                    requires
                        hi == (((addr >> 16u32) + ((addr >> 15u32) & 1u32)) as u32) & 0xffffu32,
                        l & 0xffffu32 == addr & 0xffffu32,
                        h & 0xffffu32 == hi;
                assert(l & 0x8000u32 == (l & 0xffffu32) & 0x8000u32) by (bit_vector);
            },
            ImmKind::Ori => {
                assert(((hi_insn & 0xffff0000u32) | (addr >> 16u32)) & 0xffff0000u32 == hi_insn & 0xffff0000u32
                    && ((hi_insn & 0xffff0000u32) | (addr >> 16u32)) & 0xffffu32 == addr >> 16u32) by (bit_vector);
                assert((((h & 0xffffu32) << 16u32) | (l & 0xffffu32)) == addr) by (bit_vector)
                    requires
                        h & 0xffffu32 == addr >> 16u32,
                        l & 0xffffu32 == addr & 0xffffu32;
            },
        }
    }
    (h, l)
}

/// The 32-bit displacement from `from` to `to`, modulo 2^32.
pub open spec fn rel_disp(from: u32, to: u32) -> u32 {
    if to >= from {
        (to - from) as u32
    } else {
        (0x1_0000_0000 + to - from) as u32
    }
}

/// The sign-extended displacement field of an I-form branch word.
pub open spec fn branch_field(w: u32) -> u32 {
    if w & 0x0200_0000 != 0 {
        (w & 0x03fffffc) | 0xfc00_0000u32
    } else {
        w & 0x03fffffc
    }
}

/// `x + y` modulo 2^32.
pub open spec fn wrap_add(x: u32, y: u32) -> u32 {
    if x + y >= 0x1_0000_0000 {
        (x + y - 0x1_0000_0000) as u32
    } else {
        (x + y) as u32
    }
}

pub proof fn lemma_wrap_add_trunc(x: u32, y: u32)
    ensures
        wrap_add(x, y) == (x + y) as u32,
{
    assert((if x + y >= 0x1_0000_0000 { (x + y - 0x1_0000_0000) as u32 } else { (x + y) as u32 }) == (x + y) as u32) by (bit_vector);
}

pub fn wrapping_add_u32(x: u32, y: u32) -> (r: u32)
    ensures
        r == wrap_add(x, y),
{
    if y > u32::MAX - x {
        y - (u32::MAX - x) - 1
    } else {
        x + y
    }
}

/// The address an I-form branch word at `from` jumps to (`aa` clear).
pub open spec fn branch_dest(from: u32, w: u32) -> u32 {
    wrap_add(from, branch_field(w))
}

/// Why a branch could not be encoded.
#[derive(Clone, Copy, Debug, PartialEq, Eq, Structural)]
pub enum BranchError {
    /// the displacement is not a multiple of four
    Misaligned,
    /// the displacement does not fit the 26-bit field
    OutOfRange,
}

/// The word `b to` at `from`, or why there is none.
pub open spec fn spec_branch(from: u32, to: u32) -> Result<u32, BranchError> {
    let disp = rel_disp(from, to);
    if disp & 3 != 0 {
        Err(BranchError::Misaligned)
    } else if !(disp < 0x0200_0000 || disp >= 0xfe00_0000) {
        Err(BranchError::OutOfRange)
    } else {
        Ok(0x4800_0000u32 | (disp & 0x03ff_fffc))
    }
}

/// `b to`, placed at `from`: the I-form relative branch, refused when the
/// displacement is misaligned or beyond the signed 26-bit field.
pub fn branch(from: u32, to: u32) -> (r: Result<u32, BranchError>)
    ensures
        r == spec_branch(from, to),
        r matches Ok(w) ==> w >> 26u32 == 18 && w & 3 == 0 && branch_dest(from, w) == to,
        r == Err::<u32, BranchError>(BranchError::Misaligned) <==> rel_disp(from, to) & 3 != 0,
        r == Err::<u32, BranchError>(BranchError::OutOfRange) <==> rel_disp(from, to) & 3 == 0 && !(rel_disp(
            from,
            to,
        ) < 0x0200_0000 || rel_disp(from, to) >= 0xfe00_0000),
{
    let disp: u32 = if to >= from {
        to - from
    } else {
        u32::MAX - (from - to) + 1
    };
    if disp & 3 != 0 {
        return Err(BranchError::Misaligned);
    }
    if !(disp < 0x0200_0000 || disp >= 0xfe00_0000) {
        return Err(BranchError::OutOfRange);
    }
    let w = 0x4800_0000u32 | (disp & 0x03ff_fffc);
    proof {
        assert(disp & 3 == 0 && (disp < 0x0200_0000 || disp >= 0xfe00_0000) ==> {
            let w = 0x4800_0000u32 | (disp & 0x03ff_fffc);
            &&& w >> 26u32 == 18
            &&& w & 3 == 0
            &&& (if w & 0x0200_0000 != 0 { (w & 0x03fffffc) | 0xfc00_0000u32 } else { w & 0x03fffffc }) == disp
        }) by (bit_vector);
        assert(branch_field(w) == disp);
    }
    Ok(w)
}

/// Does this halfword make sense inside a string? The tables a payload indexes
/// have known sizes, and the families that ignore their payload only ever ship
/// with it zeroed.
pub open spec fn spec_text_code(g: u16) -> bool {
    let n = g & 0x07ff;
    let f = g & 0xf800;
    if f == 0x0000 {
        n < 0x0400
    } else if f == 0x1000 || f == 0x1800 || f == 0x7800 {
        n <= 31
    } else if f == 0x2000 || f == 0x2800 || f == 0x6800 {
        n <= 64
    } else if f == 0x3000 {
        n <= 0xff
    } else if f == 0x4000 {
        n <= 0xf
    } else if f == 0x7000 {
        n <= 8
    } else if f == 0x5000 || f == 0x6000 || f == 0xc800 || f == 0xe000 || f == 0xf000 {
        n <= 640
    } else if f == 0xc000 {
        false
    } else if f == 0x3800 || f == 0x4800 || f == 0x5800 || f == 0x8000 || f == 0x8800 || f == 0x9000
        || f == 0x9800 || f == 0xa000 || f == 0xb000 {
        n == 0
    } else {
        true
    }
}

/// Every glyph of the four font pages, codes 0x0000 to 0x03FF, is text.
pub proof fn lemma_font_glyphs_are_text(g: u16)
    requires
        g < 0x0400,
    ensures
        spec_text_code(g),
{
    assert(g & 0xf800 == 0 && g & 0x07ff == g) by (bit_vector)
        requires
            g < 0x0400,
    ;
}

/// A run of font-page glyphs, at least one, ended by the terminator inside
/// `[at, end)` and short enough, is a glyph run.
pub proof fn lemma_glyph_text_is_a_run(buf: Seq<u8>, at: int, end: int, n: nat, m: nat)
    requires
        m >= 1,
        n + m < MAX_GLYPHS,
        0 <= at,
        at + 2 * m + 2 <= end,
        end <= buf.len(),
        forall|k: int| 0 <= k < m ==> #[trigger] be16(buf[at + 2 * k], buf[at + 2 * k + 1]) < 0x0400,
        be16(buf[at + 2 * m], buf[at + 2 * m + 1]) == TERMINATOR,
    ensures
        run_from(buf, at, end, n),
    decreases m,
{
    let g = be16(buf[at], buf[at + 1]);
    assert(be16(buf[at + 2 * 0], buf[at + 2 * 0 + 1]) < 0x0400);
    lemma_font_glyphs_are_text(g);
    assert(g != TERMINATOR);
    if m == 1 {
        assert(be16(buf[at + 2], buf[at + 3]) == TERMINATOR);
        assert(run_from(buf, at + 2, end, n + 1));
    } else {
        assert forall|k: int| 0 <= k < m - 1 implies #[trigger] be16(buf[(at + 2) + 2 * k], buf[(at + 2) + 2 * k + 1]) < 0x0400 by {
            assert(be16(buf[at + 2 * (k + 1)], buf[at + 2 * (k + 1) + 1]) < 0x0400);
        }
        lemma_glyph_text_is_a_run(buf, at + 2, end, n + 1, (m - 1) as nat);
    }
}

pub fn text_code(g: u16) -> (r: bool)
    ensures
        r == spec_text_code(g),
{
    let n = g & 0x07ff;
    let f = g & 0xf800;
    if f == 0x0000 {
        n < 0x0400 // four font page tables exist
    } else if f == 0x1000 || f == 0x1800 || f == 0x7800 {
        n <= 31 // digits; more overruns the scratch buffer
    } else if f == 0x2000 || f == 0x2800 || f == 0x6800 {
        n <= 64 // field width in characters
    } else if f == 0x3000 {
        n <= 0xff // per-character delay, 0xff meaning none
    } else if f == 0x4000 {
        n <= 0xf // 16-entry colour table at 0x801b7404
    } else if f == 0x7000 {
        n <= 8 // 9-entry scale table at 0x801b73e0
    } else if f == 0x5000 || f == 0x6000 || f == 0xc800 || f == 0xe000 || f == 0xf000 {
        n <= 640 // pen x, pen y and the shrink budget, in pixels
    } else if f == 0xc000 {
        false // no case in the handler tree
    } else if f == 0x3800 || f == 0x4800 || f == 0x5800 || f == 0x8000 || f == 0x8800 || f == 0x9000
        || f == 0x9800 || f == 0xa000 || f == 0xb000 {
        n == 0 // the payload is ignored, so real text leaves it zero
    } else {
        true // sound, icon and voice ids, whose tables we have not sized
    }
}

/// Every live section's file image lies inside `buf`.
pub open spec fn covers(h: &DolHeader, buf: Seq<u8>) -> bool {
    forall|i: int| 0 <= i < h.sections@.len() && (#[trigger] h.sections@[i]).size != 0 ==> h.sections@[i].file
        + h.sections@[i].size <= buf.len()
}

/// The first non-empty data section (file offset at or past `data_start`)
/// whose RAM image holds `addr`, from index `i` on.
pub open spec fn find_data_section(secs: Seq<Section>, data_start: u32, addr: u32, i: int) -> Option<Section>
    decreases secs.len() - i,
{
    if i < 0 || i >= secs.len() {
        None
    } else if secs[i].file >= data_start && secs[i].holds_ram(addr) {
        Some(secs[i])
    } else {
        find_data_section(secs, data_start, addr, i + 1)
    }
}

/// Whether the halfwords from `at` on, before `end`, are `n`.. text codes up
/// to a terminator that is not the first word, within `MAX_GLYPHS` words.
pub open spec fn run_from(buf: Seq<u8>, at: int, end: int, n: nat) -> bool
    decreases MAX_GLYPHS - n,
{
    if n >= MAX_GLYPHS {
        false
    } else if at + 2 > end {
        false
    } else if be16(buf[at], buf[at + 1]) == TERMINATOR {
        n > 0
    } else if !spec_text_code(be16(buf[at], buf[at + 1])) {
        false
    } else {
        run_from(buf, at + 2, end, n + 1)
    }
}

/// Excluded by address: the interrupt-mask table, and anything inside the CPU
/// name records.
pub open spec fn excluded_addr(addr: u32) -> bool {
    addr == EXCLUDED_TEXT || cpu_names().spec_contains(addr)
}

/// File offset of a 0xF800-terminated run at `addr`, if that is really what
/// lives there.
pub open spec fn spec_glyph_run(buf: Seq<u8>, h: &DolHeader, addr: u32) -> Option<u32> {
    if addr & 1 != 0 || excluded_addr(addr) {
        None
    } else {
        match find_data_section(h.sections@, h.spec_data_start(), addr, 0) {
            None => None,
            Some(s) => {
                let off = (s.file + (addr - s.ram)) as u32;
                if run_from(buf, off as int, s.file + s.size, 0) {
                    Some(off)
                } else {
                    None
                }
            },
        }
    }
}

/// The index of the section `find_data_section` settles on.
fn find_data_section_exec(header: &DolHeader, data_start: u32, addr: u32) -> (r: Option<usize>)
    ensures
        r is None ==> find_data_section(header.sections@, data_start, addr, 0) is None,
        r matches Some(k) ==> k < header.sections@.len() && find_data_section(header.sections@, data_start, addr, 0)
            == Some(header.sections@[k as int]) && header.sections@[k as int].holds_ram(addr)
            && header.sections@[k as int].file >= data_start,
{
    let mut i: usize = 0;
    while i < header.sections.len()
        invariant
            i <= header.sections@.len(),
            find_data_section(header.sections@, data_start, addr, 0) == find_data_section(
                header.sections@,
                data_start,
                addr,
                i as int,
            ),
        decreases header.sections@.len() - i,
    {
        let s = header.sections[i];
        if s.file >= data_start && s.size != 0 && addr >= s.ram && addr - s.ram < s.size {
            return Some(i);
        }
        i = i + 1;
    }
    None
}

pub fn glyph_run(buf: &[u8], header: &DolHeader, addr: u32) -> (r: Option<u32>)
    requires
        header.wf(),
        header.fits(),
        covers(header, buf@),
    ensures
        r == spec_glyph_run(buf@, header, addr),
{
    if addr & 1 != 0 {
        return None;
    }
    let fields = inline_fields();
    if addr == EXCLUDED_TEXT || fields[0].contains(addr) {
        return None;
    }
    let data_start = header.data_start();
    let k = match find_data_section_exec(header, data_start, addr) {
        Some(k) => k,
        None => {
            return None;
        },
    };
    let section = header.sections[k];
    assert(header.sections@[k as int].fits());
    let off = section.file + (addr - section.ram);
    let mut at: u64 = off as u64;
    let end: u64 = section.file as u64 + section.size as u64;
    assert(end <= buf@.len());
    let mut n: u32 = 0;
    while n < MAX_GLYPHS
        invariant
            n <= MAX_GLYPHS,
            off <= at,
            end as int <= buf@.len(),
            run_from(buf@, off as int, end as int, 0) == run_from(buf@, at as int, end as int, n as nat),
            at == off + 2 * n,
            spec_glyph_run(buf@, header, addr) == (if run_from(buf@, off as int, end as int, 0) {
                Some(off)
            } else {
                None
            }),
        decreases MAX_GLYPHS - n,
    {
        if at + 2 > end {
            return None;
        }
        let g = (buf[at as usize] as u16) * 256 + buf[at as usize + 1] as u16;
        if g == TERMINATOR {
            // a bare terminator is a hole between strings, not a string
            if n > 0 {
                return Some(off);
            } else {
                return None;
            }
        }
        if !text_code(g) {
            return None;
        }
        at = at + 2;
        n = n + 1;
    }
    None
}

/// The big-endian word at `off`, when four bytes are there.
pub fn word(buf: &[u8], off: u32) -> (r: Option<u32>)
    ensures
        r == spec_u32_at(buf@, off as int),
{
    u32at(buf, off as usize)
}


/// How an instruction leaves the straight-line window.
#[derive(Clone, Copy, PartialEq, Eq, Debug, Structural)]
pub enum Flow {
    Straight,
    Call,
    Branch,
}

/// Which GPRs an instruction reads and writes, whether it builds an address
/// off a register (and how), and how control continues.
#[derive(Clone, Copy, Debug)]
pub struct Eff {
    pub reads: u32,
    pub writes: u32,
    /// base register and kind of a low-half consumer (`addi`/`ori`)
    pub consumer: Option<(u32, ImmKind)>,
    pub flow: Flow,
    pub known: bool,
}

pub open spec fn spec_bit(r: u32) -> u32 {
    1u32 << r
}

pub open spec fn spec_upto31(r: u32) -> u32 {
    !0u32 << r
}

pub open spec fn spec_rw(writes: u32, reads: u32) -> Eff {
    Eff { reads, writes, consumer: None, flow: Flow::Straight, known: true }
}

pub open spec fn spec_consumer_eff(writes: u32, base: u32, kind: ImmKind) -> Eff {
    Eff { reads: 0, writes, consumer: Some((base, kind)), flow: Flow::Straight, known: true }
}

pub open spec fn spec_flow(f: Flow) -> Eff {
    Eff { reads: 0, writes: 0, consumer: None, flow: f, known: true }
}

pub open spec fn spec_unknown() -> Eff {
    Eff { reads: 0, writes: 0, consumer: None, flow: Flow::Straight, known: false }
}

/// The effect of an X-form (primary opcode 31) instruction.
pub open spec fn spec_x_form(w: u32, d: u32, a: u32, b: u32) -> Eff {
    let xo = (w >> 1u32) & 0x3ffu32;
    let x9 = xo & 0x1ffu32;
    // the OE bit sits above the 9-bit XO of the XO-form arithmetic
    let arith = x9 == 8 || x9 == 10 || x9 == 40 || x9 == 136 || x9 == 138 || x9 == 235 || x9 == 266 || x9 == 459
        || x9 == 491 || x9 == 104 || x9 == 200 || x9 == 202 || x9 == 232 || x9 == 234;
    if xo == 0 || xo == 4 || xo == 32 {
        spec_rw(0, spec_bit(a) | spec_bit(b)) // cmp tw cmpl
    } else if xo == 20 || xo == 23 || xo == 87 || xo == 279 || xo == 343 || xo == 533 || xo == 534 || xo == 790 {
        spec_rw(spec_bit(d), spec_bit(a) | spec_bit(b)) // indexed loads
    } else if xo == 55 || xo == 119 || xo == 311 || xo == 375 {
        spec_rw(spec_bit(d) | spec_bit(a), spec_bit(a) | spec_bit(b))
    } else if xo == 150 || xo == 151 || xo == 215 || xo == 407 || xo == 661 || xo == 662 || xo == 918 {
        spec_rw(0, spec_bit(d) | spec_bit(a) | spec_bit(b)) // indexed stores
    } else if xo == 183 || xo == 247 || xo == 439 {
        spec_rw(spec_bit(a), spec_bit(d) | spec_bit(a) | spec_bit(b))
    } else if xo == 535 || xo == 599 || xo == 663 || xo == 727 || xo == 983 {
        spec_rw(0, spec_bit(a) | spec_bit(b)) // indexed float loads and stores
    } else if xo == 567 || xo == 631 || xo == 695 || xo == 759 {
        spec_rw(spec_bit(a), spec_bit(a) | spec_bit(b))
    } else if xo == 8 || xo == 10 || xo == 11 || xo == 40 || xo == 75 || xo == 136 || xo == 138 || xo == 235
        || xo == 266 || xo == 459 || xo == 491 {
        spec_rw(spec_bit(d), spec_bit(a) | spec_bit(b)) // rD = f(rA, rB)
    } else if xo == 104 || xo == 200 || xo == 202 || xo == 232 || xo == 234 {
        spec_rw(spec_bit(d), spec_bit(a)) // neg subfze addze subfme addme
    } else if xo == 24 || xo == 28 || xo == 60 || xo == 124 || xo == 284 || xo == 316 || xo == 412 || xo == 444
        || xo == 476 || xo == 536 || xo == 792 {
        spec_rw(spec_bit(a), spec_bit(d) | spec_bit(b)) // rA = f(rS, rB)
    } else if xo == 26 || xo == 824 || xo == 922 || xo == 954 {
        spec_rw(spec_bit(a), spec_bit(d)) // cntlzw srawi extsh extsb
    } else if xo == 19 || xo == 83 || xo == 339 || xo == 371 {
        spec_rw(spec_bit(d), 0) // mfcr mfmsr mfspr mftb
    } else if xo == 144 || xo == 146 || xo == 467 || xo == 512 {
        spec_rw(0, spec_bit(d)) // mtcrf mtmsr mtspr mcrxr
    } else if xo == 54 || xo == 86 || xo == 246 || xo == 278 || xo == 306 || xo == 370 || xo == 470 || xo == 566
        || xo == 598 || xo == 854 || xo == 982 || xo == 1014 {
        spec_rw(0, spec_bit(a) | spec_bit(b)) // cache, sync, tlb
    } else if xo >= 512 && arith {
        spec_rw(spec_bit(d), spec_bit(a) | spec_bit(b))
    } else {
        spec_unknown()
    }
}

/// The effect of instruction `w`. Writes are exact; reads may be
/// over-reported, since an extra read only costs a string.
pub open spec fn spec_eff(w: u32) -> Eff {
    let op = w >> 26u32;
    let d = (w >> 21u32) & 31u32;
    let a = (w >> 16u32) & 31u32;
    let b = (w >> 11u32) & 31u32;
    if op == 3 {
        spec_rw(0, spec_bit(a)) // twi
    } else if op == 7 || op == 8 || op == 12 || op == 13 {
        spec_rw(spec_bit(d), spec_bit(a)) // mulli subfic addic addic.
    } else if op == 10 || op == 11 {
        spec_rw(0, spec_bit(a)) // cmpli cmpi
    } else if op == 14 {
        // addi / li / subi
        if a == 0 {
            spec_rw(spec_bit(d), 0)
        } else {
            spec_consumer_eff(spec_bit(d), a, ImmKind::Addi)
        }
    } else if op == 15 {
        spec_rw(spec_bit(d), spec_bit(a)) // addis with rA != 0; lis is handled by scan
    } else if op == 16 {
        spec_flow(Flow::Branch) // bc
    } else if op == 18 {
        spec_flow(if w & 1 != 0 { Flow::Call } else { Flow::Branch })
    } else if op == 19 {
        let xo = (w >> 1u32) & 0x3ffu32;
        if xo == 16 || xo == 528 {
            spec_flow(if w & 1 != 0 { Flow::Call } else { Flow::Branch })
        } else if xo == 0 || xo == 33 || xo == 129 || xo == 150 || xo == 193 || xo == 225 || xo == 257
            || xo == 289 || xo == 417 || xo == 449 {
            spec_rw(0, 0)
        } else {
            spec_unknown()
        }
    } else if op == 20 {
        spec_rw(spec_bit(a), spec_bit(d) | spec_bit(a)) // rlwimi
    } else if op == 21 {
        spec_rw(spec_bit(a), spec_bit(d)) // rlwinm
    } else if op == 23 {
        spec_rw(spec_bit(a), spec_bit(d) | spec_bit(b)) // rlwnm
    } else if op == 24 {
        // ori; `ori r0,r0,0` is the nop
        if w == 0x60000000 {
            spec_rw(0, 0)
        } else {
            spec_consumer_eff(spec_bit(a), d, ImmKind::Ori)
        }
    } else if 25 <= op && op <= 29 {
        spec_rw(spec_bit(a), spec_bit(d)) // oris xori xoris andi. andis.
    } else if op == 31 {
        spec_x_form(w, d, a, b)
    } else if op == 32 || op == 34 || op == 40 || op == 42 {
        spec_rw(spec_bit(d), spec_bit(a)) // lwz lbz lhz lha
    } else if op == 33 || op == 35 || op == 41 || op == 43 {
        spec_rw(spec_bit(d) | spec_bit(a), spec_bit(a)) // ...u
    } else if op == 36 || op == 38 || op == 44 {
        spec_rw(0, spec_bit(d) | spec_bit(a)) // stw stb sth
    } else if op == 37 || op == 39 || op == 45 {
        spec_rw(spec_bit(a), spec_bit(d) | spec_bit(a)) // ...u
    } else if op == 46 {
        spec_rw(spec_upto31(d), spec_bit(a)) // lmw
    } else if op == 47 {
        spec_rw(0, spec_upto31(d) | spec_bit(a)) // stmw
    } else if op == 48 || op == 50 || op == 52 || op == 54 || op == 56 || op == 60 {
        spec_rw(0, spec_bit(a)) // lfs lfd stfs stfd psq_l psq_st
    } else if op == 49 || op == 51 || op == 53 || op == 55 || op == 57 || op == 61 {
        spec_rw(spec_bit(a), spec_bit(a)) // ...u
    } else if op == 4 || op == 59 || op == 63 {
        spec_rw(0, spec_bit(a) | spec_bit(b)) // ps / float: no GPR result
    } else {
        spec_unknown()
    }
}

fn bit(r: u32) -> (v: u32)
    requires
        r < 32,
    ensures
        v == spec_bit(r),
{
    1u32 << r
}

fn upto31(r: u32) -> (v: u32)
    requires
        r < 32,
    ensures
        v == spec_upto31(r),
{
    !0u32 << r
}

fn rw(writes: u32, reads: u32) -> (e: Eff)
    ensures
        e == spec_rw(writes, reads),
{
    Eff { reads, writes, consumer: None, flow: Flow::Straight, known: true }
}

fn consumer_eff(writes: u32, base: u32, kind: ImmKind) -> (e: Eff)
    ensures
        e == spec_consumer_eff(writes, base, kind),
{
    Eff { reads: 0, writes, consumer: Some((base, kind)), flow: Flow::Straight, known: true }
}

fn flow(f: Flow) -> (e: Eff)
    ensures
        e == spec_flow(f),
{
    Eff { reads: 0, writes: 0, consumer: None, flow: f, known: true }
}

fn unknown() -> (e: Eff)
    ensures
        e == spec_unknown(),
{
    Eff { reads: 0, writes: 0, consumer: None, flow: Flow::Straight, known: false }
}

fn x_form(w: u32, d: u32, a: u32, b: u32) -> (e: Eff)
    requires
        d < 32 && a < 32 && b < 32,
    ensures
        e == spec_x_form(w, d, a, b),
{
    let xo = (w >> 1u32) & 0x3ffu32;
    let x9 = xo & 0x1ffu32;
    // the OE bit sits above the 9-bit XO of the XO-form arithmetic
    let arith = x9 == 8 || x9 == 10 || x9 == 40 || x9 == 136 || x9 == 138 || x9 == 235 || x9 == 266 || x9 == 459
        || x9 == 491 || x9 == 104 || x9 == 200 || x9 == 202 || x9 == 232 || x9 == 234;
    if xo == 0 || xo == 4 || xo == 32 {
        rw(0, bit(a) | bit(b)) // cmp tw cmpl
    } else if xo == 20 || xo == 23 || xo == 87 || xo == 279 || xo == 343 || xo == 533 || xo == 534 || xo == 790 {
        rw(bit(d), bit(a) | bit(b)) // indexed loads
    } else if xo == 55 || xo == 119 || xo == 311 || xo == 375 {
        rw(bit(d) | bit(a), bit(a) | bit(b))
    } else if xo == 150 || xo == 151 || xo == 215 || xo == 407 || xo == 661 || xo == 662 || xo == 918 {
        rw(0, bit(d) | bit(a) | bit(b)) // indexed stores
    } else if xo == 183 || xo == 247 || xo == 439 {
        rw(bit(a), bit(d) | bit(a) | bit(b))
    } else if xo == 535 || xo == 599 || xo == 663 || xo == 727 || xo == 983 {
        rw(0, bit(a) | bit(b)) // indexed float loads and stores
    } else if xo == 567 || xo == 631 || xo == 695 || xo == 759 {
        rw(bit(a), bit(a) | bit(b))
    } else if xo == 8 || xo == 10 || xo == 11 || xo == 40 || xo == 75 || xo == 136 || xo == 138 || xo == 235
        || xo == 266 || xo == 459 || xo == 491 {
        rw(bit(d), bit(a) | bit(b)) // rD = f(rA, rB)
    } else if xo == 104 || xo == 200 || xo == 202 || xo == 232 || xo == 234 {
        rw(bit(d), bit(a)) // neg subfze addze subfme addme
    } else if xo == 24 || xo == 28 || xo == 60 || xo == 124 || xo == 284 || xo == 316 || xo == 412 || xo == 444
        || xo == 476 || xo == 536 || xo == 792 {
        rw(bit(a), bit(d) | bit(b)) // rA = f(rS, rB)
    } else if xo == 26 || xo == 824 || xo == 922 || xo == 954 {
        rw(bit(a), bit(d)) // cntlzw srawi extsh extsb
    } else if xo == 19 || xo == 83 || xo == 339 || xo == 371 {
        rw(bit(d), 0) // mfcr mfmsr mfspr mftb
    } else if xo == 144 || xo == 146 || xo == 467 || xo == 512 {
        rw(0, bit(d)) // mtcrf mtmsr mtspr mcrxr
    } else if xo == 54 || xo == 86 || xo == 246 || xo == 278 || xo == 306 || xo == 370 || xo == 470 || xo == 566
        || xo == 598 || xo == 854 || xo == 982 || xo == 1014 {
        rw(0, bit(a) | bit(b)) // cache, sync, tlb
    } else if xo >= 512 && arith {
        rw(bit(d), bit(a) | bit(b))
    } else {
        unknown()
    }
}

/// Which GPRs an instruction reads and writes.
///
/// Writes have to be exact: pretending a register is written hides a later
/// consumer and would let us rewrite a `lis` somebody else still reads. Reads
/// may be over-reported, since an extra read only costs us a string.
pub fn eff(w: u32) -> (e: Eff)
    ensures
        e == spec_eff(w),
{
    assert((w >> 21u32) & 31u32 < 32 && (w >> 16u32) & 31u32 < 32 && (w >> 11u32) & 31u32 < 32) by (bit_vector);
    let op = w >> 26u32;
    let d = (w >> 21u32) & 31u32;
    let a = (w >> 16u32) & 31u32;
    let b = (w >> 11u32) & 31u32;
    if op == 3 {
        rw(0, bit(a)) // twi
    } else if op == 7 || op == 8 || op == 12 || op == 13 {
        rw(bit(d), bit(a)) // mulli subfic addic addic.
    } else if op == 10 || op == 11 {
        rw(0, bit(a)) // cmpli cmpi
    } else if op == 14 {
        // addi / li / subi
        if a == 0 {
            rw(bit(d), 0)
        } else {
            consumer_eff(bit(d), a, ImmKind::Addi)
        }
    } else if op == 15 {
        rw(bit(d), bit(a)) // addis with rA != 0; lis is handled by scan
    } else if op == 16 {
        flow(Flow::Branch) // bc
    } else if op == 18 {
        flow(if w & 1 != 0 { Flow::Call } else { Flow::Branch })
    } else if op == 19 {
        let xo = (w >> 1u32) & 0x3ffu32;
        if xo == 16 || xo == 528 {
            flow(if w & 1 != 0 { Flow::Call } else { Flow::Branch })
        } else if xo == 0 || xo == 33 || xo == 129 || xo == 150 || xo == 193 || xo == 225 || xo == 257
            || xo == 289 || xo == 417 || xo == 449 {
            rw(0, 0)
        } else {
            unknown()
        }
    } else if op == 20 {
        rw(bit(a), bit(d) | bit(a)) // rlwimi
    } else if op == 21 {
        rw(bit(a), bit(d)) // rlwinm
    } else if op == 23 {
        rw(bit(a), bit(d) | bit(b)) // rlwnm
    } else if op == 24 {
        // ori; `ori r0,r0,0` is the nop
        if w == 0x60000000 {
            rw(0, 0)
        } else {
            consumer_eff(bit(a), d, ImmKind::Ori)
        }
    } else if 25 <= op && op <= 29 {
        rw(bit(a), bit(d)) // oris xori xoris andi. andis.
    } else if op == 31 {
        x_form(w, d, a, b)
    } else if op == 32 || op == 34 || op == 40 || op == 42 {
        rw(bit(d), bit(a)) // lwz lbz lhz lha
    } else if op == 33 || op == 35 || op == 41 || op == 43 {
        rw(bit(d) | bit(a), bit(a)) // ...u
    } else if op == 36 || op == 38 || op == 44 {
        rw(0, bit(d) | bit(a)) // stw stb sth
    } else if op == 37 || op == 39 || op == 45 {
        rw(bit(a), bit(d) | bit(a)) // ...u
    } else if op == 46 {
        rw(upto31(d), bit(a)) // lmw
    } else if op == 47 {
        rw(0, upto31(d) | bit(a)) // stmw
    } else if op == 48 || op == 50 || op == 52 || op == 54 || op == 56 || op == 60 {
        rw(0, bit(a)) // lfs lfd stfs stfd psq_l psq_st
    } else if op == 49 || op == 51 || op == 53 || op == 55 || op == 57 || op == 61 {
        rw(bit(a), bit(a)) // ...u
    } else if op == 4 || op == 59 || op == 63 {
        rw(0, bit(a) | bit(b)) // ps / float: no GPR result
    } else {
        unknown()
    }
}


/// The sign-extended displacement field of a B-form conditional branch.
pub open spec fn bc_field(w: u32) -> u32 {
    if w & 0x8000 != 0 {
        (w & 0xfffc) | 0xffff_0000u32
    } else {
        w & 0xfffc
    }
}

/// Where the direct branch `w` at `ram` goes, if `w` is `b` or `bc`.
pub open spec fn spec_branch_target(ram: u32, w: u32) -> Option<u32> {
    let op = w >> 26u32;
    if op == 18 || op == 16 {
        let t = if op == 18 { branch_field(w) } else { bc_field(w) };
        Some(if w & 2 != 0 { t } else { wrap_add(ram, t) })
    } else {
        None
    }
}

/// Whether offset `i` of section `k` is an instruction slot the scans visit:
/// a non-empty section below the data sections, a word-aligned offset in it.
pub open spec fn code_site(h: &DolHeader, k: int, i: int) -> bool {
    &&& 0 <= k < h.sections@.len()
    &&& h.sections@[k].size != 0
    &&& h.sections@[k].file < h.spec_data_start()
    &&& 0 <= i < h.sections@[k].size
    &&& i % 4 == 0
}

/// The branch target of the instruction at code site (`k`, `i`).
pub open spec fn site_target(buf: Seq<u8>, h: &DolHeader, k: int, i: int) -> Option<u32> {
    match spec_u32_at(buf, h.sections@[k].file + i) {
        Some(w) => spec_branch_target((h.sections@[k].ram + i) as u32, w),
        None => None,
    }
}

/// Whether some direct branch in the code sections jumps to `addr`.
pub open spec fn is_branch_target(buf: Seq<u8>, h: &DolHeader, addr: u32) -> bool {
    exists|k: int, i: int| code_site(h, k, i) && #[trigger] site_target(buf, h, k, i) == Some(addr)
}

fn branch_target_of(ram: u32, w: u32) -> (r: Option<u32>)
    ensures
        r == spec_branch_target(ram, w),
{
    let op = w >> 26;
    if op == 18 || op == 16 {
        let t = if op == 18 {
            if w & 0x0200_0000 != 0 {
                (w & 0x03fffffc) | 0xfc00_0000u32
            } else {
                w & 0x03fffffc
            }
        } else {
            if w & 0x8000 != 0 {
                (w & 0xfffc) | 0xffff_0000u32
            } else {
                w & 0xfffc
            }
        };
        Some(if w & 2 != 0 { t } else { wrapping_add_u32(ram, t) })
    } else {
        None
    }
}

/// Every address a direct branch in the DOL can jump to. Used to prove nothing
/// jumps into the middle of a pair.
pub fn branch_targets(buf: &[u8], header: &DolHeader) -> (r: HashSet<u32>)
    requires
        header.wf(),
        header.fits(),
    ensures
        forall|x: u32| r@.contains(x) <==> is_branch_target(buf@, header, x),
{
    broadcast use vstd::std_specs::hash::group_hash_axioms;
    let mut out: HashSet<u32> = HashSet::new();
    let data_start = header.data_start();
    let mut k: usize = 0;
    while k < header.sections.len()
        invariant
            header.wf(),
            header.fits(),
            data_start == header.spec_data_start(),
            k <= header.sections@.len(),
            forall|x: u32| out@.contains(x) <==> exists|kk: int, i: int|
                kk < k && code_site(header, kk, i) && #[trigger] site_target(buf@, header, kk, i) == Some(x),
        decreases header.sections@.len() - k,
    {
        let s = header.sections[k];
        assert(header.sections@[k as int].fits());
        if s.size != 0 && s.file < data_start {
            let mut i: u64 = 0;
            while i < s.size as u64
                invariant
                    header.wf(),
                    header.fits(),
                    data_start == header.spec_data_start(),
                    k < header.sections@.len(),
                    s == header.sections@[k as int],
                    s.size != 0 && s.file < data_start,
                    s.fits(),
                    i % 4 == 0,
                    i <= s.size + 3,
                    forall|x: u32| out@.contains(x) <==> exists|kk: int, j: int|
                        (kk < k || (kk == k && j < i)) && code_site(header, kk, j) && #[trigger] site_target(
                            buf@,
                            header,
                            kk,
                            j,
                        ) == Some(x),
                decreases s.size + 3 - i,
            {
                let ram = s.ram + i as u32;
                let got = word(buf, s.file + i as u32);
                let ghost old_set = out@;
                match got {
                    Some(w) => {
                        match branch_target_of(ram, w) {
                            Some(t) => {
                                out.insert(t);
                            },
                            None => {},
                        }
                    },
                    None => {},
                }
                proof {
                    assert forall|x: u32| out@.contains(x) <==> exists|kk: int, j: int|
                        (kk < k || (kk == k && j < i + 4)) && code_site(header, kk, j) && #[trigger] site_target(
                            buf@,
                            header,
                            kk,
                            j,
                        ) == Some(x) by {
                        if out@.contains(x) && !old_set.contains(x) {
                            assert(code_site(header, k as int, i as int));
                            assert(site_target(buf@, header, k as int, i as int) == Some(x));
                        }
                        if exists|kk: int, j: int|
                            (kk < k || (kk == k && j < i + 4)) && code_site(header, kk, j) && #[trigger] site_target(
                                buf@,
                                header,
                                kk,
                                j,
                            ) == Some(x) {
                            let (kk, j) = choose|kk: int, j: int|
                                (kk < k || (kk == k && j < i + 4)) && code_site(header, kk, j)
                                    && #[trigger] site_target(buf@, header, kk, j) == Some(x);
                            if kk == k && j >= i {
                                assert(j == i);
                            } else {
                                assert(old_set.contains(x));
                            }
                        }
                    }
                }
                i = i + 4;
            }
        }
        proof {
            assert forall|x: u32| out@.contains(x) <==> exists|kk: int, j: int|
                kk < k + 1 && code_site(header, kk, j) && #[trigger] site_target(buf@, header, kk, j) == Some(x) by {
                if exists|kk: int, j: int|
                    kk < k + 1 && code_site(header, kk, j) && #[trigger] site_target(buf@, header, kk, j) == Some(x) {
                    let (kk, j) = choose|kk: int, j: int|
                        kk < k + 1 && code_site(header, kk, j) && #[trigger] site_target(buf@, header, kk, j)
                            == Some(x);
                    if kk == k {
                        assert(j < header.sections@[k as int].size);
                    }
                }
            }
        }
        k = k + 1;
    }
    out
}


/// One `lis` + low-half pair that builds the address of a glyph run.
#[derive(Clone, Copy, Debug)]
pub struct ImmRef {
    pub hi_off: u32,
    pub hi_ram: u32,
    pub lo_off: u32,
    pub lo_ram: u32,
    pub target_off: u32,
    pub target_ram: u32,
    pub kind: ImmKind,
}

/// Why a glyph run the code addresses is not rewritten.
#[derive(Clone, Debug)]
pub enum RejectReason {
    /// built off r2/r13, a fixed +-32K window that cannot reach the arena
    SmallData,
    /// the same high half also builds a non-text address
    SharedWithNonText,
    /// an undecoded instruction may read or write the register
    Undecodable,
    /// the `lis` result is used other than to build one address
    ReadOtherwise,
    /// a branch lands between the `lis` and the low half
    BranchBetween,
    /// one `lis` feeds low halves that build different addresses
    SharedLis,
    /// the decompiled program uses the address as a value, for these reasons
    UsedAsValue(String),
    /// no code in the decompiled program materialises the address
    NotMaterialised,
}

/// The reason in words.
pub open spec fn reject_text(why: RejectReason) -> Seq<char> {
    match why {
        RejectReason::SmallData => "addressed off the r2/r13 small-data base, whose +-32K displacement cannot reach the arena"@,
        RejectReason::SharedWithNonText => "the lis is shared with an address that is not text"@,
        RejectReason::Undecodable => "an instruction we cannot decode reads or writes the register"@,
        RejectReason::ReadOtherwise => "the lis result is used other than to build one address"@,
        RejectReason::BranchBetween => "a branch lands between the lis and the low half, so the register may hold something else by then"@,
        RejectReason::SharedLis => "one lis is shared by low halves that build different addresses"@,
        RejectReason::UsedAsValue(w) => "the address is used as a value: "@ + w@,
        RejectReason::NotMaterialised => "no code in the decompiled program materialises this address"@,
    }
}

impl RejectReason {
    /// The same reason.
    pub fn copy(&self) -> (r: RejectReason)
        ensures
            r == *self,
    {
        match self {
            RejectReason::SmallData => RejectReason::SmallData,
            RejectReason::SharedWithNonText => RejectReason::SharedWithNonText,
            RejectReason::Undecodable => RejectReason::Undecodable,
            RejectReason::ReadOtherwise => RejectReason::ReadOtherwise,
            RejectReason::BranchBetween => RejectReason::BranchBetween,
            RejectReason::SharedLis => RejectReason::SharedLis,
            RejectReason::UsedAsValue(w) => RejectReason::UsedAsValue(w.clone()),
            RejectReason::NotMaterialised => RejectReason::NotMaterialised,
        }
    }

    /// The reason in words.
    pub fn text(&self) -> (s: String)
        ensures
            s@ == reject_text(*self),
    {
        let mut o: Vec<char> = Vec::new();
        match self {
            RejectReason::SmallData => push_str(&mut o, "addressed off the r2/r13 small-data base, whose +-32K displacement cannot reach the arena"),
            RejectReason::SharedWithNonText => push_str(&mut o, "the lis is shared with an address that is not text"),
            RejectReason::Undecodable => push_str(&mut o, "an instruction we cannot decode reads or writes the register"),
            RejectReason::ReadOtherwise => push_str(&mut o, "the lis result is used other than to build one address"),
            RejectReason::BranchBetween => push_str(&mut o, "a branch lands between the lis and the low half, so the register may hold something else by then"),
            RejectReason::SharedLis => push_str(&mut o, "one lis is shared by low halves that build different addresses"),
            RejectReason::UsedAsValue(w) => {
                push_str(&mut o, "the address is used as a value: ");
                let c = chars_of(w.as_str());
                append_chars(&mut o, c.as_slice());
            },
            RejectReason::NotMaterialised => push_str(&mut o, "no code in the decompiled program materialises this address"),
        }
        string_of(o.as_slice())
    }
}

/// A glyph run the code addresses in a way we will not rewrite.
#[derive(Clone, Debug)]
pub struct Rejection {
    pub why: RejectReason,
    pub at_ram: u32,
}

pub struct Scan {
    /// pairs we are willing to rewrite, keyed by the low half's file offset.
    pub refs: SortedMap<ImmRef>,
    /// target RAM address -> why we will not touch it.
    pub rejected: SortedMap<Rejection>,
}

/// `lis rD,imm`: `addis` with rA = 0.
pub open spec fn is_lis(w: u32) -> bool {
    w >> 26u32 == 15 && (w >> 16u32) & 31u32 == 0
}

pub open spec fn lis_dest(w: u32) -> u32 {
    (w >> 21u32) & 31u32
}

/// `r` is a real pair: a `lis` at `hi_off`, a low half at `lo_off` that adds
/// to or ors into the `lis` destination, building `target_ram`, which is the
/// start of a glyph run at file offset `target_off`.
pub open spec fn pair_ok(buf: Seq<u8>, h: &DolHeader, r: ImmRef) -> bool {
    &&& spec_u32_at(buf, r.hi_off as int) is Some
    &&& spec_u32_at(buf, r.lo_off as int) is Some
    &&& is_lis(spec_u32_at(buf, r.hi_off as int).unwrap())
    &&& spec_eff(spec_u32_at(buf, r.lo_off as int).unwrap()).consumer == Some(
        (lis_dest(spec_u32_at(buf, r.hi_off as int).unwrap()), r.kind),
    )
    &&& r.target_ram == built_addr(spec_u32_at(buf, r.hi_off as int).unwrap(), spec_u32_at(buf, r.lo_off as int).unwrap(), r.kind)
    &&& spec_glyph_run(buf, h, r.target_ram) == Some(r.target_off)
}

/// No direct branch lands on an instruction after the `lis` at `hi_ram`, up
/// to and including the one at `lo_ram`.
pub open spec fn not_entered(buf: Seq<u8>, h: &DolHeader, hi_ram: u32, lo_ram: u32) -> bool {
    forall|a: u32| hi_ram < a <= lo_ram && (a - hi_ram) % 4 == 0 ==> !#[trigger] is_branch_target(buf, h, a)
}

/// A low half seen consuming a pending `lis`.
pub struct Consumer {
    pub lo_off: u32,
    pub lo_ram: u32,
    pub lo_word: u32,
    pub target_ram: u32,
    pub target_off: u32,
    pub kind: ImmKind,
}

/// A `lis` whose register the scan is following, with its consumers so far.
pub struct Pending {
    pub hi_off: u32,
    pub hi_ram: u32,
    pub hi_word: u32,
    pub consumers: Vec<Consumer>,
    pub poison: Option<RejectReason>,
}

spec fn consumer_ok(buf: Seq<u8>, h: &DolHeader, hi_word: u32, hi_ram: u32, c: Consumer) -> bool {
    &&& spec_u32_at(buf, c.lo_off as int) == Some(c.lo_word)
    &&& spec_eff(c.lo_word).consumer == Some((lis_dest(hi_word), c.kind))
    &&& c.target_ram == built_addr(hi_word, c.lo_word, c.kind)
    &&& spec_glyph_run(buf, h, c.target_ram) == Some(c.target_off)
    &&& hi_ram < c.lo_ram
    &&& (c.lo_ram - hi_ram) % 4 == 0
}

spec fn pending_ok(buf: Seq<u8>, h: &DolHeader, reg: int, p: Pending) -> bool {
    &&& spec_u32_at(buf, p.hi_off as int) == Some(p.hi_word)
    &&& is_lis(p.hi_word)
    &&& lis_dest(p.hi_word) == reg
    &&& forall|i: int| 0 <= i < p.consumers@.len() ==> consumer_ok(buf, h, p.hi_word, p.hi_ram, #[trigger] p.consumers@[i])
}

/// Every accepted pair is real and keyed by its low half.
pub open spec fn refs_ok(buf: Seq<u8>, h: &DolHeader, refs: Map<u32, ImmRef>) -> bool {
    forall|k: u32| #[trigger] refs.contains_key(k) ==> {
        &&& refs[k].lo_off == k
        &&& refs[k].hi_ram < refs[k].lo_ram
        &&& pair_ok(buf, h, refs[k])
        &&& not_entered(buf, h, refs[k].hi_ram, refs[k].lo_ram)
    }
}

fn build_addr(hi_word: u32, lo_word: u32, kind: ImmKind) -> (t: u32)
    ensures
        t == built_addr(hi_word, lo_word, kind),
{
    match kind {
        ImmKind::Addi => {
            let ext = if lo_word & 0x8000 != 0 { (lo_word & 0xffff) | 0xffff0000u32 } else { lo_word & 0xffff };
            let t = wrapping_add_u32((hi_word & 0xffff) << 16, ext);
            proof {
                lemma_wrap_add_trunc((hi_word & 0xffff) << 16u32, ext);
            }
            t
        },
        ImmKind::Ori => ((hi_word & 0xffff) << 16) | (lo_word & 0xffff),
    }
}

/// Whether some `a` in `(hi_ram, last]`, stepping by four, is a branch target.
fn entered(targets: &HashSet<u32>, hi_ram: u32, last: u32) -> (r: bool)
    ensures
        !r ==> forall|a: u32| hi_ram < a <= last && (a - hi_ram) % 4 == 0 ==> !#[trigger] targets@.contains(a),
        r ==> exists|a: u32| hi_ram < a <= last && (a - hi_ram) % 4 == 0 && #[trigger] targets@.contains(a),
{
    broadcast use vstd::std_specs::hash::group_hash_axioms;
    let mut a: u64 = hi_ram as u64 + 4;
    while a <= last as u64
        invariant
            hi_ram + 4 <= a,
            (a - hi_ram) % 4 == 0,
            forall|b: u32| hi_ram < b < a && (b - hi_ram) % 4 == 0 ==> !#[trigger] targets@.contains(b),
        decreases last + 4 - a,
    {
        if targets.contains(&(a as u32)) {
            proof {
                let b = a as u32;
                assert(hi_ram < b <= last && (b - hi_ram) % 4 == 0 && targets@.contains(b));
            }
            return true;
        }
        a = a + 4;
    }
    false
}

fn retire(
    p: Option<Pending>,
    targets: &HashSet<u32>,
    scan: &mut Scan,
    Ghost(buf): Ghost<Seq<u8>>,
    Ghost(h): Ghost<&DolHeader>,
    Ghost(reg): Ghost<int>,
)
    requires
        old(scan).refs.wf(),
        old(scan).rejected.wf(),
        refs_ok(buf, h, old(scan).refs@),
        p matches Some(pp) ==> pending_ok(buf, h, reg, pp),
        forall|x: u32| targets@.contains(x) <==> is_branch_target(buf, h, x),
    ensures
        final(scan).refs.wf(),
        final(scan).rejected.wf(),
        refs_ok(buf, h, final(scan).refs@),
        (final(scan).refs@, final(scan).rejected@) == retire_spec(buf, h, old(scan).refs@, old(scan).rejected@, match p {
            Some(pp) => Some(pend_view(pp)),
            None => None,
        }),
{
    let p = match p {
        Some(p) => p,
        None => {
            return;
        },
    };
    let ghost pv = pend_view(p);
    if p.consumers.len() == 0 {
        return;
    }
    let ghost cs = p.consumers@;
    let mut last: u32 = p.consumers[0].lo_ram;
    let mut shared = false;
    let first_target = p.consumers[0].target_ram;
    let mut i: usize = 1;
    while i < p.consumers.len()
        invariant
            cs == p.consumers@,
            cs.len() > 0,
            first_target == cs[0].target_ram,
            1 <= i <= cs.len(),
            forall|j: int| 0 <= j < i ==> (#[trigger] cs[j]).lo_ram <= last,
            last == max_lo(cs, i as int),
            shared == exists|j: int| 1 <= j < i && (#[trigger] cs[j]).target_ram != cs[0].target_ram,
        decreases cs.len() - i,
    {
        if p.consumers[i].lo_ram > last {
            last = p.consumers[i].lo_ram;
        }
        if p.consumers[i].target_ram != first_target {
            shared = true;
        }
        proof {
            if !shared {
                assert forall|j: int| 1 <= j < i + 1 implies (#[trigger] cs[j]).target_ram == cs[0].target_ram by {
                    if j < i {
                        if cs[j].target_ram != cs[0].target_ram {
                            assert(exists|jj: int| 1 <= jj < i && (#[trigger] cs[jj]).target_ram != cs[0].target_ram);
                        }
                    }
                }
            } else if cs[i as int].target_ram != cs[0].target_ram {
                assert(1 <= i < i + 1);
            } else {
                let jj = choose|jj: int| 1 <= jj < i && (#[trigger] cs[jj]).target_ram != cs[0].target_ram;
                assert(1 <= jj < i + 1);
            }
        }
        i = i + 1;
    }
    // a branch landing between the two words means the register may hold
    // something else by the time the low half reads it
    let was_entered = entered(targets, p.hi_ram, last);
    let why: Option<RejectReason> = match &p.poison {
        Some(w) => Some(w.copy()),
        None => if was_entered {
            Some(RejectReason::BranchBetween)
        } else if shared {
            Some(RejectReason::SharedLis)
        } else {
            None
        },
    };
    proof {
        if was_entered {
            let a = choose|a: u32| p.hi_ram < a <= last && (a - p.hi_ram) % 4 == 0 && #[trigger] targets@.contains(a);
            assert(is_branch_target(buf, h, a));
            assert(entered_between(buf, h, p.hi_ram, last));
        } else {
            assert(!entered_between(buf, h, p.hi_ram, last)) by {
                if entered_between(buf, h, p.hi_ram, last) {
                    let a = choose|a: u32| p.hi_ram < a <= last && (a - p.hi_ram) % 4 == 0 && #[trigger] is_branch_target(buf, h, a);
                    assert(targets@.contains(a));
                }
            }
        }
        assert(why == why_of(buf, h, pv));
    }
    let ghost r0 = scan.refs@;
    let ghost j0 = scan.rejected@;
    let mut j: usize = 0;
    while j < p.consumers.len()
        invariant
            cs == p.consumers@,
            pv == pend_view(p),
            j <= cs.len(),
            scan.refs.wf(),
            scan.rejected.wf(),
            refs_ok(buf, h, scan.refs@),
            pending_ok(buf, h, reg, p),
            why is None ==> forall|a: u32| p.hi_ram < a <= last && (a - p.hi_ram) % 4 == 0 ==> !#[trigger] targets@.contains(a),
            forall|x: u32| targets@.contains(x) <==> is_branch_target(buf, h, x),
            forall|jj: int| 0 <= jj < cs.len() ==> (#[trigger] cs[jj]).lo_ram <= last,
            (scan.refs@, scan.rejected@) == place_consumers(r0, j0, pv, why, j as int),
        decreases cs.len() - j,
    {
        let c = &p.consumers[j];
        match &why {
            Some(w) => {
                scan.rejected.insert(c.target_ram, Rejection { why: w.copy(), at_ram: c.lo_ram });
            },
            None => {
                let r = ImmRef {
                    hi_off: p.hi_off,
                    hi_ram: p.hi_ram,
                    lo_off: c.lo_off,
                    lo_ram: c.lo_ram,
                    target_off: c.target_off,
                    target_ram: c.target_ram,
                    kind: c.kind,
                };
                proof {
                    assert(consumer_ok(buf, h, p.hi_word, p.hi_ram, p.consumers@[j as int]));
                    assert forall|a: u32| r.hi_ram < a <= r.lo_ram && (a - r.hi_ram) % 4 == 0 implies !#[trigger] is_branch_target(buf, h, a) by {
                        assert(!targets@.contains(a));
                    }
                }
                scan.refs.insert(c.lo_off, r);
            },
        }
        proof {
            assert(pv.consumers[j as int] == cs[j as int]);
        }
        j = j + 1;
    }
}

/// Take register `r` out of `regs`, leaving it empty.
fn take_reg(regs: &mut Vec<Option<Pending>>, r: usize) -> (p: Option<Pending>)
    requires
        r < old(regs)@.len(),
    ensures
        p == old(regs)@[r as int],
        final(regs)@ == old(regs)@.update(r as int, None),
{
    let p = regs.remove(r);
    regs.insert(r, None);
    proof {
        assert(regs@ =~= old(regs)@.update(r as int, None));
    }
    p
}

spec fn regs_before(regs: Seq<Option<Pending>>, ram: int) -> bool {
    forall|r: int| 0 <= r < regs.len() ==> (#[trigger] regs[r] matches Some(p) ==> p.hi_ram < ram && (ram - p.hi_ram) % 4 == 0)
}

spec fn regs_ok(buf: Seq<u8>, h: &DolHeader, regs: Seq<Option<Pending>>) -> bool {
    &&& regs.len() == 32
    &&& forall|r: int| 0 <= r < 32 ==> (#[trigger] regs[r] matches Some(p) ==> pending_ok(buf, h, r, p))
}

fn retire_all(
    regs: &mut Vec<Option<Pending>>,
    targets: &HashSet<u32>,
    scan: &mut Scan,
    only_volatile: bool,
    Ghost(buf): Ghost<Seq<u8>>,
    Ghost(h): Ghost<&DolHeader>,
)
    requires
        regs_ok(buf, h, old(regs)@),
        old(scan).refs.wf(),
        old(scan).rejected.wf(),
        refs_ok(buf, h, old(scan).refs@),
        forall|x: u32| targets@.contains(x) <==> is_branch_target(buf, h, x),
    ensures
        regs_ok(buf, h, final(regs)@),
        forall|r: int| 0 <= r < 32 ==> (#[trigger] final(regs)@[r] is None || final(regs)@[r] == old(regs)@[r]),
        final(scan).refs.wf(),
        final(scan).rejected.wf(),
        refs_ok(buf, h, final(scan).refs@),
        (regs_view(final(regs)@), final(scan).refs@, final(scan).rejected@) == retire_regs(buf, h, (regs_view(old(regs)@),
            old(scan).refs@, old(scan).rejected@), only_volatile, 32),
{
    let ghost st0 = (regs_view(regs@), scan.refs@, scan.rejected@);
    let mut r: usize = 0;
    while r < 32
        invariant
            r <= 32,
            regs_ok(buf, h, regs@),
            forall|q: int| 0 <= q < 32 ==> (#[trigger] regs@[q] is None || regs@[q] == old(regs)@[q]),
            scan.refs.wf(),
            scan.rejected.wf(),
            refs_ok(buf, h, scan.refs@),
            forall|x: u32| targets@.contains(x) <==> is_branch_target(buf, h, x),
            (regs_view(regs@), scan.refs@, scan.rejected@) == retire_regs(buf, h, st0, only_volatile, r as int),
        decreases 32 - r,
    {
        // volatiles do not survive a call; everything else does
        if !only_volatile || r == 0 || (3 <= r && r <= 12) {
            let ghost before = regs@;
            let p = take_reg(regs, r);
            proof {
                assert(regs_view(regs@) =~= regs_view(before).update(r as int, None));
                assert(regs_view(before)[r as int] == match p {
                    Some(pp) => Some(pend_view(pp)),
                    None => None::<PendView>,
                });
            }
            retire(p, targets, scan, Ghost(buf), Ghost(h), Ghost(r as int));
        }
        r = r + 1;
    }
}

fn poison(p: &mut Pending, why: RejectReason)
    ensures
        final(p).hi_off == old(p).hi_off,
        final(p).hi_ram == old(p).hi_ram,
        final(p).hi_word == old(p).hi_word,
        final(p).consumers@ == old(p).consumers@,
        pend_view(*final(p)) == poison_view(pend_view(*old(p)), why),
{
    if p.poison.is_none() {
        p.poison = Some(why);
    }
}

/// Poison the pending registers: all of them, or those `reads` names.
fn poison_pending(
    regs: &mut Vec<Option<Pending>>,
    reads: u32,
    all: bool,
    why: &RejectReason,
    Ghost(buf): Ghost<Seq<u8>>,
    Ghost(h): Ghost<&DolHeader>,
    Ghost(ram): Ghost<int>,
)
    requires
        regs_ok(buf, h, old(regs)@),
        regs_before(old(regs)@, ram),
    ensures
        regs_ok(buf, h, final(regs)@),
        regs_before(final(regs)@, ram),
        regs_view(final(regs)@) == poison_regs(regs_view(old(regs)@), reads, all, *why, 32),
{
    let ghost r0 = regs_view(regs@);
    let mut r: usize = 0;
    while r < 32
        invariant
            r <= 32,
            regs_ok(buf, h, regs@),
            regs_before(regs@, ram),
            regs_view(regs@) == poison_regs(r0, reads, all, *why, r as int),
        decreases 32 - r,
    {
        let ghost before = regs@;
        if (all || (reads >> (r as u32)) & 1 != 0) && regs[r].is_some() {
            let mut p = take_reg(regs, r).unwrap();
            poison(&mut p, why.copy());
            regs.set(r, Some(p));
            proof {
                assert(regs@ == before.update(r as int, Some(p)));
                assert(regs_view(regs@) =~= regs_view(before).update(r as int, Some(pend_view(p))));
                assert(pending_ok(buf, h, r as int, p)) by {
                    assert(before[r as int] matches Some(q) && pending_ok(buf, h, r as int, q));
                }
            }
        }
        r = r + 1;
    }
}

/// Retire the registers `writes` names, in order.
fn retire_writes(
    regs: &mut Vec<Option<Pending>>,
    targets: &HashSet<u32>,
    sc: &mut Scan,
    writes: u32,
    Ghost(buf): Ghost<Seq<u8>>,
    Ghost(h): Ghost<&DolHeader>,
    Ghost(ram): Ghost<int>,
)
    requires
        regs_ok(buf, h, old(regs)@),
        regs_before(old(regs)@, ram),
        old(sc).refs.wf(),
        old(sc).rejected.wf(),
        refs_ok(buf, h, old(sc).refs@),
        forall|x: u32| targets@.contains(x) <==> is_branch_target(buf, h, x),
    ensures
        regs_ok(buf, h, final(regs)@),
        regs_before(final(regs)@, ram),
        final(sc).refs.wf(),
        final(sc).rejected.wf(),
        refs_ok(buf, h, final(sc).refs@),
        (regs_view(final(regs)@), final(sc).refs@, final(sc).rejected@) == retire_written(buf, h, (regs_view(old(regs)@),
            old(sc).refs@, old(sc).rejected@), writes, 32),
{
    let ghost st0 = (regs_view(regs@), sc.refs@, sc.rejected@);
    let mut r: usize = 0;
    while r < 32
        invariant
            r <= 32,
            regs_ok(buf, h, regs@),
            regs_before(regs@, ram),
            sc.refs.wf(),
            sc.rejected.wf(),
            refs_ok(buf, h, sc.refs@),
            forall|x: u32| targets@.contains(x) <==> is_branch_target(buf, h, x),
            (regs_view(regs@), sc.refs@, sc.rejected@) == retire_written(buf, h, st0, writes, r as int),
        decreases 32 - r,
    {
        if (writes >> (r as u32)) & 1 != 0 {
            let ghost before = regs@;
            let p = take_reg(regs, r);
            proof {
                assert(regs_view(regs@) =~= regs_view(before).update(r as int, None));
                assert(regs_view(before)[r as int] == match p {
                    Some(pp) => Some(pend_view(pp)),
                    None => None::<PendView>,
                });
            }
            retire(p, targets, sc, Ghost(buf), Ghost(h), Ghost(r as int));
        }
        r = r + 1;
    }
}

/// One instruction `w` of a code section, at file offset `off` and RAM
/// `ram`.
#[verifier::spinoff_prover]
#[verifier::rlimit(40)]
fn scan_insn(
    buf: &[u8],
    header: &DolHeader,
    targets: &HashSet<u32>,
    regs: &mut Vec<Option<Pending>>,
    sc: &mut Scan,
    w: u32,
    off: u32,
    ram: u32,
)
    requires
        header.wf(),
        header.fits(),
        covers(header, buf@),
        spec_u32_at(buf@, off as int) == Some(w),
        regs_ok(buf@, header, old(regs)@),
        regs_before(old(regs)@, ram as int),
        old(sc).refs.wf(),
        old(sc).rejected.wf(),
        refs_ok(buf@, header, old(sc).refs@),
        forall|x: u32| targets@.contains(x) <==> is_branch_target(buf@, header, x),
    ensures
        regs_ok(buf@, header, final(regs)@),
        regs_before(final(regs)@, ram + 4),
        final(sc).refs.wf(),
        final(sc).rejected.wf(),
        refs_ok(buf@, header, final(sc).refs@),
        (regs_view(final(regs)@), final(sc).refs@, final(sc).rejected@) == insn_step(buf@, header, (regs_view(old(regs)@),
            old(sc).refs@, old(sc).rejected@), w, off, ram),
{
    let ghost st0 = (regs_view(regs@), sc.refs@, sc.rejected@);
    assert(w >> 26u32 <= 63 && (w >> 21u32) & 31u32 < 32 && (w >> 16u32) & 31u32 < 32) by (bit_vector);
    let op = w >> 26;
    let d = ((w >> 21) & 31) as usize;
    let a = ((w >> 16) & 31) as usize;

    // `lis rD,imm` is `addis rD,r0,imm`
    if op == 15 && a == 0 {
        let ghost before = regs@;
        let old_p = take_reg(regs, d);
        proof {
            assert(regs_view(regs@) =~= regs_view(before).update(d as int, None));
            assert(regs_view(before)[d as int] == match old_p {
                Some(pp) => Some(pend_view(pp)),
                None => None::<PendView>,
            });
        }
        retire(old_p, targets, sc, Ghost(buf@), Ghost(header), Ghost(d as int));
        let np = Pending { hi_off: off, hi_ram: ram, hi_word: w, consumers: Vec::new(), poison: None };
        let ghost mid = regs@;
        regs.set(d, Some(np));
        proof {
            assert(np.consumers@ =~= Seq::<Consumer>::empty());
            assert(regs_view(regs@) =~= regs_view(mid).update(d as int, Some(pend_view(np))));
            assert(is_lis(w));
            assert(lis_dest(w) == d);
        }
        return;
    }

    let e = eff(w);
    let ghost regs0 = regs@;

    // an address built off the small-data bases is not a pair we can
    // move: the displacement is a fixed +-32K window around a register
    // the init code sets once.
    if op == 14 && (a == 13 || a == 2) && regs[a].is_none() {
        let base = if a == 13 { SDA_BASE } else { SDA2_BASE };
        let disp = if w & 0x8000 != 0 { (w & 0xffff) | 0xffff_0000u32 } else { w & 0xffff };
        let t = wrapping_add_u32(base, disp);
        if glyph_run(buf, header, t).is_some() {
            sc.rejected.insert(t, Rejection { why: RejectReason::SmallData, at_ram: ram });
        }
    }
    proof {
        assert(sc.rejected@ == small_data(buf@, header, regs_view(regs0), st0.2, w, ram));
    }

    match e.consumer {
        Some((base, kind)) => {
            let bi = base as usize;
            if bi < 32 && regs[bi].is_some() {
                let ghost before = regs@;
                let mut p = take_reg(regs, bi).unwrap();
                let ghost pv = pend_view(p);
                let t = build_addr(p.hi_word, w, kind);
                match glyph_run(buf, header, t) {
                    Some(target_off) => {
                        p.consumers.push(Consumer { lo_off: off, lo_ram: ram, lo_word: w, target_ram: t, target_off, kind });
                    },
                    // the same high half also builds a non-text address, so
                    // it is not ours to move
                    None => poison(&mut p, RejectReason::SharedWithNonText),
                }
                regs.set(bi, Some(p));
                proof {
                    assert(regs_view(regs@) =~= regs_view(before).update(bi as int, Some(pend_view(p))));
                    assert(before[bi as int] matches Some(q) && pending_ok(buf@, header, bi as int, q) && q.hi_ram < ram);
                    assert(pending_ok(buf@, header, bi as int, p)) by {
                        assert forall|i: int| 0 <= i < p.consumers@.len() implies consumer_ok(buf@, header, p.hi_word, p.hi_ram,
                            #[trigger] p.consumers@[i]) by {
                            if i < pv.consumers.len() {
                                assert(p.consumers@[i] == pv.consumers[i]);
                            }
                        }
                    }
                }
            }
        },
        None => {},
    }
    proof {
        assert(regs_view(regs@) == consume(buf@, header, regs_view(regs0), w, off, ram));
    }

    if !e.known {
        poison_pending(regs, 0, true, &RejectReason::Undecodable, Ghost(buf@), Ghost(header), Ghost(ram as int));
        retire_all(regs, targets, sc, false, Ghost(buf@), Ghost(header));
        return;
    }

    poison_pending(regs, e.reads, false, &RejectReason::ReadOtherwise, Ghost(buf@), Ghost(header), Ghost(ram as int));
    retire_writes(regs, targets, sc, e.writes, Ghost(buf@), Ghost(header), Ghost(ram as int));
    match e.flow {
        Flow::Straight => {},
        Flow::Call => retire_all(regs, targets, sc, true, Ghost(buf@), Ghost(header)),
        // control leaves: the straight-line window ends here
        Flow::Branch => retire_all(regs, targets, sc, false, Ghost(buf@), Ghost(header)),
    }
}

/// A pending `lis` as values.
pub ghost struct PendView {
    pub hi_off: u32,
    pub hi_ram: u32,
    pub hi_word: u32,
    pub consumers: Seq<Consumer>,
    pub poison: Option<RejectReason>,
}

pub open spec fn pend_view(p: Pending) -> PendView {
    PendView { hi_off: p.hi_off, hi_ram: p.hi_ram, hi_word: p.hi_word, consumers: p.consumers@, poison: p.poison }
}

pub open spec fn regs_view(regs: Seq<Option<Pending>>) -> Seq<Option<PendView>> {
    regs.map_values(|o: Option<Pending>| match o {
        Some(p) => Some(pend_view(p)),
        None => None,
    })
}

/// The scan's state as values: the pending `lis` of each register, the
/// pairs kept, and the runs rejected.
pub type ScanSt = (Seq<Option<PendView>>, Map<u32, ImmRef>, Map<u32, Rejection>);

/// The last low half among the first `n` consumers.
pub open spec fn max_lo(cs: Seq<Consumer>, n: int) -> u32
    decreases n,
{
    if n <= 1 {
        cs[0].lo_ram
    } else if cs[n - 1].lo_ram > max_lo(cs, n - 1) {
        cs[n - 1].lo_ram
    } else {
        max_lo(cs, n - 1)
    }
}

/// A branch lands after the `lis` at `hi_ram`, up to and including `last`.
pub open spec fn entered_between(buf: Seq<u8>, h: &DolHeader, hi_ram: u32, last: u32) -> bool {
    exists|a: u32| hi_ram < a <= last && (a - hi_ram) % 4 == 0 && #[trigger] is_branch_target(buf, h, a)
}

/// Why the pairs of `p` may not move, if they may not.
pub open spec fn why_of(buf: Seq<u8>, h: &DolHeader, p: PendView) -> Option<RejectReason> {
    match p.poison {
        Some(w) => Some(w),
        None => if entered_between(buf, h, p.hi_ram, max_lo(p.consumers, p.consumers.len() as int)) {
            Some(RejectReason::BranchBetween)
        } else if exists|j: int| 1 <= j < p.consumers.len() && (#[trigger] p.consumers[j]).target_ram != p.consumers[0].target_ram {
            Some(RejectReason::SharedLis)
        } else {
            None
        },
    }
}

/// The first `n` consumers of `p` kept as pairs, or rejected for `why`.
pub open spec fn place_consumers(refs: Map<u32, ImmRef>, rej: Map<u32, Rejection>, p: PendView, why: Option<RejectReason>, n: int) -> (Map<u32, ImmRef>, Map<u32, Rejection>)
    decreases n,
{
    if n <= 0 {
        (refs, rej)
    } else {
        let (r1, j1) = place_consumers(refs, rej, p, why, n - 1);
        let c = p.consumers[n - 1];
        match why {
            Some(w) => (r1, j1.insert(c.target_ram, Rejection { why: w, at_ram: c.lo_ram })),
            None => (r1.insert(c.lo_off, ImmRef {
                hi_off: p.hi_off,
                hi_ram: p.hi_ram,
                lo_off: c.lo_off,
                lo_ram: c.lo_ram,
                target_off: c.target_off,
                target_ram: c.target_ram,
                kind: c.kind,
            }), j1),
        }
    }
}

/// A pending `lis` retired: its pairs kept, or rejected with its reason.
pub open spec fn retire_spec(buf: Seq<u8>, h: &DolHeader, refs: Map<u32, ImmRef>, rej: Map<u32, Rejection>, p: Option<PendView>) -> (Map<u32, ImmRef>, Map<u32, Rejection>) {
    match p {
        None => (refs, rej),
        Some(pv) => if pv.consumers.len() == 0 {
            (refs, rej)
        } else {
            place_consumers(refs, rej, pv, why_of(buf, h, pv), pv.consumers.len() as int)
        },
    }
}

/// Register `r` retired and emptied.
pub open spec fn retire_reg(buf: Seq<u8>, h: &DolHeader, st: ScanSt, r: int) -> ScanSt {
    let (a, b) = retire_spec(buf, h, st.1, st.2, st.0[r]);
    (st.0.update(r, None), a, b)
}

/// The first `n` registers retired, or only the volatile ones among them.
pub open spec fn retire_regs(buf: Seq<u8>, h: &DolHeader, st: ScanSt, only_volatile: bool, n: int) -> ScanSt
    decreases n,
{
    if n <= 0 {
        st
    } else {
        let s = retire_regs(buf, h, st, only_volatile, n - 1);
        let r = n - 1;
        if !only_volatile || r == 0 || (3 <= r && r <= 12) {
            retire_reg(buf, h, s, r)
        } else {
            s
        }
    }
}

/// The registers among the first `n` that `writes` names, retired in order.
pub open spec fn retire_written(buf: Seq<u8>, h: &DolHeader, st: ScanSt, writes: u32, n: int) -> ScanSt
    decreases n,
{
    if n <= 0 {
        st
    } else {
        let s = retire_written(buf, h, st, writes, n - 1);
        if (writes >> ((n - 1) as u32)) & 1 != 0 {
            retire_reg(buf, h, s, n - 1)
        } else {
            s
        }
    }
}

pub open spec fn poison_view(p: PendView, why: RejectReason) -> PendView {
    if p.poison is None {
        PendView { poison: Some(why), ..p }
    } else {
        p
    }
}

/// The pending registers among the first `n`, all of them or those `reads`
/// names, poisoned with `why`.
pub open spec fn poison_regs(regs: Seq<Option<PendView>>, reads: u32, all: bool, why: RejectReason, n: int) -> Seq<Option<PendView>>
    decreases n,
{
    if n <= 0 {
        regs
    } else {
        let rs = poison_regs(regs, reads, all, why, n - 1);
        let r = n - 1;
        if (all || (reads >> (r as u32)) & 1 != 0) && rs[r] is Some {
            rs.update(r, Some(poison_view(rs[r].unwrap(), why)))
        } else {
            rs
        }
    }
}

/// The small-data rejection an instruction makes, if any.
pub open spec fn small_data(buf: Seq<u8>, h: &DolHeader, regs: Seq<Option<PendView>>, rej: Map<u32, Rejection>, w: u32, ram: u32) -> Map<u32, Rejection> {
    let op = w >> 26u32;
    let a = ((w >> 16u32) & 31u32) as int;
    if op == 14 && (a == 13 || a == 2) && regs[a] is None {
        let base = if a == 13 { SDA_BASE } else { SDA2_BASE };
        let disp = if w & 0x8000 != 0 { (w & 0xffff) | 0xffff0000u32 } else { w & 0xffff };
        let t = wrap_add(base, disp);
        if spec_glyph_run(buf, h, t) is Some {
            rej.insert(t, Rejection { why: RejectReason::SmallData, at_ram: ram })
        } else {
            rej
        }
    } else {
        rej
    }
}

/// A low half taken by the `lis` it builds on, if one is pending.
pub open spec fn consume(buf: Seq<u8>, h: &DolHeader, regs: Seq<Option<PendView>>, w: u32, off: u32, ram: u32) -> Seq<Option<PendView>> {
    match spec_eff(w).consumer {
        Some((base, kind)) => if base < 32 && regs[base as int] is Some {
            let p = regs[base as int].unwrap();
            let t = built_addr(p.hi_word, w, kind);
            match spec_glyph_run(buf, h, t) {
                Some(target_off) => regs.update(base as int, Some(PendView {
                    consumers: p.consumers.push(Consumer { lo_off: off, lo_ram: ram, lo_word: w, target_ram: t, target_off, kind }),
                    ..p
                })),
                None => regs.update(base as int, Some(poison_view(p, RejectReason::SharedWithNonText))),
            }
        } else {
            regs
        },
        None => regs,
    }
}

/// One instruction of a code section.
pub open spec fn insn_step(buf: Seq<u8>, h: &DolHeader, st: ScanSt, w: u32, off: u32, ram: u32) -> ScanSt {
    let op = w >> 26u32;
    let d = ((w >> 21u32) & 31u32) as int;
    let a = ((w >> 16u32) & 31u32) as int;
    if op == 15 && a == 0 {
        let s1 = retire_reg(buf, h, st, d);
        (s1.0.update(d, Some(PendView { hi_off: off, hi_ram: ram, hi_word: w, consumers: Seq::empty(), poison: None })), s1.1, s1.2)
    } else {
        let e = spec_eff(w);
        let rej1 = small_data(buf, h, st.0, st.2, w, ram);
        let regs1 = consume(buf, h, st.0, w, off, ram);
        if !e.known {
            retire_regs(buf, h, (poison_regs(regs1, 0, true, RejectReason::Undecodable, 32), st.1, rej1), false, 32)
        } else {
            let s3 = (poison_regs(regs1, e.reads, false, RejectReason::ReadOtherwise, 32), st.1, rej1);
            let s4 = retire_written(buf, h, s3, e.writes, 32);
            match e.flow {
                Flow::Straight => s4,
                Flow::Call => retire_regs(buf, h, s4, true, 32),
                Flow::Branch => retire_regs(buf, h, s4, false, 32),
            }
        }
    }
}

/// The first `n` instruction slots of section `s`; a slot past the file's
/// end is passed over.
pub open spec fn section_upto(buf: Seq<u8>, h: &DolHeader, st: ScanSt, s: Section, n: int) -> ScanSt
    decreases n,
{
    if n <= 0 {
        st
    } else {
        let s1 = section_upto(buf, h, st, s, n - 1);
        let i = 4 * (n - 1);
        match spec_u32_at(buf, s.file + i) {
            None => s1,
            Some(w) => insn_step(buf, h, s1, w, (s.file + i) as u32, (s.ram + i) as u32),
        }
    }
}

/// No `lis` pending.
pub open spec fn no_regs() -> Seq<Option<PendView>> {
    Seq::new(32, |i: int| None)
}

/// The code sections among the first `k`, each walked from no pending `lis`
/// and retired at its end.
pub open spec fn sections_upto(buf: Seq<u8>, h: &DolHeader, k: int) -> (Map<u32, ImmRef>, Map<u32, Rejection>)
    decreases k,
{
    if k <= 0 {
        (Map::empty(), Map::empty())
    } else {
        let (refs, rej) = sections_upto(buf, h, k - 1);
        let s = h.sections@[k - 1];
        if s.size == 0 || s.file >= h.spec_data_start() {
            (refs, rej)
        } else {
            let st = section_upto(buf, h, (no_regs(), refs, rej), s, (s.size + 3) / 4);
            let end = retire_regs(buf, h, st, false, 32);
            (end.1, end.2)
        }
    }
}

/// The decompiled program's verdict on each pair among the first `n` of
/// `refs`, in low-half order: a target it does not let move is rejected.
pub open spec fn verdicts_upto(refs: Seq<(u32, ImmRef)>, rej: Map<u32, Rejection>, verdicts: Relocatable, n: int) -> Map<u32, Rejection>
    decreases n,
{
    if n <= 0 {
        rej
    } else {
        let j = verdicts_upto(refs, rej, verdicts, n - 1);
        let r = refs[n - 1].1;
        if verdicts.ok@.contains(r.target_ram) {
            j
        } else {
            j.insert(r.target_ram, Rejection {
                why: if verdicts.blocked@.contains_key(r.target_ram) {
                    RejectReason::UsedAsValue(verdicts.blocked@[r.target_ram])
                } else {
                    RejectReason::NotMaterialised
                },
                at_ram: r.lo_ram,
            })
        }
    }
}

/// The pairs among the first `n` entries whose target survived.
pub open spec fn kept_upto(found: Map<u32, ImmRef>, rej: Map<u32, Rejection>, es: Seq<(u32, ImmRef)>, n: int) -> Map<u32, ImmRef> {
    Map::new(|key: u32| found.contains_key(key) && !rej.contains_key(found[key].target_ram) && seq_has(es.take(n), key), |key: u32| found[key])
}

/// The entries of `m`, in increasing key order.
pub open spec fn sorted_entries<V>(m: Map<u32, V>) -> Seq<(u32, V)> {
    choose|s: Seq<(u32, V)>| keys_sorted(s) && seq_map(s) == m
}

/// What the scan finds in `buf`: the pairs it may rewrite, keyed by low
/// half, and the runs it may not, keyed by target, with why.
pub open spec fn scan_spec(buf: Seq<u8>, h: DolHeader, verdicts: Relocatable) -> (Map<u32, ImmRef>, Map<u32, Rejection>) {
    let (refs, rej) = sections_upto(buf, &h, h.sections@.len() as int);
    let rej2 = verdicts_upto(sorted_entries(refs), rej, verdicts, sorted_entries(refs).len() as int);
    (Map::new(|k: u32| refs.contains_key(k) && !rej2.contains_key(refs[k].target_ram), |k: u32| refs[k]), rej2)
}

/// The verdict the decompiled program gives each address: movable, or why not.
pub struct Relocatable {
    pub ok: HashSet<u32>,
    pub blocked: HashMap<u32, String>,
}

/// A sorted listing of a map is the only one.
proof fn lemma_sorted_unique<V>(a: Seq<(u32, V)>, b: Seq<(u32, V)>)
    requires
        keys_sorted(a),
        keys_sorted(b),
        seq_map(a) == seq_map(b),
    ensures
        a == b,
{
    let ka = a.map_values(|e: (u32, V)| e.0);
    let kb = b.map_values(|e: (u32, V)| e.0);
    assert(increasing(ka)) by {
        assert forall|i: int, j: int| 0 <= i < j < ka.len() implies ka[i] < ka[j] by {
            assert(a[i].0 < a[j].0);
        }
    }
    assert(increasing(kb)) by {
        assert forall|i: int, j: int| 0 <= i < j < kb.len() implies kb[i] < kb[j] by {
            assert(b[i].0 < b[j].0);
        }
    }
    assert forall|y: u32| ka.contains(y) <==> kb.contains(y) by {
        if ka.contains(y) {
            let i = choose|i: int| 0 <= i < ka.len() && ka[i] == y;
            crate::sorted_map::lemma_sorted_lookup(a, i);
            assert(seq_map(b).contains_key(y));
            let j = choose|j: int| 0 <= j < b.len() && (#[trigger] b[j]).0 == y;
            assert(kb[j] == y);
        }
        if kb.contains(y) {
            let i = choose|i: int| 0 <= i < kb.len() && kb[i] == y;
            crate::sorted_map::lemma_sorted_lookup(b, i);
            assert(seq_map(a).contains_key(y));
            let j = choose|j: int| 0 <= j < a.len() && (#[trigger] a[j]).0 == y;
            assert(ka[j] == y);
        }
    }
    lemma_increasing_unique(ka, kb);
    assert(ka.len() == kb.len());
    assert forall|i: int| 0 <= i < a.len() implies a[i] == b[i] by {
        assert(ka[i] == kb[i]);
        assert(a[i].0 == b[i].0);
        crate::sorted_map::lemma_sorted_lookup(a, i);
        crate::sorted_map::lemma_sorted_lookup(b, i);
        assert(a[i].1 == b[i].1);
    }
    assert(a =~= b);
}

/// The sorted listing of a map is its sorted entries.
pub proof fn lemma_sorted_entries_of<V>(s: Seq<(u32, V)>)
    requires
        keys_sorted(s),
    ensures
        sorted_entries(seq_map(s)) == s,
{
    let c = sorted_entries(seq_map(s));
    assert(keys_sorted(s) && seq_map(s) == seq_map(s));
    lemma_sorted_unique(c, s);
}

/// `i` instruction bytes walked are `(size + 3) / 4` slots once `i` reaches
/// the section's size.
proof fn lemma_slots_done(i: int, size: int)
    requires
        i % 4 == 0,
        size <= i,
        i < size + 4,
        0 <= size,
    ensures
        i / 4 == (size + 3) / 4,
{
    assert(i / 4 == (size + 3) / 4) by (nonlinear_arith)
        requires
            i % 4 == 0,
            size <= i,
            i < size + 4,
            0 <= size,
    ;
}

/// Rewriting a pair to the address it already builds changes neither word.
pub proof fn lemma_rewrite_own_target(hi: u32, lo: u32, kind: ImmKind)
    ensures
        crate::dol::rewritten(hi, lo, kind, built_addr(hi, lo, kind)) == (hi, lo),
{
    match kind {
        ImmKind::Addi => {
            let a = built_addr(hi, lo, kind);
            assert(a == (((hi & 0xffff) << 16u32) + (if lo & 0x8000 != 0 { (lo & 0xffff) | 0xffff0000u32 } else { lo & 0xffff })) as u32);
            assert((hi & 0xffff0000) | ((((a >> 16u32) + ((a >> 15u32) & 1u32)) as u32) & 0xffffu32) == hi
                && (lo & 0xffff0000) | (a & 0xffff) == lo) by (bit_vector)
                requires
                    a == (((hi & 0xffff) << 16u32) + (if lo & 0x8000 != 0 { (lo & 0xffff) | 0xffff0000u32 } else { lo & 0xffff })) as u32,
            ;
        },
        ImmKind::Ori => {
            let a = built_addr(hi, lo, kind);
            assert(a == ((hi & 0xffff) << 16u32) | (lo & 0xffff));
            assert((hi & 0xffff0000) | (a >> 16u32) == hi && (lo & 0xffff0000) | (a & 0xffff) == lo) by (bit_vector)
                requires
                    a == ((hi & 0xffff) << 16u32) | (lo & 0xffff),
            ;
        },
    }
}

/// Walk every code section for `lis`/low-half pairs, then let the decompiled
/// program's verdicts decide which of their targets may move.
#[verifier::spinoff_prover]
#[verifier::rlimit(40)]
pub fn scan(buf: &[u8], header: &DolHeader, verdicts: &Relocatable) -> (sc: Scan)
    requires
        header.wf(),
        header.fits(),
        covers(header, buf@),
    ensures
        sc.refs.wf(),
        sc.rejected.wf(),
        refs_ok(buf@, header, sc.refs@),
        forall|k: u32| #[trigger] sc.refs@.contains_key(k) ==> verdicts.ok@.contains(sc.refs@[k].target_ram)
            && !sc.rejected@.contains_key(sc.refs@[k].target_ram),
        // each pair kept builds its target: rewriting it to that target changes neither word
        forall|k: u32| #[trigger] sc.refs@.contains_key(k) ==> sc.refs@[k].lo_off == k && sc.refs@[k].hi_ram < sc.refs@[k].lo_ram
            && crate::dol::rewritten(
            spec_u32_at(buf@, sc.refs@[k].hi_off as int).unwrap(),
            spec_u32_at(buf@, sc.refs@[k].lo_off as int).unwrap(),
            sc.refs@[k].kind,
            sc.refs@[k].target_ram,
        ) == (spec_u32_at(buf@, sc.refs@[k].hi_off as int).unwrap(), spec_u32_at(buf@, sc.refs@[k].lo_off as int).unwrap()),
        (sc.refs@, sc.rejected@) == scan_spec(buf@, *header, *verdicts),
{
    broadcast use vstd::std_specs::hash::group_hash_axioms;
    let ghost b = buf@;
    let mut sc = Scan { refs: SortedMap::new(), rejected: SortedMap::new() };
    let targets = branch_targets(buf, header);
    let data_start = header.data_start();
    let mut k: usize = 0;
    while k < header.sections.len()
        invariant
            header.wf(),
            header.fits(),
            covers(header, buf@),
            data_start == header.spec_data_start(),
            k <= header.sections@.len(),
            sc.refs.wf(),
            sc.rejected.wf(),
            refs_ok(buf@, header, sc.refs@),
            forall|x: u32| targets@.contains(x) <==> is_branch_target(buf@, header, x),
            (sc.refs@, sc.rejected@) == sections_upto(buf@, header, k as int),
        decreases header.sections@.len() - k,
    {
        let s = header.sections[k];
        assert(header.sections@[k as int].fits());
        if s.size == 0 || s.file >= data_start {
            k = k + 1;
            continue;
        }
        let mut regs: Vec<Option<Pending>> = Vec::new();
        while regs.len() < 32
            invariant
                regs@.len() <= 32,
                forall|r: int| 0 <= r < regs@.len() ==> (#[trigger] regs@[r]) is None,
            decreases 32 - regs@.len(),
        {
            regs.push(None);
        }
        let ghost st0 = (regs_view(regs@), sc.refs@, sc.rejected@);
        proof {
            assert(regs_view(regs@) =~= no_regs());
        }
        let mut i: u64 = 0;
        while i < s.size as u64
            invariant
                header.wf(),
                header.fits(),
                covers(header, buf@),
                data_start == header.spec_data_start(),
                k < header.sections@.len(),
                s == header.sections@[k as int],
                s.fits(),
                i <= s.size + 3,
                regs_ok(buf@, header, regs@),
                sc.refs.wf(),
                sc.rejected.wf(),
                refs_ok(buf@, header, sc.refs@),
                forall|x: u32| targets@.contains(x) <==> is_branch_target(buf@, header, x),
                regs_before(regs@, s.ram + i),
                i % 4 == 0,
                (regs_view(regs@), sc.refs@, sc.rejected@) == section_upto(buf@, header, st0, s, (i / 4) as int),
            decreases s.size + 3 - i,
        {
            let off = s.file + i as u32;
            let ram = s.ram + i as u32;
            assert(ram == s.ram + i);
            proof {
                assert((i + 4) / 4 == i / 4 + 1);
                assert(4 * ((i + 4) / 4 - 1) == i);
            }
            match word(buf, off) {
                Some(w) => {
                    scan_insn(buf, header, &targets, &mut regs, &mut sc, w, off, ram);
                },
                None => {},
            }
            i = i + 4;
        }
        proof {
            lemma_slots_done(i as int, s.size as int);
        }
        retire_all(&mut regs, &targets, &mut sc, false, Ghost(buf@), Ghost(header));
        k = k + 1;
    }

    // the encoding-level walk above only proves which two words move together.
    // whether the address may move at all is the decompiler's answer, not ours.
    let ghost found = sc.refs@;
    let ghost rej1 = sc.rejected@;
    let ghost es = sc.refs.entries();
    proof {
        lemma_sorted_entries_of(es);
    }
    let mut n: usize = 0;
    while n < sc.refs.len()
        invariant
            sc.refs.wf(),
            sc.rejected.wf(),
            refs_ok(buf@, header, sc.refs@),
            sc.refs@ == found,
            es == sc.refs.entries(),
            n <= es.len(),
            forall|j: int| 0 <= j < n ==> verdicts.ok@.contains((#[trigger] sc.refs.entries()[j]).1.target_ram)
                || sc.rejected@.contains_key(sc.refs.entries()[j].1.target_ram),
            sc.rejected@ == verdicts_upto(es, rej1, *verdicts, n as int),
        decreases sc.refs.entries().len() - n,
    {
        let e = sc.refs.at(n);
        let target = e.1.target_ram;
        let at_ram = e.1.lo_ram;
        if !verdicts.ok.contains(&target) {
            let why = match verdicts.blocked.get(&target) {
                Some(w) => RejectReason::UsedAsValue(w.clone()),
                None => RejectReason::NotMaterialised,
            };
            sc.rejected.insert(target, Rejection { why, at_ram });
        }
        n = n + 1;
    }
    let ghost rej2 = sc.rejected@;
    let ghost kept_spec = Map::new(|key: u32| found.contains_key(key) && !rej2.contains_key(found[key].target_ram), |key: u32| found[key]);

    // a target reached both safely and unsafely is not safe
    let mut kept: SortedMap<ImmRef> = SortedMap::new();
    let mut n: usize = 0;
    while n < sc.refs.len()
        invariant
            sc.refs.wf(),
            sc.rejected.wf(),
            kept.wf(),
            sc.refs@ == found,
            sc.rejected@ == rej2,
            es == sc.refs.entries(),
            n <= es.len(),
            refs_ok(buf@, header, sc.refs@),
            refs_ok(buf@, header, kept@),
            forall|j: int| 0 <= j < sc.refs.entries().len() ==> verdicts.ok@.contains((#[trigger] sc.refs.entries()[j]).1.target_ram)
                || sc.rejected@.contains_key(sc.refs.entries()[j].1.target_ram),
            forall|key: u32| #[trigger] kept@.contains_key(key) ==> verdicts.ok@.contains(kept@[key].target_ram)
                && !sc.rejected@.contains_key(kept@[key].target_ram),
            kept@ == kept_upto(found, rej2, es, n as int),
        decreases sc.refs.entries().len() - n,
    {
        let e = sc.refs.at(n);
        proof {
            crate::sorted_map::lemma_sorted_lookup(sc.refs.entries(), n as int);
        }
        let ghost pre = kept@;
        let ins = !sc.rejected.contains_key(e.1.target_ram);
        if ins {
            kept.insert(e.0, e.1);
        }
        proof {
            assert forall|key: u32| seq_has(es.take(n + 1), key) <==> seq_has(es.take(n as int), key) || key == es[n as int].0 by {
                if seq_has(es.take(n + 1), key) {
                    let j = choose|j: int| 0 <= j < es.take(n + 1).len() && (#[trigger] es.take(n + 1)[j]).0 == key;
                    if j < n {
                        assert(es.take(n as int)[j] == es.take(n + 1)[j]);
                    }
                }
                if seq_has(es.take(n as int), key) {
                    let j = choose|j: int| 0 <= j < es.take(n as int).len() && (#[trigger] es.take(n as int)[j]).0 == key;
                    assert(es.take(n + 1)[j] == es.take(n as int)[j]);
                }
                if key == es[n as int].0 {
                    assert(es.take(n + 1)[n as int].0 == key);
                }
            }
            let en = es[n as int];
            assert(en == *e);
            assert(found.contains_key(en.0) && found[en.0] == en.1);
            let target = kept_upto(found, rej2, es, n + 1);
            let pre_spec = kept_upto(found, rej2, es, n as int);
            assert(pre == pre_spec);
            assert(ins == !rej2.contains_key(en.1.target_ram));
            assert(seq_has(es.take(n + 1), en.0)) by {
                assert(es.take(n + 1)[n as int] == en);
            }
            assert forall|key: u32| kept@.contains_key(key) <==> target.contains_key(key) by {
                if key == en.0 {
                    if !ins {
                        assert(!pre_spec.contains_key(key));
                    }
                } else {
                    assert(seq_has(es.take(n + 1), key) == seq_has(es.take(n as int), key));
                }
            }
            assert forall|key: u32| kept@.contains_key(key) implies kept@[key] == target[key] by {
                if key == en.0 {
                    if !ins {
                        assert(!pre_spec.contains_key(key));
                    }
                }
            }
            assert(kept@ =~= target);
        }
        n = n + 1;
    }
    proof {
        assert(es.take(es.len() as int) =~= es);
        assert forall|key: u32| seq_has(es, key) <==> found.contains_key(key) by {}
        assert(kept@ =~= kept_spec);
        reveal(scan_spec);
    }
    proof {
        assert forall|k: u32| #[trigger] kept@.contains_key(k) implies crate::dol::rewritten(
            spec_u32_at(buf@, kept@[k].hi_off as int).unwrap(),
            spec_u32_at(buf@, kept@[k].lo_off as int).unwrap(),
            kept@[k].kind,
            kept@[k].target_ram,
        ) == (spec_u32_at(buf@, kept@[k].hi_off as int).unwrap(), spec_u32_at(buf@, kept@[k].lo_off as int).unwrap()) by {
            assert(pair_ok(buf@, header, kept@[k]));
            lemma_rewrite_own_target(spec_u32_at(buf@, kept@[k].hi_off as int).unwrap(), spec_u32_at(buf@, kept@[k].lo_off as int).unwrap(),
                kept@[k].kind);
        }
    }
    Scan { refs: kept, rejected: sc.rejected }
}


/// `g` with `r` placed after every pair whose low half is not above its own.
pub open spec fn insert_by_lo(g: Seq<ImmRef>, r: ImmRef) -> Seq<ImmRef>
    decreases g.len(),
{
    if g.len() == 0 {
        seq![r]
    } else if g.last().lo_off <= r.lo_off {
        g.push(r)
    } else {
        insert_by_lo(g.drop_last(), r).push(g.last())
    }
}

/// `s` sorted by low half; pairs with equal low halves keep their order.
pub open spec fn sort_by_lo(s: Seq<ImmRef>) -> Seq<ImmRef>
    decreases s.len(),
{
    if s.len() == 0 {
        s
    } else {
        insert_by_lo(sort_by_lo(s.drop_last()), s.last())
    }
}

/// The pairs of `refs` that build `t`'s file offset and whose target
/// survived every rejection, in low-half order.
pub open spec fn usable_for(refs: Seq<(u32, ImmRef)>, rejected: Map<u32, Rejection>, t: u32) -> Seq<ImmRef> {
    sort_by_lo(usable_in(refs, rejected, t))
}

/// The pairs of `refs` that build `t` and whose target survived, in the
/// order of `refs`.
pub open spec fn usable_in(refs: Seq<(u32, ImmRef)>, rejected: Map<u32, Rejection>, t: u32) -> Seq<ImmRef> {
    refs.map_values(|e: (u32, ImmRef)| e.1).filter(
        |r: ImmRef| r.target_off == t && !rejected.contains_key(r.target_ram),
    )
}

/// Low halves never decrease along `g`.
pub open spec fn lo_sorted(g: Seq<ImmRef>) -> bool {
    forall|i: int, j: int| 0 <= i < j < g.len() ==> (#[trigger] g[i]).lo_off <= (#[trigger] g[j]).lo_off
}

/// Inserting at `pos`, past every pair not above `r` and before every pair
/// above it, is `insert_by_lo`.
proof fn lemma_insert_at(g: Seq<ImmRef>, r: ImmRef, pos: int)
    requires
        0 <= pos <= g.len(),
        forall|j: int| pos <= j < g.len() ==> (#[trigger] g[j]).lo_off > r.lo_off,
        pos == 0 || g[pos - 1].lo_off <= r.lo_off,
    ensures
        insert_by_lo(g, r) == g.take(pos).push(r) + g.skip(pos),
    decreases g.len(),
{
    if g.len() == 0 {
        assert(g.take(pos).push(r) + g.skip(pos) =~= seq![r]);
    } else if pos == g.len() {
        assert(g.take(pos).push(r) + g.skip(pos) =~= g.push(r));
    } else {
        assert(g.last().lo_off > r.lo_off);
        let d = g.drop_last();
        assert forall|j: int| pos <= j < d.len() implies (#[trigger] d[j]).lo_off > r.lo_off by {
            assert(d[j] == g[j]);
        }
        if pos > 0 {
            assert(d[pos - 1] == g[pos - 1]);
        }
        lemma_insert_at(d, r, pos);
        assert(d.take(pos).push(r) + d.skip(pos) + seq![g.last()] =~= g.take(pos).push(r) + g.skip(pos));
        assert(insert_by_lo(d, r).push(g.last()) =~= insert_by_lo(d, r) + seq![g.last()]);
    }
}

/// Inserting keeps a sorted group sorted and adds `r` to its pairs.
proof fn lemma_insert_by_lo(g: Seq<ImmRef>, r: ImmRef)
    requires
        lo_sorted(g),
    ensures
        lo_sorted(insert_by_lo(g, r)),
        insert_by_lo(g, r).to_multiset() == g.to_multiset().insert(r),
    decreases g.len(),
{
    broadcast use vstd::seq_lib::group_to_multiset_ensures;
    if g.len() == 0 {
        assert(seq![r] =~= Seq::<ImmRef>::empty().push(r));
    } else if g.last().lo_off <= r.lo_off {
    } else {
        let d = g.drop_last();
        assert(g =~= d.push(g.last()));
        lemma_insert_by_lo(d, r);
        let x = insert_by_lo(d, r);
        assert forall|i: int| 0 <= i < x.len() implies (#[trigger] x[i]).lo_off <= g.last().lo_off by {
            assert(x.to_multiset().count(x[i]) > 0);
            assert(x.to_multiset() == d.to_multiset().insert(r));
            if x[i] != r {
                assert(d.to_multiset().count(x[i]) > 0);
                assert(d.contains(x[i]));
                let k = choose|k: int| 0 <= k < d.len() && d[k] == x[i];
                assert(g[k] == d[k]);
                assert(g[k].lo_off <= g[g.len() - 1].lo_off);
            }
        }
        assert(x.push(g.last()).to_multiset() == x.to_multiset().insert(g.last()));
        assert(d.push(g.last()).to_multiset() == d.to_multiset().insert(g.last()));
        assert(d.to_multiset().insert(r).insert(g.last()) =~= d.to_multiset().insert(g.last()).insert(r));
    }
}

/// `sort_by_lo` sorts and keeps every pair.
pub proof fn lemma_sort_by_lo(s: Seq<ImmRef>)
    ensures
        lo_sorted(sort_by_lo(s)),
        sort_by_lo(s).to_multiset() == s.to_multiset(),
    decreases s.len(),
{
    broadcast use vstd::seq_lib::group_to_multiset_ensures;
    if s.len() > 0 {
        lemma_sort_by_lo(s.drop_last());
        lemma_insert_by_lo(sort_by_lo(s.drop_last()), s.last());
        assert(s =~= s.drop_last().push(s.last()));
    }
}

impl Scan {
    /// Pairs whose target survived every rejection, grouped by target file
    /// offset, each group sorted by low half.
    pub fn usable(&self) -> (out: SortedMap<Vec<ImmRef>>)
        requires
            self.refs.wf(),
            self.rejected.wf(),
        ensures
            out.wf(),
            forall|t: u32| #[trigger] out@.contains_key(t) <==> usable_for(self.refs.entries(), self.rejected@, t).len() > 0,
            forall|t: u32| #[trigger] out@.contains_key(t) ==> out@[t]@ == usable_for(self.refs.entries(), self.rejected@, t),
            forall|t: u32| #[trigger] out@.contains_key(t) ==> lo_sorted(out@[t]@)
                && out@[t]@.to_multiset() == usable_in(self.refs.entries(), self.rejected@, t).to_multiset(),
    {
        let mut out: SortedMap<Vec<ImmRef>> = SortedMap::new();
        let mut n: usize = 0;
        let ghost all = self.refs.entries();
        while n < self.refs.len()
            invariant
                n <= all.len(),
                all == self.refs.entries(),
                self.refs.wf(),
                self.rejected.wf(),
                out.wf(),
                forall|t: u32| #[trigger] out@.contains_key(t) <==> usable_in(all.take(n as int), self.rejected@, t).len() > 0,
                forall|t: u32| #[trigger] out@.contains_key(t) ==> out@[t]@ == usable_for(all.take(n as int), self.rejected@, t),
            decreases all.len() - n,
        {
            let e = self.refs.at(n);
            let r = e.1;
            let ghost pre = all.take(n as int);
            proof {
                assert(all.take(n + 1) =~= pre.push(all[n as int]));
                assert(pre.push(all[n as int]).map_values(|e: (u32, ImmRef)| e.1) =~= pre.map_values(|e: (u32, ImmRef)| e.1).push(r));
            }
            let ghost keep = r.target_off;
            if !self.rejected.contains_key(r.target_ram) {
                let mut group = match out.remove(r.target_off) {
                    Some(g) => g,
                    None => Vec::new(),
                };
                let ghost g0 = group@;
                let mut pos = group.len();
                while pos > 0 && group[pos - 1].lo_off > r.lo_off
                    invariant
                        pos <= group@.len(),
                        group@ == g0,
                        forall|j: int| pos <= j < group@.len() ==> (#[trigger] group@[j]).lo_off > r.lo_off,
                    decreases pos,
                {
                    pos = pos - 1;
                }
                group.insert(pos, r);
                proof {
                    lemma_insert_at(g0, r, pos as int);
                    assert(group@ =~= g0.take(pos as int).push(r) + g0.skip(pos as int));
                }
                out.insert(r.target_off, group);
            }
            proof {
                assert forall|t: u32| #[trigger] usable_in(all.take(n + 1), self.rejected@, t) == (if r.target_off == t
                    && !self.rejected@.contains_key(r.target_ram) { usable_in(pre, self.rejected@, t).push(r) } else {
                    usable_in(pre, self.rejected@, t) }) by {
                    let pred = |q: ImmRef| q.target_off == t && !self.rejected@.contains_key(q.target_ram);
                    pre.map_values(|e: (u32, ImmRef)| e.1).lemma_filter_push(r, pred);
                }
                assert forall|t: u32| #[trigger] out@.contains_key(t) <==> usable_in(all.take(n + 1), self.rejected@, t).len() > 0 by {
                    assert(usable_in(all.take(n + 1), self.rejected@, t).len() >= usable_in(pre, self.rejected@, t).len());
                }
                assert forall|t: u32| #[trigger] out@.contains_key(t) implies out@[t]@ == usable_for(all.take(n + 1), self.rejected@, t) by {
                    if r.target_off == t && !self.rejected@.contains_key(r.target_ram) {
                        let u = usable_in(pre, self.rejected@, t);
                        assert(u.push(r).drop_last() =~= u);
                        if u.len() == 0 {
                            assert(u =~= Seq::<ImmRef>::empty());
                            assert(sort_by_lo(u) =~= Seq::<ImmRef>::empty());
                        }
                    }
                }
            }
            n = n + 1;
        }
        proof {
            assert(all.take(all.len() as int) =~= all);
            assert forall|t: u32| #[trigger] out@.contains_key(t) implies lo_sorted(out@[t]@)
                && out@[t]@.to_multiset() == usable_in(all, self.rejected@, t).to_multiset() by {
                lemma_sort_by_lo(usable_in(all, self.rejected@, t));
            }
        }
        out
    }
}

} // verus!
