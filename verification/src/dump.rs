//! The dumpers: every string of `main.dol` and of each event script written
//! out as a translator's `.patch` sidecar, one entry per string with every
//! reference to it.

use vstd::prelude::*;
use std::collections::HashMap;
use crate::bytes::{spec_u16_at, spec_u32_at, u16at, u32at};
use crate::text::{hex, push_str, push_hex, string_of, chars_of, append_chars};
use crate::shape::{DolHeader, Section, DATA0, find_file_offset, find_ram_addr};
use crate::constants::{WalkTable, WalkView, walk_view, walk_views, walking_tables, TextTable, TableShape, shape, explicit_shapes,
    text_tables_explicit, NameCap};
use crate::text::{decimal, push_dec};
use crate::ppc::{Rejection, reject_text, ImmRef, ImmKind, usable_for, Relocatable, Scan, scan, refs_ok, covers, scan_spec, sorted_entries};
use crate::patcher::{sort_dedup, sort_dedup_exec, header_of};
use crate::shape::HEADER_READ_BYTES;
use crate::text::decimal_chars;
use crate::sorted_map::{SortedMap, seq_map, keys_sorted};
use crate::constants::{InlineField, inline_fields, EXCLUDED_TEXT, excluded_note, excluded_note_spec};
use crate::text::hex_upper;

verus! {

broadcast use {crate::shape::lemma_fits_ram_maps, crate::shape::lemma_fits_file_maps};

/// Why a dump could not be written.
#[derive(Debug, Clone, Copy, PartialEq, Eq, Structural)]
pub enum DumpError {
    /// a read ran past the end of the file
    Read,
    /// no terminator within the glyph limit of where the string starts
    NoTerminator { offset: u32 },
    /// a pointer word was found where no section loads it
    Unmapped { at: u32 },
    /// a section wraps the address space
    SectionOverflow,
}

/// The longest run read as one string; the longest the game ships is 163
/// glyphs, so a run this long is not a string.
pub const MAX_GLYPHS: u32 = 4096;

pub open spec fn dump_error_text(e: DumpError) -> Seq<char> {
    match e {
        DumpError::Read => "failed to fill whole buffer"@,
        DumpError::NoTerminator { offset } => "no terminator within 4096 glyphs of 0x"@ + hex(offset as nat, 1),
        DumpError::Unmapped { at } => "no section loads main.dol:0x"@ + hex(at as nat, 1),
        DumpError::SectionOverflow => "DOL section address overflow"@,
    }
}

impl DumpError {
    /// The failure as a sentence.
    pub fn message(&self) -> (s: String)
        ensures
            s@ == dump_error_text(*self),
    {
        let mut o: Vec<char> = Vec::new();
        match self {
            DumpError::Read => push_str(&mut o, "failed to fill whole buffer"),
            DumpError::NoTerminator { offset } => {
                push_str(&mut o, "no terminator within 4096 glyphs of 0x");
                push_hex(&mut o, *offset as u64, 1);
            },
            DumpError::Unmapped { at } => {
                push_str(&mut o, "no section loads main.dol:0x");
                push_hex(&mut o, *at as u64, 1);
            },
            DumpError::SectionOverflow => push_str(&mut o, "DOL section address overflow"),
        }
        string_of(o.as_slice())
    }
}

/// How code `c` renders in `main.dol`: its table glyph, or `[0xh..]` with
/// no padding.
pub open spec fn dol_glyph_text(glyphs: Map<u16, String>, c: u16) -> Seq<char> {
    if glyphs.contains_key(c) {
        glyphs[c]@
    } else {
        "[0x"@ + hex(c as nat, 1) + "]"@
    }
}

/// The string from glyph `n` on of the run at `off`: each glyph rendered,
/// up to and including the terminator.
pub open spec fn dx_from(buf: Seq<u8>, off: int, n: int, glyphs: Map<u16, String>) -> Result<Seq<char>, DumpError>
    decreases MAX_GLYPHS - n,
{
    if n < 0 || n >= MAX_GLYPHS {
        Err(DumpError::NoTerminator { offset: (off + 2 * MAX_GLYPHS) as u32 })
    } else {
        match spec_u16_at(buf, off + 2 * n) {
            None => Err(DumpError::Read),
            Some(c) => if c == 0xf800 {
                Ok(dol_glyph_text(glyphs, c))
            } else {
                match dx_from(buf, off, n + 1, glyphs) {
                    Err(e) => Err(e),
                    Ok(rest) => Ok(dol_glyph_text(glyphs, c) + rest),
                }
            },
        }
    }
}

fn push_glyph(out: &mut Vec<char>, table: &HashMap<u16, String>, c: u16)
    ensures
        final(out)@ == old(out)@ + dol_glyph_text(table@, c),
{
    broadcast use vstd::std_specs::hash::group_hash_axioms;
    match table.get(&c) {
        Some(s) => {
            let v = chars_of(s.as_str());
            append_chars(out, v.as_slice());
        },
        None => {
            push_str(out, "[0x");
            push_hex(out, c as u64, 1);
            push_str(out, "]");
            proof {
                reveal_strlit("[0x");
                reveal_strlit("]");
            }
        },
    }
}

/// Read the string at `offset`, rendering each glyph through `table`.
pub fn dx_str_at_offset(buf: &[u8], offset: u32, table: &HashMap<u16, String>) -> (r: Result<String, DumpError>)
    requires
        buf@.len() <= u32::MAX,
    ensures
        match dx_from(buf@, offset as int, 0, table@) {
            Ok(s) => r is Ok && r->Ok_0@ == s,
            Err(e) => r is Err && r->Err_0 == e,
        },
{
    let mut out: Vec<char> = Vec::new();
    let mut n: u32 = 0;
    while n < MAX_GLYPHS
        invariant
            buf@.len() <= u32::MAX,
            n <= MAX_GLYPHS,
            offset + 2 * n <= buf@.len() || n == 0,
            dx_from(buf@, offset as int, 0, table@) == (match dx_from(buf@, offset as int, n as int, table@) {
                Err(e) => Err(e),
                Ok(rest) => Ok(out@ + rest),
            }),
        decreases MAX_GLYPHS - n,
    {
        let at: u64 = offset as u64 + 2 * n as u64;
        if at + 2 > buf.len() as u64 {
            proof {
                assert(spec_u16_at(buf@, offset + 2 * n) is None);
            }
            return Err(DumpError::Read);
        }
        let c = match u16at(buf, at as usize) {
            Some(c) => c,
            None => {
                return Err(DumpError::Read);
            },
        };
        let ghost before = out@;
        push_glyph(&mut out, table, c);
        if c == 0xf800 {
            proof {
                assert(out@ =~= before + dol_glyph_text(table@, c));
            }
            return Ok(string_of(out.as_slice()));
        }
        proof {
            assert(dx_from(buf@, offset as int, 0, table@) == (match dx_from(buf@, offset as int, n + 1, table@) {
                Err(e) => Err(e),
                Ok(rest) => Ok(out@ + rest),
            })) by {
                match dx_from(buf@, offset as int, n + 1, table@) {
                    Err(e) => {},
                    Ok(rest) => {
                        assert(before + (dol_glyph_text(table@, c) + rest) =~= out@ + rest);
                    },
                }
            }
        }
        n = n + 1;
    }
    Err(DumpError::NoTerminator { offset: offset + 2 * MAX_GLYPHS })
}


/// A pointer word found in a table: where it is, the string it points at
/// (both file offsets), and the table's tag.
#[derive(Clone, Copy)]
pub struct Ptr {
    pub at: u32,
    pub text: u32,
    pub tag: &'static str,
}

pub type PtrView = (u32, u32, Seq<char>);

pub open spec fn ptr_view(p: Ptr) -> PtrView {
    (p.at, p.text, p.tag@)
}

/// `p` put into the list ordered by `at`, replacing an entry for the same
/// word.
pub open spec fn ptr_put(o: Seq<PtrView>, p: PtrView) -> Seq<PtrView>
    decreases o.len(),
{
    if o.len() == 0 {
        seq![p]
    } else if p.0 < o[0].0 {
        seq![p] + o
    } else if p.0 == o[0].0 {
        seq![p] + o.drop_first()
    } else {
        seq![o[0]] + ptr_put(o.drop_first(), p)
    }
}

/// `p` put into the list ordered by `at`, unless the word is already there.
pub open spec fn ptr_add(o: Seq<PtrView>, p: PtrView) -> Seq<PtrView>
    decreases o.len(),
{
    if o.len() == 0 {
        seq![p]
    } else if p.0 < o[0].0 {
        seq![p] + o
    } else if p.0 == o[0].0 {
        o
    } else {
        seq![o[0]] + ptr_add(o.drop_first(), p)
    }
}

proof fn lemma_ptr_prefix(o: Seq<PtrView>, p: PtrView, i: int)
    requires
        0 <= i <= o.len(),
        forall|k: int| 0 <= k < i ==> (#[trigger] o[k]).0 < p.0,
    ensures
        ptr_put(o, p) == o.take(i) + ptr_put(o.skip(i), p),
        ptr_add(o, p) == o.take(i) + ptr_add(o.skip(i), p),
    decreases i,
{
    if i == 0 {
        assert(o.skip(0) =~= o);
        assert(o.take(0) + ptr_put(o, p) =~= ptr_put(o, p));
        assert(o.take(0) + ptr_add(o, p) =~= ptr_add(o, p));
    } else {
        let t = o.drop_first();
        assert forall|k: int| 0 <= k < i - 1 implies (#[trigger] t[k]).0 < p.0 by {
            assert(t[k] == o[k + 1]);
        }
        assert(o[0].0 < p.0);
        lemma_ptr_prefix(t, p, i - 1);
        assert(t.skip(i - 1) =~= o.skip(i));
        assert(seq![o[0]] + t.take(i - 1) =~= o.take(i));
        assert(seq![o[0]] + (t.take(i - 1) + ptr_put(t.skip(i - 1), p)) =~= o.take(i) + ptr_put(o.skip(i), p));
        assert(seq![o[0]] + (t.take(i - 1) + ptr_add(t.skip(i - 1), p)) =~= o.take(i) + ptr_add(o.skip(i), p));
    }
}

/// Put (`replace`) or add (`!replace`) one pointer.
fn ptr_insert(o: &mut Vec<Ptr>, p: Ptr, replace: bool)
    ensures
        final(o)@.map_values(|x: Ptr| ptr_view(x)) == if replace {
            ptr_put(old(o)@.map_values(|x: Ptr| ptr_view(x)), ptr_view(p))
        } else {
            ptr_add(old(o)@.map_values(|x: Ptr| ptr_view(x)), ptr_view(p))
        },
{
    let ghost ov = old(o)@.map_values(|x: Ptr| ptr_view(x));
    let mut i: usize = 0;
    let mut stop = false;
    while !stop && i < o.len()
        invariant
            ov == o@.map_values(|x: Ptr| ptr_view(x)),
            i <= o@.len(),
            forall|k: int| 0 <= k < i ==> (#[trigger] ov[k]).0 < p.at,
            stop ==> i < o@.len() && ov[i as int].0 >= p.at,
        decreases o@.len() - i + (if stop { 0int } else { 1int }),
    {
        if o[i].at >= p.at {
            stop = true;
        } else {
            i = i + 1;
        }
    }
    proof {
        lemma_ptr_prefix(ov, ptr_view(p), i as int);
    }
    if i == o.len() {
        proof {
            assert(ov.skip(i as int) =~= Seq::<PtrView>::empty());
        }
        o.push(p);
        proof {
            assert(o@.map_values(|x: Ptr| ptr_view(x)) =~= ov.take(i as int) + seq![ptr_view(p)]);
        }
    } else if o[i].at == p.at {
        proof {
            assert(ov.skip(i as int)[0] == ov[i as int]);
            assert(ov.skip(i as int).drop_first() =~= ov.skip(i + 1));
            assert(ov.take(i as int) + ov.skip(i as int) =~= ov);
        }
        if replace {
            o.set(i, p);
            proof {
                assert(o@.map_values(|x: Ptr| ptr_view(x)) =~= ov.take(i as int) + (seq![ptr_view(p)] + ov.skip(i + 1)));
            }
        }
    } else {
        proof {
            assert(ov.skip(i as int)[0] == ov[i as int]);
        }
        o.insert(i, p);
        proof {
            assert(o@.map_values(|x: Ptr| ptr_view(x)) =~= ov.take(i as int) + (seq![ptr_view(p)] + ov.skip(i as int)));
        }
    }
}

/// The word at `at`, if it points into a data section: the string's file
/// offset; `None` when it does not.
pub open spec fn data_ptr(h: Seq<Section>, buf: Seq<u8>, at: int) -> Result<Option<u32>, DumpError> {
    match spec_u32_at(buf, at) {
        None => Err(DumpError::Read),
        Some(w) => match find_file_offset(h, w, 0) {
            Some(off) => if off >= h[DATA0 as int].file {
                Ok(Some(off))
            } else {
                Ok(None)
            },
            None => Ok(None),
        },
    }
}

/// The required pointers of the entry at `entry`, from field `j` on; `None`
/// when one of them does not point into data, which ends the table.
pub open spec fn fields_from(h: Seq<Section>, buf: Seq<u8>, entry: int, fields: Seq<u32>, j: int) -> Result<Option<Seq<(u32, u32)>>, DumpError>
    decreases fields.len() - j,
{
    if j < 0 || j >= fields.len() {
        Ok(Some(Seq::empty()))
    } else {
        match data_ptr(h, buf, entry + fields[j]) {
            Err(e) => Err(e),
            Ok(None) => Ok(None),
            Ok(Some(off)) => match fields_from(h, buf, entry, fields, j + 1) {
                Err(e) => Err(e),
                Ok(None) => Ok(None),
                Ok(Some(rest)) => Ok(Some(seq![((entry + fields[j]) as u32, off)] + rest)),
            },
        }
    }
}

/// The optional pointers of the entry at `entry` that do point into data,
/// from field `j` on.
pub open spec fn optional_from(h: Seq<Section>, buf: Seq<u8>, entry: int, fields: Seq<u32>, j: int) -> Result<Seq<(u32, u32)>, DumpError>
    decreases fields.len() - j,
{
    if j < 0 || j >= fields.len() {
        Ok(Seq::empty())
    } else {
        match data_ptr(h, buf, entry + fields[j]) {
            Err(e) => Err(e),
            Ok(found) => match optional_from(h, buf, entry, fields, j + 1) {
                Err(e) => Err(e),
                Ok(rest) => match found {
                    Some(off) => Ok(seq![((entry + fields[j]) as u32, off)] + rest),
                    None => Ok(rest),
                },
            },
        }
    }
}

/// Every pointer of `ps` put into the list, in order.
pub open spec fn put_all(o: Seq<PtrView>, ps: Seq<(u32, u32)>, tag: Seq<char>) -> Seq<PtrView>
    decreases ps.len(),
{
    if ps.len() == 0 {
        o
    } else {
        ptr_put(put_all(o, ps.drop_last(), tag), (ps.last().0, ps.last().1, tag))
    }
}

/// The RAM bases of the tables that sit against one another.
pub open spec fn abutting(ts: Seq<WalkView>) -> Seq<u32> {
    ts.filter(|t: WalkView| t.4).map_values(|t: WalkView| t.0)
}

/// Table `t` walked from the entry at file offset `entry`: each entry whose
/// required pointers all point into data is taken, until one is not, or an
/// abutting table's base is reached. A read past the end of the file fails
/// the dump; so does an entry past the 32-bit offsets, whose read would.
pub open spec fn walk_from(h: Seq<Section>, buf: Seq<u8>, t: WalkView, abut: Seq<u32>, entry: int, o: Seq<PtrView>) -> Result<Seq<PtrView>, DumpError>
    decreases buf.len() - entry,
{
    if t.2.len() == 0 || t.1 == 0 {
        Ok(o)
    } else if entry >= buf.len() || entry > u32::MAX {
        Err(DumpError::Read)
    } else {
        match fields_from(h, buf, entry, t.2, 0) {
            Err(e) => Err(e),
            Ok(None) => Ok(o),
            Ok(Some(ps)) => match optional_from(h, buf, entry, t.3, 0) {
                Err(e) => Err(e),
                Ok(qs) => {
                    let o2 = put_all(o, ps + qs, t.5);
                    let next = entry + t.1;
                    if t.4 && next <= u32::MAX && (find_ram_addr(h, next as u32, 0) matches Some(ram) && abut.contains(ram)) {
                        Ok(o2)
                    } else if next >= buf.len() || next > u32::MAX {
                        Err(DumpError::Read)
                    } else {
                        walk_from(h, buf, t, abut, next, o2)
                    }
                },
            },
        }
    }
}

/// The first `k` walked tables.
pub open spec fn walk_tables_run(h: Seq<Section>, buf: Seq<u8>, ts: Seq<WalkView>, k: int) -> Result<Seq<PtrView>, DumpError>
    decreases k,
{
    if k <= 0 {
        Ok(Seq::empty())
    } else {
        match walk_tables_run(h, buf, ts, k - 1) {
            Err(e) => Err(e),
            Ok(o) => match find_file_offset(h, ts[k - 1].0, 0) {
                None => Ok(o),
                Some(e0) => walk_from(h, buf, ts[k - 1], abutting(ts), e0 as int, o),
            },
        }
    }
}


fn data_ptr_exec(header: &DolHeader, buf: &[u8], at: u64) -> (r: Result<Option<u32>, DumpError>)
    requires
        header.wf(),
        header.fits(),
    ensures
        r == data_ptr(header.sections@, buf@, at as int),
{
    if at > buf.len() as u64 || 4 > buf.len() as u64 - at {
        return Err(DumpError::Read);
    }
    let w = match u32at(buf, at as usize) {
        Some(w) => w,
        None => {
            return Err(DumpError::Read);
        },
    };
    match header.file_offset(w) {
        Some(off) => if off >= header.data_start() {
            Ok(Some(off))
        } else {
            Ok(None)
        },
        None => Ok(None),
    }
}

fn fields_exec(header: &DolHeader, buf: &[u8], entry: u32, fields: &[u32]) -> (r: Result<Option<Vec<(u32, u32)>>, DumpError>)
    requires
        header.wf(),
        header.fits(),
    ensures
        match fields_from(header.sections@, buf@, entry as int, fields@, 0) {
            Err(e) => r is Err && r->Err_0 == e,
            Ok(None) => r is Ok && r->Ok_0 is None,
            Ok(Some(ps)) => r is Ok && r->Ok_0 is Some && r->Ok_0->Some_0@ == ps,
        },
{
    let ghost h = header.sections@;
    let mut acc: Vec<(u32, u32)> = Vec::new();
    let mut j: usize = 0;
    while j < fields.len()
        invariant
            header.wf(),
            header.fits(),
            h == header.sections@,
            j <= fields@.len(),
            fields_from(h, buf@, entry as int, fields@, 0) == (match fields_from(h, buf@, entry as int, fields@, j as int) {
                Err(e) => Err(e),
                Ok(None) => Ok(None),
                Ok(Some(rest)) => Ok(Some(acc@ + rest)),
            }),
        decreases fields@.len() - j,
    {
        let at = entry as u64 + fields[j] as u64;
        match data_ptr_exec(header, buf, at) {
            Err(e) => {
                return Err(e);
            },
            Ok(None) => {
                return Ok(None);
            },
            Ok(Some(off)) => {
                let ghost before = acc@;
                acc.push((at as u32, off));
                proof {
                    match fields_from(h, buf@, entry as int, fields@, j + 1) {
                        Err(e) => {},
                        Ok(None) => {},
                        Ok(Some(rest)) => {
                            assert(before + (seq![((entry + fields@[j as int]) as u32, off)] + rest) =~= acc@ + rest);
                        },
                    }
                }
            },
        }
        j = j + 1;
    }
    proof {
        assert(acc@ + Seq::<(u32, u32)>::empty() =~= acc@);
    }
    Ok(Some(acc))
}

fn optional_exec(header: &DolHeader, buf: &[u8], entry: u32, fields: &[u32]) -> (r: Result<Vec<(u32, u32)>, DumpError>)
    requires
        header.wf(),
        header.fits(),
    ensures
        match optional_from(header.sections@, buf@, entry as int, fields@, 0) {
            Err(e) => r is Err && r->Err_0 == e,
            Ok(qs) => r is Ok && r->Ok_0@ == qs,
        },
{
    let ghost h = header.sections@;
    let mut acc: Vec<(u32, u32)> = Vec::new();
    let mut j: usize = 0;
    while j < fields.len()
        invariant
            header.wf(),
            header.fits(),
            h == header.sections@,
            j <= fields@.len(),
            optional_from(h, buf@, entry as int, fields@, 0) == (match optional_from(h, buf@, entry as int, fields@, j as int) {
                Err(e) => Err(e),
                Ok(rest) => Ok(acc@ + rest),
            }),
        decreases fields@.len() - j,
    {
        let at = entry as u64 + fields[j] as u64;
        match data_ptr_exec(header, buf, at) {
            Err(e) => {
                return Err(e);
            },
            Ok(found) => {
                let ghost before = acc@;
                if let Some(off) = found {
                    acc.push((at as u32, off));
                }
                proof {
                    match optional_from(h, buf@, entry as int, fields@, j + 1) {
                        Err(e) => {},
                        Ok(rest) => {
                            if let Some(off) = found {
                                assert(before + (seq![((entry + fields@[j as int]) as u32, off)] + rest) =~= acc@ + rest);
                            }
                        },
                    }
                }
            },
        }
        j = j + 1;
    }
    proof {
        assert(acc@ + Seq::<(u32, u32)>::empty() =~= acc@);
    }
    Ok(acc)
}

fn put_all_exec(o: &mut Vec<Ptr>, ps: &[(u32, u32)], tag: &'static str)
    ensures
        final(o)@.map_values(|x: Ptr| ptr_view(x)) == put_all(old(o)@.map_values(|x: Ptr| ptr_view(x)), ps@, tag@),
{
    let ghost o0 = o@.map_values(|x: Ptr| ptr_view(x));
    let mut k: usize = 0;
    while k < ps.len()
        invariant
            k <= ps@.len(),
            o@.map_values(|x: Ptr| ptr_view(x)) == put_all(o0, ps@.take(k as int), tag@),
        decreases ps@.len() - k,
    {
        proof {
            assert(ps@.take(k + 1).drop_last() =~= ps@.take(k as int));
        }
        ptr_insert(o, Ptr { at: ps[k].0, text: ps[k].1, tag }, true);
        k = k + 1;
    }
    proof {
        assert(ps@.take(ps@.len() as int) =~= ps@);
    }
}

fn abutting_exec(ts: &[WalkTable]) -> (r: Vec<u32>)
    ensures
        r@ == abutting(ts@.map_values(|t: WalkTable| walk_view(t))),
{
    let ghost tv = ts@.map_values(|t: WalkTable| walk_view(t));
    let mut r: Vec<u32> = Vec::new();
    let mut k: usize = 0;
    while k < ts.len()
        invariant
            k <= ts@.len(),
            tv == ts@.map_values(|t: WalkTable| walk_view(t)),
            r@ == abutting(tv.take(k as int)),
        decreases ts@.len() - k,
    {
        proof {
            assert(tv.take(k + 1) =~= tv.take(k as int).push(tv[k as int]));
            tv.take(k as int).lemma_filter_push(tv[k as int], |t: WalkView| t.4);
        }
        if ts[k].abuts {
            r.push(ts[k].base);
            proof {
                assert(r@ =~= abutting(tv.take(k + 1)));
            }
        } else {
            proof {
                assert(r@ =~= abutting(tv.take(k + 1)));
            }
        }
        k = k + 1;
    }
    proof {
        assert(tv.take(ts@.len() as int) =~= tv);
    }
    r
}

fn contains_u32(v: &[u32], x: u32) -> (r: bool)
    ensures
        r == v@.contains(x),
{
    let mut k: usize = 0;
    while k < v.len()
        invariant
            k <= v@.len(),
            forall|i: int| 0 <= i < k ==> v@[i] != x,
        decreases v@.len() - k,
    {
        if v[k] == x {
            assert(v@[k as int] == x);
            return true;
        }
        k = k + 1;
    }
    false
}

/// Walk one table from its first entry at `e0`.
fn walk_table(header: &DolHeader, buf: &[u8], t: &WalkTable, abut: &[u32], e0: u32, o: &mut Vec<Ptr>) -> (r: Result<(), DumpError>)
    requires
        header.wf(),
        header.fits(),
        buf@.len() <= u32::MAX,
    ensures
        match walk_from(header.sections@, buf@, walk_view(*t), abut@, e0 as int, old(o)@.map_values(|x: Ptr| ptr_view(x))) {
            Err(e) => r is Err && r->Err_0 == e,
            Ok(res) => r is Ok && final(o)@.map_values(|x: Ptr| ptr_view(x)) == res,
        },
{
    let ghost h = header.sections@;
    let ghost tv = walk_view(*t);
    let ghost want = walk_from(h, buf@, tv, abut@, e0 as int, o@.map_values(|x: Ptr| ptr_view(x)));
    if t.fields.len() == 0 || t.stride == 0 {
        return Ok(());
    }
    let mut entry: u32 = e0;
    loop
        invariant
            header.wf(),
            header.fits(),
            buf@.len() <= u32::MAX,
            h == header.sections@,
            tv == walk_view(*t),
            tv.2.len() > 0 && tv.1 > 0,
            want == walk_from(header.sections@, buf@, walk_view(*t), abut@, e0 as int, old(o)@.map_values(|x: Ptr| ptr_view(x))),
            want == walk_from(h, buf@, tv, abut@, entry as int, o@.map_values(|x: Ptr| ptr_view(x))),
        decreases buf@.len() - entry,
    {
        if entry as usize >= buf.len() {
            return Err(DumpError::Read);
        }
        let ps = match fields_exec(header, buf, entry, t.fields) {
            Err(e) => {
                return Err(e);
            },
            Ok(None) => {
                return Ok(());
            },
            Ok(Some(ps)) => ps,
        };
        let qs = match optional_exec(header, buf, entry, t.optional) {
            Err(e) => {
                return Err(e);
            },
            Ok(qs) => qs,
        };
        let mut all = ps;
        let mut k: usize = 0;
        let ghost ps0 = all@;
        while k < qs.len()
            invariant
                k <= qs@.len(),
                all@ == ps0 + qs@.take(k as int),
            decreases qs@.len() - k,
        {
            all.push(qs[k]);
            proof {
                assert(all@ =~= ps0 + qs@.take(k + 1));
            }
            k = k + 1;
        }
        proof {
            assert(qs@.take(qs@.len() as int) =~= qs@);
        }
        put_all_exec(o, all.as_slice(), t.tag);
        let next: u64 = entry as u64 + t.stride as u64;
        if t.abuts && next <= u32::MAX as u64 {
            if let Some(ram) = header.ram_addr(next as u32) {
                if contains_u32(abut, ram) {
                    return Ok(());
                }
            }
        }
        if next >= buf.len() as u64 || next > u32::MAX as u64 {
            return Err(DumpError::Read);
        }
        entry = next as u32;
    }
}

/// Walk every table, in order.
fn walk_all(header: &DolHeader, buf: &[u8], ts: &[WalkTable]) -> (r: Result<Vec<Ptr>, DumpError>)
    requires
        header.wf(),
        header.fits(),
        buf@.len() <= u32::MAX,
    ensures
        match walk_tables_run(header.sections@, buf@, ts@.map_values(|t: WalkTable| walk_view(t)), ts@.len() as int) {
            Err(e) => r is Err && r->Err_0 == e,
            Ok(res) => r is Ok && r->Ok_0@.map_values(|x: Ptr| ptr_view(x)) == res,
        },
{
    let ghost tv = ts@.map_values(|t: WalkTable| walk_view(t));
    let abut = abutting_exec(ts);
    let mut o: Vec<Ptr> = Vec::new();
    proof {
        assert(o@.map_values(|x: Ptr| ptr_view(x)) =~= Seq::<PtrView>::empty());
    }
    let mut k: usize = 0;
    while k < ts.len()
        invariant
            header.wf(),
            header.fits(),
            buf@.len() <= u32::MAX,
            k <= ts@.len(),
            tv == ts@.map_values(|t: WalkTable| walk_view(t)),
            abut@ == abutting(tv),
            walk_tables_run(header.sections@, buf@, tv, k as int) == Ok::<Seq<PtrView>, DumpError>(o@.map_values(|x: Ptr| ptr_view(x))),
        decreases ts@.len() - k,
    {
        proof {
            assert(tv[k as int] == walk_view(ts@[k as int]));
        }
        if let Some(e0) = header.file_offset(ts[k].base) {
            match walk_table(header, buf, &ts[k], abut.as_slice(), e0, &mut o) {
                Ok(()) => {},
                Err(e) => {
                    proof {
                        lemma_walk_err(header.sections@, buf@, tv, k as int + 1, ts@.len() as int, e);
                    }
                    return Err(e);
                },
            }
        }
        k = k + 1;
    }
    Ok(o)
}

proof fn lemma_walk_err(h: Seq<Section>, buf: Seq<u8>, ts: Seq<WalkView>, i: int, n: int, e: DumpError)
    requires
        0 < i <= n,
        walk_tables_run(h, buf, ts, i) == Err::<Seq<PtrView>, DumpError>(e),
    ensures
        walk_tables_run(h, buf, ts, n) == Err::<Seq<PtrView>, DumpError>(e),
    decreases n - i,
{
    if i < n {
        lemma_walk_err(h, buf, ts, i + 1, n, e);
    }
}


/// What the explicit tables add: the pointer list, each string's cap, and
/// the entries skipped, with why.
pub type ExplicitState = (Seq<PtrView>, Map<u32, NameCap>, Seq<Seq<char>>);

pub open spec fn with_note_x(st: ExplicitState, line: Seq<char>) -> ExplicitState {
    (st.0, st.1, st.2.push(line))
}

/// Field `j` of entry `i` of table `t`. A NULL slot is normal; a slot that
/// is not a data pointer, or whose string does not read, is skipped with a
/// note; a word already claimed by a walked table keeps its claim.
pub open spec fn explicit_step(h: Seq<Section>, buf: Seq<u8>, glyphs: Map<u16, String>, t: TableShape, i: u32, j: int, st: ExplicitState) -> Result<ExplicitState, DumpError> {
    let ref_addr = (t.0 + i * t.1 + t.3[j]) as u32;
    let head = t.5 + ": entry "@ + decimal(i as nat);
    match find_file_offset(h, ref_addr, 0) {
        None => Ok(with_note_x(st, head + " at RAM 0x"@ + hex(ref_addr as nat, 1) + " is outside every section"@)),
        Some(ro) => match spec_u32_at(buf, ro as int) {
            None => Err(DumpError::Read),
            Some(ptr) => if ptr == 0 {
                Ok(st)
            } else {
                match find_file_offset(h, ptr, 0) {
                    Some(o) => if o >= h[DATA0 as int].file {
                        match dx_from(buf, o as int, 0, glyphs) {
                            Err(e) => Ok(with_note_x(st, head + " points at 0x"@ + hex(o as nat, 1) + " which does not read as text ("@
                                + dump_error_text(e) + "); skipping"@)),
                            Ok(_) => Ok((ptr_add(st.0, (ro, o, t.5)), st.1.insert(o, t.4), st.2)),
                        }
                    } else {
                        Ok(with_note_x(st, head + " at RAM 0x"@ + hex(ref_addr as nat, 1) + " holds 0x"@ + hex(ptr as nat, 1)
                            + ", not a data pointer; skipping"@))
                    },
                    None => Ok(with_note_x(st, head + " at RAM 0x"@ + hex(ref_addr as nat, 1) + " holds 0x"@ + hex(ptr as nat, 1)
                        + ", not a data pointer; skipping"@)),
                }
            },
        },
    }
}

/// The first `n` fields of entry `i`.
pub open spec fn explicit_fields(h: Seq<Section>, buf: Seq<u8>, glyphs: Map<u16, String>, t: TableShape, i: u32, n: int, st: ExplicitState) -> Result<ExplicitState, DumpError>
    decreases n,
{
    if n <= 0 {
        Ok(st)
    } else {
        match explicit_fields(h, buf, glyphs, t, i, n - 1, st) {
            Err(e) => Err(e),
            Ok(s2) => explicit_step(h, buf, glyphs, t, i, n - 1, s2),
        }
    }
}

/// The first `m` entries of table `t`.
pub open spec fn explicit_entries(h: Seq<Section>, buf: Seq<u8>, glyphs: Map<u16, String>, t: TableShape, m: int, st: ExplicitState) -> Result<ExplicitState, DumpError>
    decreases m,
{
    if m <= 0 {
        Ok(st)
    } else {
        match explicit_entries(h, buf, glyphs, t, m - 1, st) {
            Err(e) => Err(e),
            Ok(s2) => explicit_fields(h, buf, glyphs, t, (m - 1) as u32, t.3.len() as int, s2),
        }
    }
}

/// The first `k` explicit tables.
pub open spec fn explicit_run(h: Seq<Section>, buf: Seq<u8>, glyphs: Map<u16, String>, ts: Seq<TableShape>, k: int, st: ExplicitState) -> Result<ExplicitState, DumpError>
    decreases k,
{
    if k <= 0 {
        Ok(st)
    } else {
        match explicit_run(h, buf, glyphs, ts, k - 1, st) {
            Err(e) => Err(e),
            Ok(s2) => explicit_entries(h, buf, glyphs, ts[k - 1], ts[k - 1].2 as int, s2),
        }
    }
}

/// The exec form of the state.
pub struct Explicit {
    pub ptrs: Vec<Ptr>,
    pub caps: HashMap<u32, NameCap>,
    pub notes: Vec<String>,
}

impl Explicit {
    pub open spec fn view(&self) -> ExplicitState {
        (self.ptrs@.map_values(|x: Ptr| ptr_view(x)), self.caps@, self.notes@.map_values(|s: String| s@))
    }
}

fn push_entry_head(o: &mut Vec<char>, tag: &str, i: u32)
    ensures
        final(o)@ == old(o)@ + tag@ + ": entry "@ + decimal(i as nat),
{
    push_str(o, tag);
    push_str(o, ": entry ");
    push_dec(o, i as u64);
    assert(final(o)@ =~= old(o)@ + tag@ + ": entry "@ + decimal(i as nat)) by {
        assert(o@ =~= old(o)@ + tag@ + ": entry "@ + decimal(i as nat));
    }
}

fn add_note(x: &mut Explicit, o: Vec<char>)
    ensures
        final(x).view() == with_note_x(old(x).view(), o@),
        final(x).ptrs@ == old(x).ptrs@,
        final(x).caps@ == old(x).caps@,
{
    let line = string_of(o.as_slice());
    let ghost before = x.notes@;
    x.notes.push(line);
    proof {
        assert(x.notes@.map_values(|s: String| s@) =~= before.map_values(|s: String| s@).push(o@));
    }
}

fn explicit_step_exec(header: &DolHeader, buf: &[u8], glyphs: &HashMap<u16, String>, t: &TextTable, i: u32, j: usize, x: &mut Explicit) -> (r: Result<(), DumpError>)
    requires
        header.wf(),
        header.fits(),
        buf@.len() <= u32::MAX,
        j < t.fields@.len(),
    ensures
        match explicit_step(header.sections@, buf@, glyphs@, shape(*t), i, j as int, old(x).view()) {
            Err(e) => r is Err && r->Err_0 == e,
            Ok(s) => r is Ok && final(x).view() == s,
        },
{
    broadcast use vstd::std_specs::hash::group_hash_axioms;
    let ghost tv = shape(*t);
    assert((i as int) * (t.stride as int) <= 0xffff_fffe_0000_0001) by (nonlinear_arith)
        requires
            i <= 0xffff_ffffu32,
            t.stride <= 0xffff_ffffu32,
    {
        assert((i as int) * (t.stride as int) <= 0xffff_ffffint * (t.stride as int));
        assert(0xffff_ffffint * (t.stride as int) <= 0xffff_ffffint * 0xffff_ffffint);
    }
    let prod: u64 = i as u64 * t.stride as u64;
    let sum: u64 = t.base as u64 + prod + t.fields[j] as u64;
    let ref_addr = #[verifier::truncate] (sum as u32);
    assert(ref_addr == (tv.0 + i * tv.1 + tv.3[j as int]) as u32);
    let mut o: Vec<char> = Vec::new();
    push_entry_head(&mut o, t.tag, i);
    let ro = match header.file_offset(ref_addr) {
        None => {
            push_str(&mut o, " at RAM 0x");
            push_hex(&mut o, ref_addr as u64, 1);
            push_str(&mut o, " is outside every section");
            add_note(x, o);
            return Ok(());
        },
        Some(ro) => ro,
    };
    if ro as usize > buf.len() || 4 > buf.len() - ro as usize {
        return Err(DumpError::Read);
    }
    let ptr = match u32at(buf, ro as usize) {
        Some(p) => p,
        None => {
            return Err(DumpError::Read);
        },
    };
    if ptr == 0 {
        return Ok(());
    }
    let text = match header.file_offset(ptr) {
        Some(off) => if off >= header.data_start() {
            Some(off)
        } else {
            None
        },
        None => None,
    };
    match text {
        None => {
            push_str(&mut o, " at RAM 0x");
            push_hex(&mut o, ref_addr as u64, 1);
            push_str(&mut o, " holds 0x");
            push_hex(&mut o, ptr as u64, 1);
            push_str(&mut o, ", not a data pointer; skipping");
            add_note(x, o);
            Ok(())
        },
        Some(off) => {
            match dx_str_at_offset(buf, off, glyphs) {
                Err(e) => {
                    push_str(&mut o, " points at 0x");
                    push_hex(&mut o, off as u64, 1);
                    push_str(&mut o, " which does not read as text (");
                    let m = e.message();
                    push_str(&mut o, m.as_str());
                    push_str(&mut o, "); skipping");
                    add_note(x, o);
                    Ok(())
                },
                Ok(_) => {
                    ptr_insert(&mut x.ptrs, Ptr { at: ro, text: off, tag: t.tag }, false);
                    x.caps.insert(off, t.cap);
                    Ok(())
                },
            }
        },
    }
}

fn explicit_all(header: &DolHeader, buf: &[u8], glyphs: &HashMap<u16, String>, ts: &[TextTable], x: &mut Explicit) -> (r: Result<(), DumpError>)
    requires
        header.wf(),
        header.fits(),
        buf@.len() <= u32::MAX,
    ensures
        match explicit_run(header.sections@, buf@, glyphs@, ts@.map_values(|t: TextTable| shape(t)), ts@.len() as int, old(x).view()) {
            Err(e) => r is Err && r->Err_0 == e,
            Ok(s) => r is Ok && final(x).view() == s,
        },
{
    let ghost h = header.sections@;
    let ghost tv = ts@.map_values(|t: TextTable| shape(t));
    let ghost s0 = x.view();
    let mut k: usize = 0;
    while k < ts.len()
        invariant
            header.wf(),
            header.fits(),
            buf@.len() <= u32::MAX,
            h == header.sections@,
            tv == ts@.map_values(|t: TextTable| shape(t)),
            s0 == old(x).view(),
            k <= ts@.len(),
            explicit_run(h, buf@, glyphs@, tv, k as int, s0) == Ok::<ExplicitState, DumpError>(x.view()),
        decreases ts@.len() - k,
    {
        let t = &ts[k];
        proof {
            assert(tv[k as int] == shape(*t));
        }
        let ghost sk = x.view();
        let mut i: u32 = 0;
        while i < t.count
            invariant
                header.wf(),
                header.fits(),
                buf@.len() <= u32::MAX,
                h == header.sections@,
                tv == ts@.map_values(|t: TextTable| shape(t)),
                s0 == old(x).view(),
                k < ts@.len(),
                tv[k as int] == shape(*t),
                explicit_run(h, buf@, glyphs@, tv, k as int, s0) == Ok::<ExplicitState, DumpError>(sk),
                i <= t.count,
                explicit_entries(h, buf@, glyphs@, shape(*t), i as int, sk) == Ok::<ExplicitState, DumpError>(x.view()),
            decreases t.count - i,
        {
            let ghost si = x.view();
            let mut j: usize = 0;
            while j < t.fields.len()
                invariant
                    header.wf(),
                    header.fits(),
                    buf@.len() <= u32::MAX,
                    h == header.sections@,
                    tv == ts@.map_values(|t: TextTable| shape(t)),
                    s0 == old(x).view(),
                    k < ts@.len(),
                    tv[k as int] == shape(*t),
                    explicit_run(h, buf@, glyphs@, tv, k as int, s0) == Ok::<ExplicitState, DumpError>(sk),
                    i < t.count,
                    explicit_entries(h, buf@, glyphs@, shape(*t), i as int, sk) == Ok::<ExplicitState, DumpError>(si),
                    j <= t.fields@.len(),
                    explicit_fields(h, buf@, glyphs@, shape(*t), i, j as int, si) == Ok::<ExplicitState, DumpError>(x.view()),
                decreases t.fields@.len() - j,
            {
                match explicit_step_exec(header, buf, glyphs, t, i, j, x) {
                    Ok(()) => {},
                    Err(e) => {
                        proof {
                            lemma_fields_err(h, buf@, glyphs@, shape(*t), i, j as int + 1, t.fields@.len() as int, si, e);
                            lemma_entries_err(h, buf@, glyphs@, shape(*t), i as int + 1, t.count as int, sk, e);
                            lemma_explicit_err(h, buf@, glyphs@, tv, k as int + 1, ts@.len() as int, s0, e);
                        }
                        return Err(e);
                    },
                }
                j = j + 1;
            }
            i = i + 1;
        }
        k = k + 1;
    }
    Ok(())
}

proof fn lemma_fields_err(h: Seq<Section>, buf: Seq<u8>, glyphs: Map<u16, String>, t: TableShape, i: u32, a: int, n: int, st: ExplicitState, e: DumpError)
    requires
        0 < a <= n,
        explicit_fields(h, buf, glyphs, t, i, a, st) == Err::<ExplicitState, DumpError>(e),
    ensures
        explicit_fields(h, buf, glyphs, t, i, n, st) == Err::<ExplicitState, DumpError>(e),
    decreases n - a,
{
    if a < n {
        lemma_fields_err(h, buf, glyphs, t, i, a + 1, n, st, e);
    }
}

proof fn lemma_entries_err(h: Seq<Section>, buf: Seq<u8>, glyphs: Map<u16, String>, t: TableShape, a: int, n: int, st: ExplicitState, e: DumpError)
    requires
        0 < a <= n,
        explicit_entries(h, buf, glyphs, t, a, st) == Err::<ExplicitState, DumpError>(e),
    ensures
        explicit_entries(h, buf, glyphs, t, n, st) == Err::<ExplicitState, DumpError>(e),
    decreases n - a,
{
    if a < n {
        lemma_entries_err(h, buf, glyphs, t, a + 1, n, st, e);
    }
}

proof fn lemma_explicit_err(h: Seq<Section>, buf: Seq<u8>, glyphs: Map<u16, String>, ts: Seq<TableShape>, a: int, n: int, st: ExplicitState, e: DumpError)
    requires
        0 < a <= n,
        explicit_run(h, buf, glyphs, ts, a, st) == Err::<ExplicitState, DumpError>(e),
    ensures
        explicit_run(h, buf, glyphs, ts, n, st) == Err::<ExplicitState, DumpError>(e),
    decreases n - a,
{
    if a < n {
        lemma_explicit_err(h, buf, glyphs, ts, a + 1, n, st, e);
    }
}


/// The glyph runs left out for one reason: the reason, and each run with
/// the instruction that addresses it.
pub type RunGroup = (Seq<char>, Seq<(u32, u32)>);

/// `item` added to the group for `why`, or a new group at the end.
pub open spec fn group_add(gs: Seq<RunGroup>, why: Seq<char>, item: (u32, u32)) -> Seq<RunGroup>
    decreases gs.len(),
{
    if gs.len() == 0 {
        seq![(why, seq![item])]
    } else if gs[0].0 == why {
        seq![(why, gs[0].1.push(item))] + gs.drop_first()
    } else {
        seq![gs[0]] + group_add(gs.drop_first(), why, item)
    }
}

/// The first `k` rejections grouped by reason, in address order.
pub open spec fn groups_run(rej: Seq<(u32, Rejection)>, k: int) -> Seq<RunGroup>
    decreases k,
{
    if k <= 0 {
        Seq::empty()
    } else {
        group_add(groups_run(rej, k - 1), reject_text(rej[k - 1].1.why), (rej[k - 1].0, rej[k - 1].1.at_ram))
    }
}

/// `a` sorts before `b` as strings do: by code point, a prefix first.
pub open spec fn text_lt(a: Seq<char>, b: Seq<char>) -> bool
    decreases a.len(),
{
    if a.len() == 0 {
        b.len() > 0
    } else if b.len() == 0 {
        false
    } else if a[0] != b[0] {
        a[0] < b[0]
    } else {
        text_lt(a.drop_first(), b.drop_first())
    }
}

/// More runs first, then by reason.
pub open spec fn group_before(a: RunGroup, b: RunGroup) -> bool {
    a.1.len() > b.1.len() || (a.1.len() == b.1.len() && text_lt(a.0, b.0))
}

/// `g` put before the first group it sorts before.
pub open spec fn group_insert(o: Seq<RunGroup>, g: RunGroup) -> Seq<RunGroup>
    decreases o.len(),
{
    if o.len() == 0 {
        seq![g]
    } else if group_before(g, o[0]) {
        seq![g] + o
    } else {
        seq![o[0]] + group_insert(o.drop_first(), g)
    }
}

/// The first `k` groups, sorted.
pub open spec fn sort_groups(gs: Seq<RunGroup>, k: int) -> Seq<RunGroup>
    decreases k,
{
    if k <= 0 {
        Seq::empty()
    } else {
        group_insert(sort_groups(gs, k - 1), gs[k - 1])
    }
}

/// The runs left out, grouped by reason: the largest group first, ties by
/// reason; each group in address order.
pub open spec fn by_reason(rej: Seq<(u32, Rejection)>) -> Seq<RunGroup> {
    let gs = groups_run(rej, rej.len() as int);
    sort_groups(gs, gs.len() as int)
}

pub struct RunGroupExec {
    pub why: Vec<char>,
    pub runs: Vec<(u32, u32)>,
}

pub open spec fn group_view(g: RunGroupExec) -> RunGroup {
    (g.why@, g.runs@)
}

fn chars_eq(a: &[char], b: &[char]) -> (r: bool)
    ensures
        r == (a@ == b@),
{
    if a.len() != b.len() {
        return false;
    }
    let mut i: usize = 0;
    while i < a.len()
        invariant
            a@.len() == b@.len(),
            i <= a@.len(),
            forall|k: int| 0 <= k < i ==> a@[k] == b@[k],
        decreases a@.len() - i,
    {
        if a[i] != b[i] {
            return false;
        }
        i = i + 1;
    }
    assert(a@ =~= b@);
    true
}

fn text_lt_exec(a: &[char], b: &[char]) -> (r: bool)
    ensures
        r == text_lt(a@, b@),
{
    let mut i: usize = 0;
    assert(a@.skip(0) =~= a@ && b@.skip(0) =~= b@);
    while i < a.len() && i < b.len() && a[i] == b[i]
        invariant
            i <= a@.len() && i <= b@.len(),
            text_lt(a@, b@) == text_lt(a@.skip(i as int), b@.skip(i as int)),
        decreases a@.len() - i,
    {
        proof {
            assert(a@.skip(i as int).drop_first() =~= a@.skip(i + 1));
            assert(b@.skip(i as int).drop_first() =~= b@.skip(i + 1));
        }
        i = i + 1;
    }
    if i == a.len() {
        i < b.len()
    } else if i == b.len() {
        false
    } else {
        proof {
            assert(a@.skip(i as int)[0] == a@[i as int] && b@.skip(i as int)[0] == b@[i as int]);
        }
        a[i] < b[i]
    }
}

proof fn lemma_group_add_prefix(gs: Seq<RunGroup>, why: Seq<char>, item: (u32, u32), i: int)
    requires
        0 <= i <= gs.len(),
        forall|k: int| 0 <= k < i ==> (#[trigger] gs[k]).0 != why,
    ensures
        group_add(gs, why, item) == gs.take(i) + group_add(gs.skip(i), why, item),
    decreases i,
{
    if i == 0 {
        assert(gs.skip(0) =~= gs);
        assert(gs.take(0) + group_add(gs, why, item) =~= group_add(gs, why, item));
    } else {
        let t = gs.drop_first();
        assert forall|k: int| 0 <= k < i - 1 implies (#[trigger] t[k]).0 != why by {
            assert(t[k] == gs[k + 1]);
        }
        assert(gs[0].0 != why);
        lemma_group_add_prefix(t, why, item, i - 1);
        assert(t.skip(i - 1) =~= gs.skip(i));
        assert(seq![gs[0]] + (t.take(i - 1) + group_add(t.skip(i - 1), why, item)) =~= gs.take(i) + group_add(gs.skip(i), why, item));
    }
}

proof fn lemma_group_insert_prefix(o: Seq<RunGroup>, g: RunGroup, i: int)
    requires
        0 <= i <= o.len(),
        forall|k: int| 0 <= k < i ==> !group_before(g, #[trigger] o[k]),
    ensures
        group_insert(o, g) == o.take(i) + group_insert(o.skip(i), g),
    decreases i,
{
    if i == 0 {
        assert(o.skip(0) =~= o);
        assert(o.take(0) + group_insert(o, g) =~= group_insert(o, g));
    } else {
        let t = o.drop_first();
        assert forall|k: int| 0 <= k < i - 1 implies !group_before(g, #[trigger] t[k]) by {
            assert(t[k] == o[k + 1]);
        }
        assert(!group_before(g, o[0]));
        lemma_group_insert_prefix(t, g, i - 1);
        assert(t.skip(i - 1) =~= o.skip(i));
        assert(seq![o[0]] + (t.take(i - 1) + group_insert(t.skip(i - 1), g)) =~= o.take(i) + group_insert(o.skip(i), g));
    }
}

fn group_add_exec(gs: &mut Vec<RunGroupExec>, why: Vec<char>, item: (u32, u32))
    ensures
        final(gs)@.map_values(|g: RunGroupExec| group_view(g)) == group_add(old(gs)@.map_values(|g: RunGroupExec| group_view(g)), why@, item),
{
    let ghost gv = gs@.map_values(|g: RunGroupExec| group_view(g));
    let mut i: usize = 0;
    let mut found = false;
    while !found && i < gs.len()
        invariant
            gv == gs@.map_values(|g: RunGroupExec| group_view(g)),
            i <= gs@.len(),
            forall|k: int| 0 <= k < i ==> (#[trigger] gv[k]).0 != why@,
            found ==> i < gs@.len() && gv[i as int].0 == why@,
        decreases gs@.len() - i + (if found { 0int } else { 1int }),
    {
        if chars_eq(gs[i].why.as_slice(), why.as_slice()) {
            found = true;
        } else {
            i = i + 1;
        }
    }
    proof {
        lemma_group_add_prefix(gv, why@, item, i as int);
    }
    if found {
        let mut g = gs.remove(i);
        g.runs.push(item);
        let ghost gview = group_view(g);
        gs.insert(i, g);
        proof {
            assert(gv.skip(i as int)[0] == gv[i as int]);
            assert(gview == (why@, gv[i as int].1.push(item)));
            assert(gv.skip(i as int).drop_first() =~= gv.skip(i + 1));
            assert(gs@.map_values(|g: RunGroupExec| group_view(g)) =~= gv.take(i as int) + (seq![gview] + gv.skip(i + 1)));
        }
    } else {
        proof {
            assert(gv.skip(i as int) =~= Seq::<RunGroup>::empty());
        }
        let mut runs: Vec<(u32, u32)> = Vec::new();
        runs.push(item);
        let g = RunGroupExec { why, runs };
        let ghost gview = group_view(g);
        gs.push(g);
        proof {
            assert(gview.1 =~= seq![item]);
            assert(gs@.map_values(|g: RunGroupExec| group_view(g)) =~= gv.take(i as int) + seq![gview]);
        }
    }
}

fn group_insert_exec(o: &mut Vec<RunGroupExec>, g: RunGroupExec)
    ensures
        final(o)@.map_values(|x: RunGroupExec| group_view(x)) == group_insert(old(o)@.map_values(|x: RunGroupExec| group_view(x)), group_view(g)),
{
    let ghost ov = o@.map_values(|x: RunGroupExec| group_view(x));
    let ghost gv = group_view(g);
    let mut i: usize = 0;
    let mut stop = false;
    while !stop && i < o.len()
        invariant
            ov == o@.map_values(|x: RunGroupExec| group_view(x)),
            gv == group_view(g),
            i <= o@.len(),
            forall|k: int| 0 <= k < i ==> !group_before(gv, #[trigger] ov[k]),
            stop ==> i < o@.len() && group_before(gv, ov[i as int]),
        decreases o@.len() - i + (if stop { 0int } else { 1int }),
    {
        let before = g.runs.len() > o[i].runs.len() || (g.runs.len() == o[i].runs.len() && text_lt_exec(g.why.as_slice(), o[i].why.as_slice()));
        if before {
            stop = true;
        } else {
            i = i + 1;
        }
    }
    proof {
        lemma_group_insert_prefix(ov, gv, i as int);
    }
    if stop {
        o.insert(i, g);
        proof {
            assert(ov.skip(i as int)[0] == ov[i as int]);
            assert(o@.map_values(|x: RunGroupExec| group_view(x)) =~= ov.take(i as int) + (seq![gv] + ov.skip(i as int)));
        }
    } else {
        proof {
            assert(ov.skip(i as int) =~= Seq::<RunGroup>::empty());
        }
        o.push(g);
        proof {
            assert(o@.map_values(|x: RunGroupExec| group_view(x)) =~= ov.take(i as int) + seq![gv]);
        }
    }
}

/// The runs left out, grouped by reason, largest group first.
pub fn rejected_by_reason(rejected: &crate::sorted_map::SortedMap<Rejection>) -> (out: Vec<RunGroupExec>)
    requires
        rejected.wf(),
    ensures
        out@.map_values(|g: RunGroupExec| group_view(g)) == by_reason(rejected.entries()),
{
    let ghost rej = rejected.entries();
    let mut gs: Vec<RunGroupExec> = Vec::new();
    proof {
        assert(gs@.map_values(|g: RunGroupExec| group_view(g)) =~= Seq::<RunGroup>::empty());
    }
    let mut k: usize = 0;
    while k < rejected.len()
        invariant
            rej == rejected.entries(),
            k <= rej.len(),
            gs@.map_values(|g: RunGroupExec| group_view(g)) == groups_run(rej, k as int),
        decreases rej.len() - k,
    {
        let e = rejected.at(k);
        let why = e.1.why.text();
        let w = chars_of(why.as_str());
        group_add_exec(&mut gs, w, (e.0, e.1.at_ram));
        k = k + 1;
    }
    let ghost all = gs@.map_values(|g: RunGroupExec| group_view(g));
    let mut out: Vec<RunGroupExec> = Vec::new();
    proof {
        assert(out@.map_values(|g: RunGroupExec| group_view(g)) =~= Seq::<RunGroup>::empty());
    }
    let n = gs.len();
    let mut front = gs;
    let mut rev: Vec<RunGroupExec> = Vec::new();
    while front.len() > 0
        invariant
            n == all.len(),
            front@.map_values(|g: RunGroupExec| group_view(g)) == all.take(n - rev@.len()),
            rev@.len() <= n,
            forall|k: int| 0 <= k < rev@.len() ==> #[trigger] group_view(rev@[k]) == all[n - 1 - k],
        decreases front@.len(),
    {
        let ghost fv = front@.map_values(|g: RunGroupExec| group_view(g));
        let g = front.pop().unwrap();
        proof {
            assert(group_view(g) == fv.last());
            assert(front@.map_values(|g: RunGroupExec| group_view(g)) =~= fv.drop_last());
            assert(all.take(n - rev@.len() - 1) =~= fv.drop_last());
        }
        rev.push(g);
    }
    let mut j: usize = 0;
    while j < n
        invariant
            n == all.len(),
            j <= n,
            rev@.len() == n - j,
            forall|k: int| 0 <= k < n - j ==> #[trigger] group_view(rev@[k]) == all[n - 1 - k],
            out@.map_values(|g: RunGroupExec| group_view(g)) == sort_groups(all, j as int),
        decreases n - j,
    {
        let g = rev.pop().unwrap();
        proof {
            assert(group_view(g) == all[j as int]);
        }
        group_insert_exec(&mut out, g);
        j = j + 1;
    }
    out
}


/// A line: the text and a newline.
pub open spec fn ln(s: Seq<char>) -> Seq<char> {
    s.push('\n')
}

pub open spec fn kind_name(k: ImmKind) -> Seq<char> {
    match k {
        ImmKind::Addi => "addi"@,
        ImmKind::Ori => "ori"@,
    }
}

/// The reference comments of the first `k` pointers that point at `t`.
pub open spec fn ptr_lines(h: Seq<Section>, ptrs: Seq<PtrView>, t: u32, k: int) -> Result<Seq<char>, DumpError>
    decreases k,
{
    if k <= 0 {
        Ok(Seq::empty())
    } else {
        match ptr_lines(h, ptrs, t, k - 1) {
            Err(e) => Err(e),
            Ok(acc) => {
                let p = ptrs[k - 1];
                if p.1 != t {
                    Ok(acc)
                } else {
                    match find_ram_addr(h, p.0, 0) {
                        None => Err(DumpError::Unmapped { at: p.0 }),
                        Some(ram) => Ok(acc + ln("# reference at main.dol:0x"@ + hex(p.0 as nat, 1) + " (RAM 0x"@ + hex(ram as nat, 1) + ") ["@
                            + p.2 + "]"@)),
                    }
                }
            },
        }
    }
}

/// The reference comment of an immediate pair.
pub open spec fn imm_line(r: ImmRef) -> Seq<char> {
    ln("# reference at main.dol:0x"@ + hex(r.lo_off as nat, 1) + " (RAM 0x"@ + hex(r.lo_ram as nat, 1) + ") ["@ + kind_name(r.kind)
        + " paired with the lis at RAM 0x"@ + hex(r.hi_ram as nat, 1) + "]"@)
}

pub open spec fn imm_lines(rs: Seq<ImmRef>) -> Seq<char>
    decreases rs.len(),
{
    if rs.len() == 0 {
        Seq::empty()
    } else {
        imm_lines(rs.drop_last()) + imm_line(rs.last())
    }
}

/// The cap comment of a stubbed name.
pub open spec fn limit_line(caps: Map<u32, NameCap>, t: u32) -> Seq<char> {
    if caps.contains_key(t) && caps[t] == NameCap::Stub {
        ln("# LIMIT 16 glyphs - a fixed-size memcpy copies a redirect stub, not these glyphs"@)
    } else {
        Seq::empty()
    }
}

/// One string's entry: its references, its cap, and the string.
pub open spec fn string_block(
    h: Seq<Section>,
    buf: Seq<u8>,
    glyphs: Map<u16, String>,
    ptrs: Seq<PtrView>,
    refs: Seq<(u32, ImmRef)>,
    rejected: Map<u32, Rejection>,
    caps: Map<u32, NameCap>,
    t: u32,
) -> Result<Seq<char>, DumpError> {
    match dx_from(buf, t as int, 0, glyphs) {
        Err(e) => Err(e),
        Ok(text) => match ptr_lines(h, ptrs, t, ptrs.len() as int) {
            Err(e) => Err(e),
            Ok(pl) => Ok(pl + imm_lines(usable_for(refs, rejected, t)) + limit_line(caps, t) + ln("0x"@ + hex(t as nat, 1) + " "@ + text)),
        },
    }
}

/// The entries of the first `k` strings.
pub open spec fn blocks(
    h: Seq<Section>,
    buf: Seq<u8>,
    glyphs: Map<u16, String>,
    ptrs: Seq<PtrView>,
    refs: Seq<(u32, ImmRef)>,
    rejected: Map<u32, Rejection>,
    caps: Map<u32, NameCap>,
    ts: Seq<u32>,
    k: int,
) -> Result<Seq<char>, DumpError>
    decreases k,
{
    if k <= 0 {
        Ok(Seq::empty())
    } else {
        match blocks(h, buf, glyphs, ptrs, refs, rejected, caps, ts, k - 1) {
            Err(e) => Err(e),
            Ok(acc) => match string_block(h, buf, glyphs, ptrs, refs, rejected, caps, ts[k - 1]) {
                Err(e) => Err(e),
                Ok(b) => Ok(acc + b),
            },
        }
    }
}

/// An inline record run as plain values: (base, stride, count, glyphs,
/// stub, tag).
pub type InlineView = (u32, u32, u32, u32, bool, Seq<char>);

pub open spec fn inline_view(f: InlineField) -> InlineView {
    (f.base, f.stride, f.count, f.glyphs, f.stub, f.tag@)
}

/// The first `g` glyphs of the record at `off`.
pub open spec fn record_text(buf: Seq<u8>, glyphs: Map<u16, String>, off: u32, g: int) -> Result<Seq<char>, DumpError>
    decreases g,
{
    if g <= 0 {
        Ok(Seq::empty())
    } else {
        match record_text(buf, glyphs, off, g - 1) {
            Err(e) => Err(e),
            Ok(acc) => match spec_u16_at(buf, off + 2 * (g - 1)) {
                None => Err(DumpError::Read),
                Some(c) => Ok(acc + dol_glyph_text(glyphs, c)),
            },
        }
    }
}

/// Record `i` of run `f`: its entry, or a note that no section loads it.
pub open spec fn inline_record(h: Seq<Section>, buf: Seq<u8>, glyphs: Map<u16, String>, f: InlineView, i: u32, st: (Seq<char>, Seq<Seq<char>>)) -> Result<(Seq<char>, Seq<Seq<char>>), DumpError> {
    let ram = (f.0 + i * f.1) as u32;
    match find_file_offset(h, ram, 0) {
        None => Ok((st.0, st.1.push(f.5 + ": record "@ + decimal(i as nat) + " at RAM 0x"@ + hex(ram as nat, 1) + " is outside every section"@))),
        Some(off) => match record_text(buf, glyphs, off, f.3 as int) {
            Err(e) => Err(e),
            Ok(text) => Ok((
                st.0 + ln("# inline "@ + f.5 + " record "@ + decimal(i as nat) + " at main.dol:0x"@ + hex(off as nat, 1) + " (RAM 0x"@
                    + hex(ram as nat, 1) + ")"@) + (if f.4 {
                    ln("# LIMIT 16 glyphs - the record is overwritten with a redirect stub, not with these glyphs"@)
                } else {
                    ln("# LIMIT "@ + decimal(f.3 as nat) + " glyphs - fixed-width record with no terminator"@)
                }) + ln("0x"@ + hex(off as nat, 1) + " "@ + text + "\n"@),
                st.1,
            )),
        },
    }
}

/// The first `m` records of run `f`.
pub open spec fn inline_records(h: Seq<Section>, buf: Seq<u8>, glyphs: Map<u16, String>, f: InlineView, m: int, st: (Seq<char>, Seq<Seq<char>>)) -> Result<(Seq<char>, Seq<Seq<char>>), DumpError>
    decreases m,
{
    if m <= 0 {
        Ok(st)
    } else {
        match inline_records(h, buf, glyphs, f, m - 1, st) {
            Err(e) => Err(e),
            Ok(s2) => inline_record(h, buf, glyphs, f, (m - 1) as u32, s2),
        }
    }
}

/// The first `k` runs.
pub open spec fn inline_run(h: Seq<Section>, buf: Seq<u8>, glyphs: Map<u16, String>, fs: Seq<InlineView>, k: int, st: (Seq<char>, Seq<Seq<char>>)) -> Result<(Seq<char>, Seq<Seq<char>>), DumpError>
    decreases k,
{
    if k <= 0 {
        Ok(st)
    } else {
        match inline_run(h, buf, glyphs, fs, k - 1, st) {
            Err(e) => Err(e),
            Ok(s2) => inline_records(h, buf, glyphs, fs[k - 1], fs[k - 1].2 as int, s2),
        }
    }
}

/// `run@instruction`, both as eight uppercase hex digits.
pub open spec fn run_text(r: (u32, u32)) -> Seq<char> {
    "0x"@ + hex_upper(r.0 as nat, 8) + "@0x"@ + hex_upper(r.1 as nat, 8)
}

pub open spec fn run_join(rs: Seq<(u32, u32)>) -> Seq<char>
    decreases rs.len(),
{
    if rs.len() == 0 {
        Seq::empty()
    } else if rs.len() == 1 {
        run_text(rs[0])
    } else {
        run_join(rs.drop_last()) + " "@ + run_text(rs.last())
    }
}

/// The runs, four to a line.
pub open spec fn chunk_lines(rs: Seq<(u32, u32)>) -> Seq<char>
    decreases rs.len(),
{
    if rs.len() == 0 {
        Seq::empty()
    } else if rs.len() <= 4 {
        ln("#   "@ + run_join(rs))
    } else {
        ln("#   "@ + run_join(rs.take(4))) + chunk_lines(rs.skip(4))
    }
}

pub open spec fn group_text(g: RunGroup) -> Seq<char> {
    ln("# "@ + decimal(g.1.len()) + " glyph run(s) addressed by code we will not rewrite, written below as run@instruction: "@ + g.0 + "."@)
        + chunk_lines(g.1)
}

pub open spec fn groups_text(gs: Seq<RunGroup>) -> Seq<char>
    decreases gs.len(),
{
    if gs.len() == 0 {
        Seq::empty()
    } else {
        groups_text(gs.drop_last()) + group_text(gs.last())
    }
}

/// The bottom of the file: what was not extracted, and why.
pub open spec fn footer(notes: Seq<Seq<char>>, gs: Seq<RunGroup>) -> Seq<char> {
    ln("# NOT extracted, and why:"@) + ln("# 0x"@ + hex_upper(EXCLUDED_TEXT as nat, 8) + " - "@ + notes[0]) + ln("#   "@ + notes[1])
        + groups_text(gs)
}

/// The top of the file.
pub open spec fn dump_head(strings: nat, references: nat) -> Seq<char> {
    ln("# main.dol: "@ + decimal(strings) + " strings, "@ + decimal(references)
        + " references. Translate by repeating the 0xOFFSET line with English."@) + ln(
        "# every string is relocated into a section appended to the DOL, so a translation may grow freely except where a LIMIT line says otherwise."@,
    ) + ln("# text left in Japanese is listed at the bottom of this file."@) + ln(Seq::empty())
}

/// `s` right-aligned in four columns.
pub open spec fn pad4(s: Seq<char>) -> Seq<char> {
    if s.len() < 4 {
        Seq::new((4 - s.len()) as nat, |i: int| ' ') + s
    } else {
        s
    }
}

/// The targets of the pairs whose target survived every rejection, in
/// low-half order.
pub open spec fn usable_targets(refs: Seq<(u32, ImmRef)>, rejected: Map<u32, Rejection>) -> Seq<u32> {
    refs.map_values(|e: (u32, ImmRef)| e.1).filter(|r: ImmRef| !rejected.contains_key(r.target_ram)).map_values(|r: ImmRef| r.target_off)
}

/// The summary of the instruction scan, for the console.
pub open spec fn report_notes(strings: nat, pairs: nat, left: nat, gs: Seq<RunGroup>) -> Seq<Seq<char>> {
    seq![
        "instruction-stream text: "@ + decimal(strings) + " strings from "@ + decimal(pairs) + " immediate pairs, "@ + decimal(left)
            + " addressed runs left out"@,
    ] + gs.map_values(|g: RunGroup| "  "@ + pad4(decimal(g.1.len())) + " left out: "@ + g.0)
}


fn push_ln(out: &mut Vec<char>)
    ensures
        final(out)@ == old(out)@.push('\n'),
{
    out.push('\n');
}

fn push_hex1(out: &mut Vec<char>, v: u32)
    ensures
        final(out)@ == old(out)@ + hex(v as nat, 1),
{
    push_hex(out, v as u64, 1);
}

fn push_hex8_upper(out: &mut Vec<char>, v: u32)
    ensures
        final(out)@ == old(out)@ + hex_upper(v as nat, 8),
{
    let c = crate::text::hex_chars(v as u64, 8, true);
    append_chars(out, c.as_slice());
}

fn ptr_lines_exec(header: &DolHeader, ptrs: &[Ptr], t: u32, out: &mut Vec<char>) -> (r: Result<(), DumpError>)
    requires
        header.fits(),
    ensures
        match ptr_lines(header.sections@, ptrs@.map_values(|x: Ptr| ptr_view(x)), t, ptrs@.len() as int) {
            Err(e) => r is Err && r->Err_0 == e,
            Ok(pl) => r is Ok && final(out)@ == old(out)@ + pl,
        },
{
    let ghost pv = ptrs@.map_values(|x: Ptr| ptr_view(x));
    let ghost start = out@;
    proof {
        assert(out@.skip(start.len() as int) =~= Seq::<char>::empty());
        assert(out@.take(start.len() as int) =~= start);
    }
    let mut k: usize = 0;
    while k < ptrs.len()
        invariant
            header.fits(),
            pv == ptrs@.map_values(|x: Ptr| ptr_view(x)),
            k <= ptrs@.len(),
            ptr_lines(header.sections@, pv, t, k as int) == Ok::<Seq<char>, DumpError>(out@.skip(start.len() as int)),
            out@.len() >= start.len(),
            out@.take(start.len() as int) == start,
            start == old(out)@,
        decreases ptrs@.len() - k,
    {
        let p = ptrs[k];
        proof {
            assert(pv[k as int] == ptr_view(p));
        }
        if p.text == t {
            match header.ram_addr(p.at) {
                None => {
                    proof {
                        lemma_ptr_lines_err(header.sections@, pv, t, k as int + 1, ptrs@.len() as int, DumpError::Unmapped { at: p.at });
                    }
                    return Err(DumpError::Unmapped { at: p.at });
                },
                Some(ram) => {
                    let ghost before = out@;
                    push_str(out, "# reference at main.dol:0x");
                    push_hex1(out, p.at);
                    push_str(out, " (RAM 0x");
                    push_hex1(out, ram);
                    push_str(out, ") [");
                    push_str(out, p.tag);
                    push_str(out, "]");
                    push_ln(out);
                    proof {
                        let line = ln("# reference at main.dol:0x"@ + hex(p.at as nat, 1) + " (RAM 0x"@ + hex(ram as nat, 1) + ") ["@ + p.tag@ + "]"@);
                        assert(out@ =~= before + line);
                        assert(out@.skip(start.len() as int) =~= before.skip(start.len() as int) + line);
                        assert(out@.take(start.len() as int) =~= before.take(start.len() as int));
                    }
                },
            }
        }
        k = k + 1;
    }
    proof {
        assert(out@ =~= start + out@.skip(start.len() as int));
    }
    Ok(())
}

proof fn lemma_ptr_lines_err(h: Seq<Section>, ptrs: Seq<PtrView>, t: u32, i: int, n: int, e: DumpError)
    requires
        0 < i <= n,
        ptr_lines(h, ptrs, t, i) == Err::<Seq<char>, DumpError>(e),
    ensures
        ptr_lines(h, ptrs, t, n) == Err::<Seq<char>, DumpError>(e),
    decreases n - i,
{
    if i < n {
        lemma_ptr_lines_err(h, ptrs, t, i + 1, n, e);
    }
}

fn imm_lines_exec(rs: &[ImmRef], out: &mut Vec<char>)
    ensures
        final(out)@ == old(out)@ + imm_lines(rs@),
{
    let ghost start = out@;
    let mut k: usize = 0;
    while k < rs.len()
        invariant
            k <= rs@.len(),
            out@ == start + imm_lines(rs@.take(k as int)),
        decreases rs@.len() - k,
    {
        let r = rs[k];
        let ghost before = out@;
        push_str(out, "# reference at main.dol:0x");
        push_hex1(out, r.lo_off);
        push_str(out, " (RAM 0x");
        push_hex1(out, r.lo_ram);
        push_str(out, ") [");
        push_str(out, r.kind.name());
        push_str(out, " paired with the lis at RAM 0x");
        push_hex1(out, r.hi_ram);
        push_str(out, "]");
        push_ln(out);
        proof {
            assert(rs@.take(k + 1).drop_last() =~= rs@.take(k as int));
            assert(out@ =~= before + imm_line(r));
        }
        k = k + 1;
    }
    proof {
        assert(rs@.take(rs@.len() as int) =~= rs@);
    }
}

#[verifier::spinoff_prover]
#[verifier::rlimit(40)]
fn string_block_exec(
    header: &DolHeader,
    buf: &[u8],
    glyphs: &HashMap<u16, String>,
    ptrs: &[Ptr],
    sc: &Scan,
    usable: &SortedMap<Vec<ImmRef>>,
    caps: &HashMap<u32, NameCap>,
    t: u32,
    out: &mut Vec<char>,
) -> (r: Result<(), DumpError>)
    requires
        header.fits(),
        buf@.len() <= u32::MAX,
        sc.refs.wf(),
        sc.rejected.wf(),
        usable.wf(),
        forall|x: u32| #[trigger] usable@.contains_key(x) <==> usable_for(sc.refs.entries(), sc.rejected@, x).len() > 0,
        forall|x: u32| #[trigger] usable@.contains_key(x) ==> usable@[x]@ == usable_for(sc.refs.entries(), sc.rejected@, x),
    ensures
        match string_block(header.sections@, buf@, glyphs@, ptrs@.map_values(|x: Ptr| ptr_view(x)), sc.refs.entries(), sc.rejected@, caps@, t) {
            Err(e) => r is Err && r->Err_0 == e,
            Ok(b) => r is Ok && final(out)@ == old(out)@ + b,
        },
{
    broadcast use vstd::std_specs::hash::group_hash_axioms;
    let text = match dx_str_at_offset(buf, t, glyphs) {
        Err(e) => {
            return Err(e);
        },
        Ok(s) => s,
    };
    let ghost o0 = out@;
    match ptr_lines_exec(header, ptrs, t, out) {
        Err(e) => {
            return Err(e);
        },
        Ok(()) => {},
    }
    let ghost o1 = out@;
    match usable.get(t) {
        Some(rs) => imm_lines_exec(rs.as_slice(), out),
        None => {
            proof {
                assert(usable_for(sc.refs.entries(), sc.rejected@, t) =~= Seq::<ImmRef>::empty());
            }
        },
    }
    let ghost o2 = out@;
    match caps.get(&t) {
        Some(c) => {
            if *c == NameCap::Stub {
                push_str(out, "# LIMIT 16 glyphs - a fixed-size memcpy copies a redirect stub, not these glyphs");
                push_ln(out);
            }
        },
        None => {},
    }
    let ghost o3 = out@;
    push_str(out, "0x");
    push_hex1(out, t);
    push_str(out, " ");
    push_str(out, text.as_str());
    push_ln(out);
    proof {
        assert(o3 =~= o2 + limit_line(caps@, t));
        assert(o2 =~= o1 + imm_lines(usable_for(sc.refs.entries(), sc.rejected@, t)));
        assert(out@ =~= o0 + (o1.skip(o0.len() as int) + imm_lines(usable_for(sc.refs.entries(), sc.rejected@, t)) + limit_line(caps@, t)
            + ln("0x"@ + hex(t as nat, 1) + " "@ + text@)));
    }
    Ok(())
}


proof fn lemma_blocks_err(
    h: Seq<Section>,
    buf: Seq<u8>,
    glyphs: Map<u16, String>,
    ptrs: Seq<PtrView>,
    refs: Seq<(u32, ImmRef)>,
    rejected: Map<u32, Rejection>,
    caps: Map<u32, NameCap>,
    ts: Seq<u32>,
    i: int,
    n: int,
    e: DumpError,
)
    requires
        0 < i <= n,
        blocks(h, buf, glyphs, ptrs, refs, rejected, caps, ts, i) == Err::<Seq<char>, DumpError>(e),
    ensures
        blocks(h, buf, glyphs, ptrs, refs, rejected, caps, ts, n) == Err::<Seq<char>, DumpError>(e),
    decreases n - i,
{
    if i < n {
        lemma_blocks_err(h, buf, glyphs, ptrs, refs, rejected, caps, ts, i + 1, n, e);
    }
}

fn blocks_exec(
    header: &DolHeader,
    buf: &[u8],
    glyphs: &HashMap<u16, String>,
    ptrs: &[Ptr],
    sc: &Scan,
    usable: &SortedMap<Vec<ImmRef>>,
    caps: &HashMap<u32, NameCap>,
    ts: &[u32],
    out: &mut Vec<char>,
) -> (r: Result<(), DumpError>)
    requires
        header.fits(),
        buf@.len() <= u32::MAX,
        sc.refs.wf(),
        sc.rejected.wf(),
        usable.wf(),
        forall|x: u32| #[trigger] usable@.contains_key(x) <==> usable_for(sc.refs.entries(), sc.rejected@, x).len() > 0,
        forall|x: u32| #[trigger] usable@.contains_key(x) ==> usable@[x]@ == usable_for(sc.refs.entries(), sc.rejected@, x),
    ensures
        match blocks(header.sections@, buf@, glyphs@, ptrs@.map_values(|x: Ptr| ptr_view(x)), sc.refs.entries(), sc.rejected@, caps@, ts@, ts@.len() as int) {
            Err(e) => r is Err && r->Err_0 == e,
            Ok(b) => r is Ok && final(out)@ == old(out)@ + b,
        },
{
    let ghost start = out@;
    let ghost pv = ptrs@.map_values(|x: Ptr| ptr_view(x));
    let mut k: usize = 0;
    proof {
        assert(out@ =~= start + Seq::<char>::empty());
    }
    while k < ts.len()
        invariant
            header.fits(),
            buf@.len() <= u32::MAX,
            sc.refs.wf(),
            sc.rejected.wf(),
            usable.wf(),
            forall|x: u32| #[trigger] usable@.contains_key(x) <==> usable_for(sc.refs.entries(), sc.rejected@, x).len() > 0,
            forall|x: u32| #[trigger] usable@.contains_key(x) ==> usable@[x]@ == usable_for(sc.refs.entries(), sc.rejected@, x),
            pv == ptrs@.map_values(|x: Ptr| ptr_view(x)),
            start == old(out)@,
            k <= ts@.len(),
            match blocks(header.sections@, buf@, glyphs@, pv, sc.refs.entries(), sc.rejected@, caps@, ts@, k as int) {
                Ok(b) => out@ == start + b,
                Err(_) => false,
            },
        decreases ts@.len() - k,
    {
        let ghost before = out@;
        match string_block_exec(header, buf, glyphs, ptrs, sc, usable, caps, ts[k], out) {
            Ok(()) => {
                proof {
                    let b = blocks(header.sections@, buf@, glyphs@, pv, sc.refs.entries(), sc.rejected@, caps@, ts@, k as int)->Ok_0;
                    let sb = string_block(header.sections@, buf@, glyphs@, pv, sc.refs.entries(), sc.rejected@, caps@, ts@[k as int])->Ok_0;
                    assert(out@ =~= start + (b + sb));
                }
            },
            Err(e) => {
                proof {
                    lemma_blocks_err(header.sections@, buf@, glyphs@, pv, sc.refs.entries(), sc.rejected@, caps@, ts@, k as int + 1, ts@.len() as int, e);
                }
                return Err(e);
            },
        }
        k = k + 1;
    }
    Ok(())
}

fn record_text_exec(buf: &[u8], glyphs: &HashMap<u16, String>, off: u32, g: u32, out: &mut Vec<char>) -> (r: Result<(), DumpError>)
    ensures
        match record_text(buf@, glyphs@, off, g as int) {
            Err(e) => r is Err && r->Err_0 == e,
            Ok(t) => r is Ok && final(out)@ == old(out)@ + t,
        },
{
    let ghost start = out@;
    let mut j: u32 = 0;
    proof {
        assert(out@ =~= start + Seq::<char>::empty());
    }
    while j < g
        invariant
            j <= g,
            start == old(out)@,
            match record_text(buf@, glyphs@, off, j as int) {
                Ok(t) => out@ == start + t,
                Err(_) => false,
            },
        decreases g - j,
    {
        let at: u64 = off as u64 + 2 * j as u64;
        if at > buf.len() as u64 || 2 > buf.len() as u64 - at {
            proof {
                assert(spec_u16_at(buf@, off + 2 * j) is None);
                lemma_record_err(buf@, glyphs@, off, j as int + 1, g as int, DumpError::Read);
            }
            return Err(DumpError::Read);
        }
        let c = match u16at(buf, at as usize) {
            Some(c) => c,
            None => {
                return Err(DumpError::Read);
            },
        };
        let ghost before = out@;
        push_glyph(out, glyphs, c);
        proof {
            let t = record_text(buf@, glyphs@, off, j as int)->Ok_0;
            assert(out@ =~= start + (t + dol_glyph_text(glyphs@, c)));
        }
        j = j + 1;
    }
    Ok(())
}

proof fn lemma_record_err(buf: Seq<u8>, glyphs: Map<u16, String>, off: u32, i: int, n: int, e: DumpError)
    requires
        0 < i <= n,
        record_text(buf, glyphs, off, i) == Err::<Seq<char>, DumpError>(e),
    ensures
        record_text(buf, glyphs, off, n) == Err::<Seq<char>, DumpError>(e),
    decreases n - i,
{
    if i < n {
        lemma_record_err(buf, glyphs, off, i + 1, n, e);
    }
}

fn inline_record_exec(header: &DolHeader, buf: &[u8], glyphs: &HashMap<u16, String>, f: &InlineField, i: u32, out: &mut Vec<char>, notes: &mut Vec<String>) -> (r: Result<(), DumpError>)
    requires
        header.fits(),
        f.wf(),
        i < f.count,
    ensures
        match inline_record(header.sections@, buf@, glyphs@, inline_view(*f), i, (old(out)@, old(notes)@.map_values(|s: String| s@))) {
            Err(e) => r is Err && r->Err_0 == e,
            Ok(st) => r is Ok && final(out)@ == st.0 && final(notes)@.map_values(|s: String| s@) == st.1,
        },
{
    let ghost fv = inline_view(*f);
    assert(i * f.stride <= f.count * f.stride) by (nonlinear_arith)
        requires
            i < f.count,
    ;
    let ram = f.base + i * f.stride;
    match header.file_offset(ram) {
        None => {
            let mut o: Vec<char> = Vec::new();
            push_str(&mut o, f.tag);
            push_str(&mut o, ": record ");
            push_dec(&mut o, i as u64);
            push_str(&mut o, " at RAM 0x");
            push_hex1(&mut o, ram);
            push_str(&mut o, " is outside every section");
            let line = string_of(o.as_slice());
            let ghost lv = line@;
            let ghost nb = notes@;
            notes.push(line);
            proof {
                assert(lv =~= fv.5 + ": record "@ + decimal(i as nat) + " at RAM 0x"@ + hex(ram as nat, 1) + " is outside every section"@);
                assert(notes@ == nb.push(line));
                assert(notes@.map_values(|s: String| s@) =~= nb.map_values(|s: String| s@).push(lv));
            }
            Ok(())
        },
        Some(off) => {
            let mut text: Vec<char> = Vec::new();
            match record_text_exec(buf, glyphs, off, f.glyphs, &mut text) {
                Err(e) => {
                    return Err(e);
                },
                Ok(()) => {},
            }
            let ghost before = out@;
            push_str(out, "# inline ");
            push_str(out, f.tag);
            push_str(out, " record ");
            push_dec(out, i as u64);
            push_str(out, " at main.dol:0x");
            push_hex1(out, off);
            push_str(out, " (RAM 0x");
            push_hex1(out, ram);
            push_str(out, ")");
            push_ln(out);
            let ghost mid = out@;
            if f.stub {
                push_str(out, "# LIMIT 16 glyphs - the record is overwritten with a redirect stub, not with these glyphs");
            } else {
                push_str(out, "# LIMIT ");
                push_dec(out, f.glyphs as u64);
                push_str(out, " glyphs - fixed-width record with no terminator");
            }
            push_ln(out);
            let ghost mid2 = out@;
            push_str(out, "0x");
            push_hex1(out, off);
            push_str(out, " ");
            append_chars(out, text.as_slice());
            push_str(out, "\n");
            push_ln(out);
            proof {
                let l1 = ln("# inline "@ + fv.5 + " record "@ + decimal(i as nat) + " at main.dol:0x"@ + hex(off as nat, 1) + " (RAM 0x"@
                    + hex(ram as nat, 1) + ")"@);
                let l2 = if fv.4 {
                    ln("# LIMIT 16 glyphs - the record is overwritten with a redirect stub, not with these glyphs"@)
                } else {
                    ln("# LIMIT "@ + decimal(fv.3 as nat) + " glyphs - fixed-width record with no terminator"@)
                };
                let l3 = ln("0x"@ + hex(off as nat, 1) + " "@ + text@ + "\n"@);
                assert(mid =~= before + l1);
                assert(mid2 =~= mid + l2);
                assert(out@ =~= mid2 + l3);
                assert(out@ =~= before + l1 + l2 + l3);
            }
            Ok(())
        },
    }
}

fn inline_exec(header: &DolHeader, buf: &[u8], glyphs: &HashMap<u16, String>, f: &InlineField, out: &mut Vec<char>, notes: &mut Vec<String>) -> (r: Result<(), DumpError>)
    requires
        header.fits(),
        f.wf(),
    ensures
        match inline_records(header.sections@, buf@, glyphs@, inline_view(*f), f.count as int, (old(out)@, old(notes)@.map_values(|s: String| s@))) {
            Err(e) => r is Err && r->Err_0 == e,
            Ok(st) => r is Ok && final(out)@ == st.0 && final(notes)@.map_values(|s: String| s@) == st.1,
        },
{
    let ghost fv = inline_view(*f);
    let ghost s0 = (out@, notes@.map_values(|s: String| s@));
    let mut i: u32 = 0;
    while i < f.count
        invariant
            header.fits(),
            f.wf(),
            fv == inline_view(*f),
            s0 == (old(out)@, old(notes)@.map_values(|s: String| s@)),
            i <= f.count,
            inline_records(header.sections@, buf@, glyphs@, fv, i as int, s0) == Ok::<(Seq<char>, Seq<Seq<char>>), DumpError>((out@, notes@.map_values(|s: String| s@))),
        decreases f.count - i,
    {
        match inline_record_exec(header, buf, glyphs, f, i, out, notes) {
            Err(e) => {
                proof {
                    lemma_inline_err(header.sections@, buf@, glyphs@, fv, i as int + 1, f.count as int, s0, e);
                }
                return Err(e);
            },
            Ok(()) => {},
        }
        i = i + 1;
    }
    Ok(())
}

proof fn lemma_inline_err(h: Seq<Section>, buf: Seq<u8>, glyphs: Map<u16, String>, f: InlineView, i: int, n: int, st: (Seq<char>, Seq<Seq<char>>), e: DumpError)
    requires
        0 < i <= n,
        inline_records(h, buf, glyphs, f, i, st) == Err::<(Seq<char>, Seq<Seq<char>>), DumpError>(e),
    ensures
        inline_records(h, buf, glyphs, f, n, st) == Err::<(Seq<char>, Seq<Seq<char>>), DumpError>(e),
    decreases n - i,
{
    if i < n {
        lemma_inline_err(h, buf, glyphs, f, i + 1, n, st, e);
    }
}


fn push_run(out: &mut Vec<char>, r: (u32, u32))
    ensures
        final(out)@ == old(out)@ + run_text(r),
{
    push_str(out, "0x");
    push_hex8_upper(out, r.0);
    push_str(out, "@0x");
    push_hex8_upper(out, r.1);
    proof {
        reveal_strlit("0x");
        reveal_strlit("@0x");
    }
}

fn push_run_join(out: &mut Vec<char>, rs: &[(u32, u32)], lo: usize, hi: usize)
    requires
        lo <= hi <= rs@.len(),
    ensures
        final(out)@ == old(out)@ + run_join(rs@.subrange(lo as int, hi as int)),
{
    let ghost start = out@;
    let mut i = lo;
    proof {
        assert(rs@.subrange(lo as int, lo as int) =~= Seq::<(u32, u32)>::empty());
    }
    while i < hi
        invariant
            lo <= i <= hi,
            hi <= rs@.len(),
            out@ == start + run_join(rs@.subrange(lo as int, i as int)),
        decreases hi - i,
    {
        if i > lo {
            push_str(out, " ");
        }
        push_run(out, rs[i]);
        proof {
            let t = rs@.subrange(lo as int, i + 1);
            assert(t.drop_last() =~= rs@.subrange(lo as int, i as int));
            if i == lo {
                assert(t.len() == 1);
            }
            assert(out@ =~= start + run_join(t));
        }
        i = i + 1;
    }
}

fn push_group(out: &mut Vec<char>, g: &RunGroupExec)
    ensures
        final(out)@ == old(out)@ + group_text(group_view(*g)),
{
    let ghost start = out@;
    push_str(out, "# ");
    push_dec(out, g.runs.len() as u64);
    push_str(out, " glyph run(s) addressed by code we will not rewrite, written below as run@instruction: ");
    append_chars(out, g.why.as_slice());
    push_str(out, ".");
    push_ln(out);
    let ghost head = out@;
    let n = g.runs.len();
    let mut lo: usize = 0;
    proof {
        assert(g.runs@.skip(0) =~= g.runs@);
        assert(head =~= start + ln("# "@ + decimal(g.runs@.len()) + " glyph run(s) addressed by code we will not rewrite, written below as run@instruction: "@
            + g.why@ + "."@));
    }
    while lo < n
        invariant
            n == g.runs@.len(),
            lo <= n,
            lo % 4 == 0 || lo == n,
            out@ + chunk_lines(g.runs@.skip(lo as int)) == head + chunk_lines(g.runs@),
        decreases n - lo,
    {
        let hi = if n - lo <= 4 { n } else { lo + 4 };
        let ghost before = out@;
        push_str(out, "#   ");
        push_run_join(out, g.runs.as_slice(), lo, hi);
        push_ln(out);
        proof {
            let rest = g.runs@.skip(lo as int);
            if n - lo <= 4 {
                assert(rest =~= g.runs@.subrange(lo as int, hi as int));
                assert(g.runs@.skip(hi as int) =~= Seq::<(u32, u32)>::empty());
                assert(chunk_lines(rest) == ln("#   "@ + run_join(rest)));
            } else {
                assert(rest.take(4) =~= g.runs@.subrange(lo as int, hi as int));
                assert(rest.skip(4) =~= g.runs@.skip(hi as int));
            }
            assert(out@ =~= before + ln("#   "@ + run_join(g.runs@.subrange(lo as int, hi as int))));
        }
        lo = hi;
    }
    proof {
        assert(g.runs@.skip(n as int) =~= Seq::<(u32, u32)>::empty());
        assert(out@ + Seq::<char>::empty() =~= out@);
    }
}

fn push_groups(out: &mut Vec<char>, gs: &[RunGroupExec])
    ensures
        final(out)@ == old(out)@ + groups_text(gs@.map_values(|g: RunGroupExec| group_view(g))),
{
    let ghost start = out@;
    let ghost gv = gs@.map_values(|g: RunGroupExec| group_view(g));
    let mut k: usize = 0;
    while k < gs.len()
        invariant
            k <= gs@.len(),
            gv == gs@.map_values(|g: RunGroupExec| group_view(g)),
            out@ == start + groups_text(gv.take(k as int)),
        decreases gs@.len() - k,
    {
        push_group(out, &gs[k]);
        proof {
            assert(gv.take(k + 1).drop_last() =~= gv.take(k as int));
            assert(gv.take(k + 1).last() == group_view(gs@[k as int]));
        }
        k = k + 1;
    }
    proof {
        assert(gv.take(gs@.len() as int) =~= gv);
    }
}

fn push_footer(out: &mut Vec<char>, gs: &[RunGroupExec])
    ensures
        final(out)@ == old(out)@ + footer(excluded_note_spec(), gs@.map_values(|g: RunGroupExec| group_view(g))),
{
    let notes = excluded_note();
    proof {
        assert(notes@.map_values(|s: &'static str| s@).len() == notes@.len());
        assert(notes@.len() == 2);
        assert(notes@.map_values(|s: &'static str| s@)[0] == notes@[0]@);
        assert(notes@.map_values(|s: &'static str| s@)[1] == notes@[1]@);
    }
    let ghost start = out@;
    push_str(out, "# NOT extracted, and why:");
    push_ln(out);
    push_str(out, "# 0x");
    push_hex8_upper(out, EXCLUDED_TEXT);
    push_str(out, " - ");
    push_str(out, notes[0]);
    push_ln(out);
    push_str(out, "#   ");
    push_str(out, notes[1]);
    push_ln(out);
    let ghost mid = out@;
    push_groups(out, gs);
    proof {
        assert(notes@[0]@ == excluded_note_spec()[0] && notes@[1]@ == excluded_note_spec()[1]);
        assert(mid =~= start + ln("# NOT extracted, and why:"@) + ln("# 0x"@ + hex_upper(EXCLUDED_TEXT as nat, 8) + " - "@ + excluded_note_spec()[0])
            + ln("#   "@ + excluded_note_spec()[1]));
    }
}


/// The inline record runs, as plain values.
pub open spec fn inline_views() -> Seq<InlineView> {
    seq![(0x80247bd4u32, 0x10u32, 100u32, 8u32, false, "cpuname"@)]
}

/// The pointer tables read: the walked ones, then the explicit ones.
pub open spec fn tables_stage(h: Seq<Section>, buf: Seq<u8>, glyphs: Map<u16, String>) -> Result<ExplicitState, DumpError> {
    match walk_tables_run(h, buf, walk_views(), walk_views().len() as int) {
        Err(e) => Err(e),
        Ok(wp) => explicit_run(h, buf, glyphs, explicit_shapes(), explicit_shapes().len() as int, (wp, Map::empty(), Seq::empty())),
    }
}

/// The strings to dump: every pointer table's and every usable pair's,
/// sorted, each once.
pub open spec fn dump_texts(x: ExplicitState, refs: Seq<(u32, ImmRef)>, rej: Seq<(u32, Rejection)>) -> Seq<u32> {
    sort_dedup(x.0.map_values(|p: PtrView| p.1) + usable_targets(refs, seq_map(rej)))
}

/// The sidecar and the notes, once the tables are read.
#[verifier::opaque]
pub open spec fn output_stage(h: Seq<Section>, buf: Seq<u8>, glyphs: Map<u16, String>, refs: Seq<(u32, ImmRef)>, rej: Seq<(u32, Rejection)>, x: ExplicitState) -> Result<(Seq<char>, Seq<Seq<char>>), DumpError> {
    let rejm = seq_map(rej);
    let ut = usable_targets(refs, rejm);
    let texts = dump_texts(x, refs, rej);
    let gs = by_reason(rej);
    let notes = x.2 + report_notes(sort_dedup(ut).len(), refs.len(), rej.len(), gs);
    match blocks(h, buf, glyphs, x.0, refs, rejm, x.1, texts, texts.len() as int) {
        Err(e) => Err(e),
        Ok(body) => match inline_run(h, buf, glyphs, inline_views(), 1, (dump_head((texts.len() + inline_views()[0].2) as nat, x.0.len() + ut.len()) + body, notes)) {
            Err(e) => Err(e),
            Ok(il) => Ok((il.0 + footer(excluded_note_spec(), gs), il.1)),
        },
    }
}

/// The `.patch` sidecar of `main.dol` and the notes for the console, once
/// the code is scanned; or why there is none.
pub open spec fn dol_dump(h: Seq<Section>, buf: Seq<u8>, glyphs: Map<u16, String>, refs: Seq<(u32, ImmRef)>, rej: Seq<(u32, Rejection)>) -> Result<(Seq<char>, Seq<Seq<char>>), DumpError> {
    match tables_stage(h, buf, glyphs) {
        Err(e) => Err(e),
        Ok(x) => output_stage(h, buf, glyphs, refs, rej, x),
    }
}


/// What dumping `main.dol` gave: the sidecar's text and the notes on what
/// was skipped.
pub struct DolDump {
    pub text: String,
    pub notes: Vec<String>,
}

fn usable_targets_exec(sc: &Scan) -> (out: Vec<u32>)
    requires
        sc.refs.wf(),
        sc.rejected.wf(),
    ensures
        out@ == usable_targets(sc.refs.entries(), sc.rejected@),
{
    let ghost rs = sc.refs.entries().map_values(|e: (u32, ImmRef)| e.1);
    let ghost pred = |r: ImmRef| !sc.rejected@.contains_key(r.target_ram);
    let mut out: Vec<u32> = Vec::new();
    let mut k: usize = 0;
    while k < sc.refs.len()
        invariant
            sc.refs.wf(),
            sc.rejected.wf(),
            rs == sc.refs.entries().map_values(|e: (u32, ImmRef)| e.1),
            pred == |r: ImmRef| !sc.rejected@.contains_key(r.target_ram),
            k <= rs.len(),
            out@ == rs.take(k as int).filter(pred).map_values(|r: ImmRef| r.target_off),
        decreases rs.len() - k,
    {
        let r = sc.refs.at(k).1;
        proof {
            assert(rs[k as int] == r);
            assert(rs.take(k + 1) =~= rs.take(k as int).push(r));
            rs.take(k as int).lemma_filter_push(r, pred);
        }
        if !sc.rejected.contains_key(r.target_ram) {
            out.push(r.target_off);
            proof {
                assert(out@ =~= rs.take(k + 1).filter(pred).map_values(|r: ImmRef| r.target_off));
            }
        } else {
            proof {
                assert(out@ =~= rs.take(k + 1).filter(pred).map_values(|r: ImmRef| r.target_off));
            }
        }
        k = k + 1;
    }
    proof {
        assert(rs.take(rs.len() as int) =~= rs);
    }
    out
}

fn push_head(out: &mut Vec<char>, strings: u64, references: u64)
    ensures
        final(out)@ == old(out)@ + dump_head(strings as nat, references as nat),
{
    let ghost start = out@;
    push_str(out, "# main.dol: ");
    push_dec(out, strings);
    push_str(out, " strings, ");
    push_dec(out, references);
    push_str(out, " references. Translate by repeating the 0xOFFSET line with English.");
    push_ln(out);
    push_str(out, "# every string is relocated into a section appended to the DOL, so a translation may grow freely except where a LIMIT line says otherwise.");
    push_ln(out);
    push_str(out, "# text left in Japanese is listed at the bottom of this file.");
    push_ln(out);
    push_ln(out);
    proof {
        assert(out@ =~= start + dump_head(strings as nat, references as nat));
    }
}

fn report_exec(strings: usize, pairs: usize, left: usize, gs: &[RunGroupExec], notes: &mut Vec<String>)
    ensures
        final(notes)@.map_values(|s: String| s@) == old(notes)@.map_values(|s: String| s@) + report_notes(strings as nat, pairs as nat,
            left as nat, gs@.map_values(|g: RunGroupExec| group_view(g))),
{
    let ghost start = notes@.map_values(|s: String| s@);
    let ghost gv = gs@.map_values(|g: RunGroupExec| group_view(g));
    let ghost lines = report_notes(strings as nat, pairs as nat, left as nat, gv);
    let mut o: Vec<char> = Vec::new();
    push_str(&mut o, "instruction-stream text: ");
    push_dec(&mut o, strings as u64);
    push_str(&mut o, " strings from ");
    push_dec(&mut o, pairs as u64);
    push_str(&mut o, " immediate pairs, ");
    push_dec(&mut o, left as u64);
    push_str(&mut o, " addressed runs left out");
    let first = string_of(o.as_slice());
    let ghost fv = first@;
    let ghost nb = notes@;
    notes.push(first);
    proof {
        assert(fv == lines[0]);
        assert(notes@ == nb.push(first));
        assert(notes@.map_values(|s: String| s@) =~= start + lines.take(1));
    }
    let mut k: usize = 0;
    while k < gs.len()
        invariant
            k <= gs@.len(),
            gv == gs@.map_values(|g: RunGroupExec| group_view(g)),
            lines == report_notes(strings as nat, pairs as nat, left as nat, gv),
            lines.len() == gv.len() + 1,
            notes@.map_values(|s: String| s@) == start + lines.take(k + 1),
        decreases gs@.len() - k,
    {
        let mut o: Vec<char> = Vec::new();
        push_str(&mut o, "  ");
        let d = decimal_chars(gs[k].runs.len() as u64);
        let mut p: usize = d.len();
        let ghost before_pad = o@;
        while p < 4
            invariant
                d@.len() <= p <= 4 || (p == d@.len() && p >= 4),
                o@ == before_pad + Seq::new((p - d@.len()) as nat, |i: int| ' '),
            decreases 4 - p,
        {
            o.push(' ');
            proof {
                assert(o@ =~= before_pad + Seq::new((p + 1 - d@.len()) as nat, |i: int| ' '));
            }
            p = p + 1;
        }
        append_chars(&mut o, d.as_slice());
        push_str(&mut o, " left out: ");
        append_chars(&mut o, gs[k].why.as_slice());
        let line = string_of(o.as_slice());
        let ghost lv = line@;
        let ghost nb = notes@;
        notes.push(line);
        proof {
            let g = gv[k as int];
            assert(g == group_view(gs@[k as int]));
            if d@.len() < 4 {
                assert(o@.len() > 0);
            } else {
                assert(Seq::new((p - d@.len()) as nat, |i: int| ' ') =~= Seq::<char>::empty());
            }
            assert(lv =~= "  "@ + pad4(decimal(g.1.len())) + " left out: "@ + g.0);
            assert(lines[k + 1] == "  "@ + pad4(decimal(g.1.len())) + " left out: "@ + g.0);
            assert(notes@ == nb.push(line));
            assert(notes@.map_values(|s: String| s@) =~= nb.map_values(|s: String| s@).push(lv));
            assert(lines.take(k + 2) =~= lines.take(k + 1).push(lines[k + 1]));
            assert(notes@.map_values(|s: String| s@) =~= start + lines.take(k + 2));
        }
        k = k + 1;
    }
    proof {
        assert(lines.take(gs@.len() as int + 1) =~= lines);
    }
}


fn texts_of(ptrs: &[Ptr], ut: &[u32]) -> (out: Vec<u32>)
    ensures
        out@ == ptrs@.map_values(|x: Ptr| ptr_view(x)).map_values(|p: PtrView| p.1) + ut@,
{
    let mut out: Vec<u32> = Vec::new();
    let ghost pv = ptrs@.map_values(|x: Ptr| ptr_view(x)).map_values(|p: PtrView| p.1);
    let mut k: usize = 0;
    while k < ptrs.len()
        invariant
            k <= ptrs@.len(),
            pv == ptrs@.map_values(|x: Ptr| ptr_view(x)).map_values(|p: PtrView| p.1),
            out@ == pv.take(k as int),
        decreases ptrs@.len() - k,
    {
        out.push(ptrs[k].text);
        proof {
            assert(out@ =~= pv.take(k + 1));
        }
        k = k + 1;
    }
    let mut j: usize = 0;
    while j < ut.len()
        invariant
            j <= ut@.len(),
            k == ptrs@.len(),
            pv.len() == k,
            out@ == pv + ut@.take(j as int),
        decreases ut@.len() - j,
    {
        out.push(ut[j]);
        proof {
            assert(out@ =~= pv + ut@.take(j + 1));
        }
        j = j + 1;
    }
    proof {
        assert(pv.take(k as int) =~= pv);
        assert(ut@.take(ut@.len() as int) =~= ut@);
    }
    out
}

fn dump_tables(buf: &[u8], header: &DolHeader, glyphs: &HashMap<u16, String>) -> (r: Result<Explicit, DumpError>)
    requires
        buf@.len() <= u32::MAX,
        header.wf(),
        header.fits(),
    ensures
        match tables_stage(header.sections@, buf@, glyphs@) {
            Err(e) => r is Err && r->Err_0 == e,
            Ok(x) => r is Ok && r->Ok_0.view() == x,
        },
{
    broadcast use vstd::std_specs::hash::group_hash_axioms;
    let walks = walking_tables();
    let ptrs = match walk_all(header, buf, walks.as_slice()) {
        Ok(p) => p,
        Err(e) => {
            return Err(e);
        },
    };
    let mut x = Explicit { ptrs, caps: HashMap::new(), notes: Vec::new() };
    proof {
        assert(x.caps@ =~= Map::<u32, NameCap>::empty());
        assert(x.notes@.map_values(|s: String| s@) =~= Seq::<Seq<char>>::empty());
    }
    let tables = text_tables_explicit();
    match explicit_all(header, buf, glyphs, tables.as_slice(), &mut x) {
        Ok(()) => {},
        Err(e) => {
            return Err(e);
        },
    }
    Ok(x)
}

#[verifier::spinoff_prover]
#[verifier::rlimit(60)]
fn dump_output(buf: &[u8], header: &DolHeader, glyphs: &HashMap<u16, String>, sc: &Scan, x: Explicit) -> (r: Result<DolDump, DumpError>)
    requires
        buf@.len() <= u32::MAX,
        header.wf(),
        header.fits(),
        sc.refs.wf(),
        sc.rejected.wf(),
    ensures
        match output_stage(header.sections@, buf@, glyphs@, sc.refs.entries(), sc.rejected.entries(), x.view()) {
            Err(e) => r is Err && r->Err_0 == e,
            Ok(d) => r is Ok && r->Ok_0.text@ == d.0 && r->Ok_0.notes@.map_values(|s: String| s@) == d.1,
        },
{
    reveal(output_stage);
    let ghost xv = x.view();
    let usable = sc.usable();
    let ut = usable_targets_exec(sc);
    let all = texts_of(x.ptrs.as_slice(), ut.as_slice());
    let texts = sort_dedup_exec(all.as_slice());
    let distinct = sort_dedup_exec(ut.as_slice());
    proof {
        crate::patcher::lemma_sort_dedup_increasing(all@);
    }
    let groups = rejected_by_reason(&sc.rejected);
    let Explicit { ptrs, caps, notes } = x;
    proof {
        assert(sc.rejected@ == seq_map(sc.rejected.entries()));
        assert(ptrs@.map_values(|p: Ptr| ptr_view(p)) == xv.0);
        assert(caps@ == xv.1);
        assert(all@ == xv.0.map_values(|p: PtrView| p.1) + usable_targets(sc.refs.entries(), seq_map(sc.rejected.entries())));
        assert(texts@ == dump_texts(xv, sc.refs.entries(), sc.rejected.entries()));
    }
    let ghost h = header.sections@;
    let ghost refs = sc.refs.entries();
    let ghost rej = sc.rejected.entries();
    let ghost rejm = seq_map(rej);
    let ghost utv = usable_targets(refs, rejm);
    let ghost tv = dump_texts(xv, refs, rej);
    let ghost gsv = by_reason(rej);
    let ghost notes_v = xv.2 + report_notes(sort_dedup(utv).len(), refs.len(), rej.len(), gsv);
    let mut notes = notes;
    report_exec(distinct.len(), sc.refs.len(), sc.rejected.len(), groups.as_slice(), &mut notes);
    proof {
        assert(notes@.map_values(|s: String| s@) == notes_v);
    }
    let fields = inline_fields();
    let mut out: Vec<char> = Vec::new();
    push_head(&mut out, texts.len() as u64 + fields[0].count as u64, all.len() as u64);
    let ghost head = dump_head((tv.len() + inline_views()[0].2) as nat, xv.0.len() + utv.len());
    proof {
        assert(out@ == Seq::<char>::empty() + head);
        assert(out@ =~= head);
    }
    match blocks_exec(header, buf, glyphs, ptrs.as_slice(), sc, &usable, &caps, texts.as_slice(), &mut out) {
        Ok(()) => {},
        Err(e) => {
            return Err(e);
        },
    }
    let ghost body = blocks(h, buf@, glyphs@, xv.0, refs, rejm, xv.1, tv, tv.len() as int)->Ok_0;
    proof {
        assert(out@ == head + body);
        assert(inline_view(fields@[0]) == inline_views()[0]);
        let st = (head + body, notes_v);
        assert(inline_run(h, buf@, glyphs@, inline_views(), 0, st) == Ok::<(Seq<char>, Seq<Seq<char>>), DumpError>(st));
        assert(inline_run(h, buf@, glyphs@, inline_views(), 1, st) == inline_records(h, buf@, glyphs@, inline_views()[0], inline_views()[0].2 as int, st));
    }
    match inline_exec(header, buf, glyphs, &fields[0], &mut out, &mut notes) {
        Ok(()) => {},
        Err(e) => {
            return Err(e);
        },
    }
    push_footer(&mut out, groups.as_slice());
    Ok(DolDump { text: string_of(out.as_slice()), notes })
}

/// Dump a scanned `main.dol`: every string its pointer tables and
/// immediate pairs reach, each with every reference to it, then its inline
/// records, then what was left out and why.
pub fn dump_scanned(buf: &[u8], header: &DolHeader, glyphs: &HashMap<u16, String>, sc: &Scan) -> (r: Result<DolDump, DumpError>)
    requires
        buf@.len() <= u32::MAX,
        header.wf(),
        header.fits(),
        sc.refs.wf(),
        sc.rejected.wf(),
    ensures
        dump_view(r) == dol_dump(header.sections@, buf@, glyphs@, sc.refs.entries(), sc.rejected.entries()),
{
    let x = match dump_tables(buf, header, glyphs) {
        Ok(x) => x,
        Err(e) => {
            return Err(e);
        },
    };
    dump_output(buf, header, glyphs, sc, x)
}

/// A dump's outcome as plain values: the sidecar and the notes, or the error.
pub open spec fn dump_view(r: Result<DolDump, DumpError>) -> Result<(Seq<char>, Seq<Seq<char>>), DumpError> {
    match r {
        Ok(d) => Ok((d.text@, d.notes@.map_values(|s: String| s@))),
        Err(e) => Err(e),
    }
}

/// What dumping `main.dol` from `buf` may give: a file too short for a
/// header, or one whose sections overflow or run past its end, is an error;
/// otherwise it is the dump of its tables and of what a scan of its code may
/// find.
pub open spec fn dol_outcome(buf: Seq<u8>, glyphs: Map<u16, String>, verdicts: Relocatable, v: Result<(Seq<char>, Seq<Seq<char>>), DumpError>) -> bool {
    &&& buf.len() < HEADER_READ_BYTES ==> v == Err::<(Seq<char>, Seq<Seq<char>>), DumpError>(DumpError::Read)
    &&& buf.len() >= HEADER_READ_BYTES ==> exists|h: DolHeader|
        #[trigger] header_of(buf, h) && (!h.fits() ==> v == Err::<(Seq<char>, Seq<Seq<char>>), DumpError>(DumpError::SectionOverflow))
            && (h.fits() && !covers(&h, buf) ==> v == Err::<(Seq<char>, Seq<Seq<char>>), DumpError>(DumpError::Read))
            && (h.fits() && covers(&h, buf) ==> v == dol_dump(h.sections@, buf, glyphs, sorted_entries(scan_spec(buf, h, verdicts).0),
                sorted_entries(scan_spec(buf, h, verdicts).1)))
}

/// Dump `main.dol`: read its header, scan its code for immediate pairs
/// under `verdicts`, then dump as `dump_scanned` does. The file offsets are
/// 32-bit, so the file is no longer than that.
pub fn dump_main_dol(buf: &[u8], glyphs: &HashMap<u16, String>, verdicts: &Relocatable) -> (r: Result<DolDump, DumpError>)
    requires
        buf@.len() <= u32::MAX,
    ensures
        dol_outcome(buf@, glyphs@, *verdicts, dump_view(r)),
{
    let header = match DolHeader::read(buf) {
        Ok(h) => h,
        Err(_) => {
            return Err(DumpError::Read);
        },
    };
    assert(header_of(buf@, header));
    if !header.check_fits() {
        return Err(DumpError::SectionOverflow);
    }
    if !crate::patcher::covers_exec(&header, buf) {
        return Err(DumpError::Read);
    }
    let sc = scan(buf, &header, verdicts);
    proof {
        crate::ppc::lemma_sorted_entries_of(sc.refs.entries());
        crate::ppc::lemma_sorted_entries_of(sc.rejected.entries());
    }
    dump_scanned(buf, &header, glyphs, &sc)
}

} // verus!
