//! What the patcher reads back from the `main.dol` sidecar the dumper
//! writes: one entry per string with every pointer word and immediate pair
//! that names it, then one per inline record, and nothing from the comments.

use vstd::prelude::*;
use crate::dump::{output_stage, dump_head, blocks, string_block, ptr_lines, imm_line, imm_lines, limit_line, ln, inline_run,
    inline_records, inline_record, inline_views, footer, group_text, groups_text, chunk_lines, run_join, run_text, dump_texts,
    by_reason, usable_targets, report_notes, dx_from, record_text, ExplicitState, PtrView, InlineView, RunGroup, kind_name, DumpError};
use crate::ppc::{ImmRef, Rejection, usable_for};
use crate::shape::{Section, find_file_offset, find_ram_addr};
use crate::sorted_map::seq_map;
use crate::text::{hex, hex_upper, hex_digits_upper, hex_digit_upper, decimal};
use crate::constants::{NameCap, EXCLUDED_TEXT, excluded_note_spec};
use crate::utils::{EntryView, PatchState, IntError, empty_entry, patch_line, reads_as, spec_patch, strip_cr, blank, starts_with,
    spec_is_ws, lemma_reads_line, lemma_reads_concat, lemma_reads_nothing, lemma_read_whole, lemma_hex_reads_back,
    lemma_cut_after_ascii, no_nl, lemma_no_nl_concat, lemma_hex_chars, lemma_decimal_no_nl, lemma_first_index_at,
    lemma_before_space_hex, lemma_comment_reads, lemma_differs_at, lemma_blank_line_reads, lemma_jp_line_reads,
    lemma_blank_line_idle};

verus! {

broadcast use {crate::shape::lemma_fits_ram_maps, crate::shape::lemma_fits_file_maps};

/// A comment line: no line break, opens with `#`, does not end in a carriage
/// return, and is not a reference line.
pub open spec fn comment(x: Seq<char>) -> bool {
    &&& no_nl(x)
    &&& x.len() >= 3
    &&& x[0] == '#'
    &&& x.last() != '\r'
    &&& !starts_with(x, "# reference at"@)
}

/// A comment line whose third character is not the `r` of `reference`.
proof fn lemma_comment_at2(x: Seq<char>)
    requires
        no_nl(x),
        x.len() >= 3,
        x[0] == '#',
        x[2] != 'r',
        x.last() != '\r',
    ensures
        comment(x),
{
    reveal_strlit("# reference at");
    lemma_differs_at(x, "# reference at"@, 2);
}

/// A reference line of `main.dol`: the slot `v`, then anything on one line
/// that opens with a space.
proof fn lemma_dol_reference_reads(v: u32, tail: Seq<char>, st: PatchState)
    requires
        tail.len() > 0,
        tail[0] == ' ',
        no_nl(tail),
        tail.last() != '\r',
    ensures
        reads_as(st, ln("# reference at main.dol:0x"@ + hex(v as nat, 1) + tail), (st.0, (st.1.0, st.1.1.push(v), st.1.2), st.2)),
{
    reveal_strlit("# reference at main.dol:0x");
    reveal_strlit("# reference at");
    reveal_strlit("0x");
    let head = "# reference at main.dol:0x"@;
    let h = hex(v as nat, 1);
    let x = head + h + tail;
    lemma_hex_chars(v as nat, 1);
    lemma_no_nl_concat(head, h);
    lemma_no_nl_concat(head + h, tail);
    assert(!x.contains('\n')) by {
        if x.contains('\n') {
            let i = choose|i: int| 0 <= i < x.len() && x[i] == '\n';
            assert(x[i] != '\n');
        }
    }
    assert(x.last() == tail.last());
    assert(strip_cr(x) == x);
    reveal(patch_line);
    assert(!spec_is_ws(x[0]));
    assert(!blank(x));
    assert(x.take(14) =~= "# reference at"@);
    let p: int = 23;
    assert(x[p] == ':');
    assert forall|j: int| 0 <= j < p implies x[j] != ':' by {
        assert(x[j] == head[j]);
    }
    lemma_first_index_at(x, ':', p);
    lemma_cut_after_ascii(x, p);
    assert(x.skip(p + 3) =~= h + tail);
    lemma_before_space_hex(h, tail);
    lemma_hex_reads_back(v as nat, 0xffff_ffff);
    lemma_reads_line(st, x, (st.0, (st.1.0, st.1.1.push(v), st.1.2), st.2));
}

/// The top of the file changes nothing.
proof fn lemma_head_reads(strings: nat, references: nat, st: PatchState)
    requires
        !st.2,
    ensures
        reads_as(st, dump_head(strings, references), st),
{
    reveal_strlit("# main.dol: ");
    reveal_strlit(" strings, ");
    reveal_strlit(" references. Translate by repeating the 0xOFFSET line with English.");
    reveal_strlit("# every string is relocated into a section appended to the DOL, so a translation may grow freely except where a LIMIT line says otherwise.");
    reveal_strlit("# text left in Japanese is listed at the bottom of this file.");
    let a = decimal(strings);
    let b = decimal(references);
    let x1 = "# main.dol: "@ + a + " strings, "@ + b + " references. Translate by repeating the 0xOFFSET line with English."@;
    lemma_decimal_no_nl(strings);
    lemma_decimal_no_nl(references);
    lemma_no_nl_concat("# main.dol: "@, a);
    lemma_no_nl_concat("# main.dol: "@ + a, " strings, "@);
    lemma_no_nl_concat("# main.dol: "@ + a + " strings, "@, b);
    lemma_no_nl_concat("# main.dol: "@ + a + " strings, "@ + b, " references. Translate by repeating the 0xOFFSET line with English."@);
    lemma_comment_at2(x1);
    lemma_comment_reads(x1, st);
    let x2 = "# every string is relocated into a section appended to the DOL, so a translation may grow freely except where a LIMIT line says otherwise."@;
    lemma_comment_at2(x2);
    lemma_comment_reads(x2, st);
    let x3 = "# text left in Japanese is listed at the bottom of this file."@;
    lemma_comment_at2(x3);
    lemma_comment_reads(x3, st);
    lemma_blank_line_idle(st);
    lemma_reads_concat(st, ln(x1), st, ln(x2), st);
    lemma_reads_concat(st, ln(x1) + ln(x2), st, ln(x3), st);
    lemma_reads_concat(st, ln(x1) + ln(x2) + ln(x3), st, ln(Seq::empty()), st);
}

/// A rendering that is one line: it ends with the terminator's line break
/// and holds no other.
pub open spec fn one_line(s: Seq<char>) -> bool {
    s.len() > 0 && s.last() == '\n' && no_nl(s.drop_last())
}

/// The pointer words among the first `k` of `ptrs` that name the string at
/// `t`, in order.
pub open spec fn ptr_refs(ptrs: Seq<PtrView>, t: u32, k: int) -> Seq<u32>
    decreases k,
{
    if k <= 0 {
        Seq::empty()
    } else if ptrs[k - 1].1 == t {
        ptr_refs(ptrs, t, k - 1).push(ptrs[k - 1].0)
    } else {
        ptr_refs(ptrs, t, k - 1)
    }
}

/// The entry the reader takes for the string at `t`: its pointer words, then
/// the low halves of its usable immediate pairs, and no English.
pub open spec fn dol_entry(ptrs: Seq<PtrView>, refs: Seq<(u32, ImmRef)>, rejected: Map<u32, Rejection>, t: u32) -> EntryView {
    (t, ptr_refs(ptrs, t, ptrs.len() as int) + usable_for(refs, rejected, t).map_values(|r: ImmRef| r.lo_off), None)
}

proof fn lemma_ptr_lines_read(h: Seq<Section>, ptrs: Seq<PtrView>, t: u32, k: int, st: PatchState)
    requires
        0 <= k <= ptrs.len(),
        ptr_lines(h, ptrs, t, k) is Ok,
        forall|i: int| 0 <= i < ptrs.len() ==> no_nl(#[trigger] ptrs[i].2),
    ensures
        reads_as(st, ptr_lines(h, ptrs, t, k)->Ok_0, (st.0, (st.1.0, st.1.1 + ptr_refs(ptrs, t, k), st.1.2), st.2)),
    decreases k,
{
    if k == 0 {
        assert(st.1.1 + ptr_refs(ptrs, t, k) =~= st.1.1);
        assert(ptr_lines(h, ptrs, t, k)->Ok_0 =~= Seq::<char>::empty());
        lemma_reads_nothing(st);
    } else {
        lemma_ptr_lines_read(h, ptrs, t, k - 1, st);
        let acc = ptr_lines(h, ptrs, t, k - 1)->Ok_0;
        let s1 = (st.0, (st.1.0, st.1.1 + ptr_refs(ptrs, t, k - 1), st.1.2), st.2);
        let p = ptrs[k - 1];
        if p.1 == t {
            reveal_strlit(" (RAM 0x");
            reveal_strlit(") [");
            reveal_strlit("]");
            let ram = find_ram_addr(h, p.0, 0)->Some_0;
            let tail = " (RAM 0x"@ + hex(ram as nat, 1) + ") ["@ + p.2 + "]"@;
            assert(no_nl(p.2));
            lemma_hex_chars(ram as nat, 1);
            lemma_no_nl_concat(" (RAM 0x"@, hex(ram as nat, 1));
            lemma_no_nl_concat(" (RAM 0x"@ + hex(ram as nat, 1), ") ["@);
            lemma_no_nl_concat(" (RAM 0x"@ + hex(ram as nat, 1) + ") ["@, p.2);
            lemma_no_nl_concat(" (RAM 0x"@ + hex(ram as nat, 1) + ") ["@ + p.2, "]"@);
            assert(tail.last() == ']');
            let line = ln("# reference at main.dol:0x"@ + hex(p.0 as nat, 1) + " (RAM 0x"@ + hex(ram as nat, 1) + ") ["@ + p.2 + "]"@);
            assert(line =~= ln("# reference at main.dol:0x"@ + hex(p.0 as nat, 1) + tail));
            assert(ptr_lines(h, ptrs, t, k)->Ok_0 == acc + line);
            lemma_dol_reference_reads(p.0, tail, s1);
            assert((st.1.1 + ptr_refs(ptrs, t, k - 1)).push(p.0) =~= st.1.1 + ptr_refs(ptrs, t, k));
            lemma_reads_concat(st, acc, s1, line, (st.0, (st.1.0, st.1.1 + ptr_refs(ptrs, t, k), st.1.2), st.2));
        } else {
            assert(ptr_lines(h, ptrs, t, k)->Ok_0 == acc);
        }
    }
}

proof fn lemma_imm_lines_read(rs: Seq<ImmRef>, st: PatchState)
    ensures
        reads_as(st, imm_lines(rs), (st.0, (st.1.0, st.1.1 + rs.map_values(|r: ImmRef| r.lo_off), st.1.2), st.2)),
    decreases rs.len(),
{
    if rs.len() == 0 {
        assert(st.1.1 + rs.map_values(|r: ImmRef| r.lo_off) =~= st.1.1);
        lemma_reads_nothing(st);
    } else {
        let d = rs.drop_last();
        lemma_imm_lines_read(d, st);
        let s1 = (st.0, (st.1.0, st.1.1 + d.map_values(|r: ImmRef| r.lo_off), st.1.2), st.2);
        let r = rs.last();
        reveal_strlit(" (RAM 0x");
        reveal_strlit(") [");
        reveal_strlit(" paired with the lis at RAM 0x");
        reveal_strlit("]");
        reveal_strlit("addi");
        reveal_strlit("ori");
        let tail = " (RAM 0x"@ + hex(r.lo_ram as nat, 1) + ") ["@ + kind_name(r.kind) + " paired with the lis at RAM 0x"@ + hex(r.hi_ram as nat, 1)
            + "]"@;
        lemma_hex_chars(r.lo_ram as nat, 1);
        lemma_hex_chars(r.hi_ram as nat, 1);
        assert(no_nl(kind_name(r.kind)));
        lemma_no_nl_concat(" (RAM 0x"@, hex(r.lo_ram as nat, 1));
        lemma_no_nl_concat(" (RAM 0x"@ + hex(r.lo_ram as nat, 1), ") ["@);
        lemma_no_nl_concat(" (RAM 0x"@ + hex(r.lo_ram as nat, 1) + ") ["@, kind_name(r.kind));
        lemma_no_nl_concat(" (RAM 0x"@ + hex(r.lo_ram as nat, 1) + ") ["@ + kind_name(r.kind), " paired with the lis at RAM 0x"@);
        lemma_no_nl_concat(" (RAM 0x"@ + hex(r.lo_ram as nat, 1) + ") ["@ + kind_name(r.kind) + " paired with the lis at RAM 0x"@,
            hex(r.hi_ram as nat, 1));
        lemma_no_nl_concat(" (RAM 0x"@ + hex(r.lo_ram as nat, 1) + ") ["@ + kind_name(r.kind) + " paired with the lis at RAM 0x"@
            + hex(r.hi_ram as nat, 1), "]"@);
        assert(tail.last() == ']');
        assert(imm_line(r) =~= ln("# reference at main.dol:0x"@ + hex(r.lo_off as nat, 1) + tail));
        lemma_dol_reference_reads(r.lo_off, tail, s1);
        assert((st.1.1 + d.map_values(|r: ImmRef| r.lo_off)).push(r.lo_off) =~= st.1.1 + rs.map_values(|r: ImmRef| r.lo_off));
        lemma_reads_concat(st, imm_lines(d), s1, imm_line(r), (st.0, (st.1.0, st.1.1 + rs.map_values(|r: ImmRef| r.lo_off), st.1.2), st.2));
    }
}

proof fn lemma_limit_line_reads(caps: Map<u32, NameCap>, t: u32, st: PatchState)
    ensures
        reads_as(st, limit_line(caps, t), st),
{
    if caps.contains_key(t) && caps[t] == NameCap::Stub {
        reveal_strlit("# LIMIT 16 glyphs - a fixed-size memcpy copies a redirect stub, not these glyphs");
        let x = "# LIMIT 16 glyphs - a fixed-size memcpy copies a redirect stub, not these glyphs"@;
        lemma_comment_at2(x);
        lemma_comment_reads(x, st);
    } else {
        lemma_reads_nothing(st);
    }
}

/// One string's block is read as one finished entry.
proof fn lemma_block_reads(
    h: Seq<Section>,
    buf: Seq<u8>,
    glyphs: Map<u16, String>,
    ptrs: Seq<PtrView>,
    refs: Seq<(u32, ImmRef)>,
    rejected: Map<u32, Rejection>,
    caps: Map<u32, NameCap>,
    t: u32,
    done: Seq<EntryView>,
)
    requires
        string_block(h, buf, glyphs, ptrs, refs, rejected, caps, t) is Ok,
        forall|i: int| 0 <= i < ptrs.len() ==> no_nl(#[trigger] ptrs[i].2),
        one_line(dx_from(buf, t as int, 0, glyphs)->Ok_0),
    ensures
        reads_as((done, empty_entry(), false), string_block(h, buf, glyphs, ptrs, refs, rejected, caps, t)->Ok_0,
            (done.push(dol_entry(ptrs, refs, rejected, t)), empty_entry(), false)),
{
    let st0 = (done, empty_entry(), false);
    let text = dx_from(buf, t as int, 0, glyphs)->Ok_0;
    let pl = ptr_lines(h, ptrs, t, ptrs.len() as int)->Ok_0;
    let us = usable_for(refs, rejected, t);
    let pr = ptr_refs(ptrs, t, ptrs.len() as int);
    let los = us.map_values(|r: ImmRef| r.lo_off);
    lemma_ptr_lines_read(h, ptrs, t, ptrs.len() as int, st0);
    assert(Seq::<u32>::empty() + pr =~= pr);
    let s1 = (done, (0u32, pr, None::<Seq<char>>), false);
    lemma_imm_lines_read(us, s1);
    let s2 = (done, (0u32, pr + los, None::<Seq<char>>), false);
    lemma_reads_concat(st0, pl, s1, imm_lines(us), s2);
    lemma_limit_line_reads(caps, t, s2);
    lemma_reads_concat(st0, pl + imm_lines(us), s2, limit_line(caps, t), s2);
    let body = text.drop_last();
    assert(text =~= body.push('\n'));
    let jl = ln("0x"@ + hex(t as nat, 1) + " "@ + body);
    assert(ln("0x"@ + hex(t as nat, 1) + " "@ + text) =~= jl + ln(Seq::empty()));
    let s3 = (done, (t, pr + los, None::<Seq<char>>), true);
    lemma_jp_line_reads(t, body, done, (0u32, pr + los, None::<Seq<char>>));
    lemma_reads_concat(st0, pl + imm_lines(us) + limit_line(caps, t), s2, jl, s3);
    lemma_blank_line_reads(done, (t, pr + los, None::<Seq<char>>));
    lemma_reads_concat(st0, pl + imm_lines(us) + limit_line(caps, t) + jl, s3, ln(Seq::empty()),
        (done.push(dol_entry(ptrs, refs, rejected, t)), empty_entry(), false));
    assert(string_block(h, buf, glyphs, ptrs, refs, rejected, caps, t)->Ok_0 =~= pl + imm_lines(us) + limit_line(caps, t) + jl
        + ln(Seq::empty()));
}

/// The first `k` blocks are read as one finished entry each, in order.
proof fn lemma_blocks_read(
    h: Seq<Section>,
    buf: Seq<u8>,
    glyphs: Map<u16, String>,
    ptrs: Seq<PtrView>,
    refs: Seq<(u32, ImmRef)>,
    rejected: Map<u32, Rejection>,
    caps: Map<u32, NameCap>,
    ts: Seq<u32>,
    k: int,
    done: Seq<EntryView>,
)
    requires
        0 <= k <= ts.len(),
        blocks(h, buf, glyphs, ptrs, refs, rejected, caps, ts, k) is Ok,
        forall|i: int| 0 <= i < ptrs.len() ==> no_nl(#[trigger] ptrs[i].2),
        forall|i: int| 0 <= i < ts.len() ==> one_line(#[trigger] dx_from(buf, ts[i] as int, 0, glyphs)->Ok_0),
    ensures
        reads_as((done, empty_entry(), false), blocks(h, buf, glyphs, ptrs, refs, rejected, caps, ts, k)->Ok_0,
            (done + ts.take(k).map_values(|t: u32| dol_entry(ptrs, refs, rejected, t)), empty_entry(), false)),
    decreases k,
{
    if k == 0 {
        assert(done + ts.take(k).map_values(|t: u32| dol_entry(ptrs, refs, rejected, t)) =~= done);
        lemma_reads_nothing((done, empty_entry(), false));
    } else {
        lemma_blocks_read(h, buf, glyphs, ptrs, refs, rejected, caps, ts, k - 1, done);
        let mid = done + ts.take(k - 1).map_values(|t: u32| dol_entry(ptrs, refs, rejected, t));
        let t = ts[k - 1];
        assert(one_line(dx_from(buf, ts[k - 1] as int, 0, glyphs)->Ok_0));
        lemma_block_reads(h, buf, glyphs, ptrs, refs, rejected, caps, t, mid);
        assert(mid.push(dol_entry(ptrs, refs, rejected, t)) =~= done + ts.take(k).map_values(|t: u32| dol_entry(ptrs, refs, rejected, t)));
        lemma_reads_concat((done, empty_entry(), false), blocks(h, buf, glyphs, ptrs, refs, rejected, caps, ts, k - 1)->Ok_0,
            (mid, empty_entry(), false), string_block(h, buf, glyphs, ptrs, refs, rejected, caps, t)->Ok_0,
            (done + ts.take(k).map_values(|t: u32| dol_entry(ptrs, refs, rejected, t)), empty_entry(), false));
    }
}

/// The entries the reader takes from the first `m` records of run `f`: one
/// per record a section loads, with no reference.
pub open spec fn inline_entries(h: Seq<Section>, f: InlineView, m: int) -> Seq<EntryView>
    decreases m,
{
    if m <= 0 {
        Seq::empty()
    } else {
        inline_entries(h, f, m - 1) + match find_file_offset(h, (f.0 + ((m - 1) as u32) * f.1) as u32, 0) {
            None => Seq::<EntryView>::empty(),
            Some(off) => seq![(off, Seq::<u32>::empty(), None::<Seq<char>>)],
        }
    }
}

/// Record `i` of run `f`, where a section loads it, renders on one line.
pub open spec fn record_one_line(h: Seq<Section>, buf: Seq<u8>, glyphs: Map<u16, String>, f: InlineView, i: u32) -> bool {
    find_file_offset(h, (f.0 + i * f.1) as u32, 0) matches Some(off) ==> no_nl(record_text(buf, glyphs, off, f.3 as int)->Ok_0)
}

/// `a2` is `a` with more text after it, which reads from `st` to `st2`.
pub open spec fn extends_reading(a: Seq<char>, a2: Seq<char>, st: PatchState, st2: PatchState) -> bool {
    &&& a.len() <= a2.len()
    &&& a2.take(a.len() as int) == a
    &&& reads_as(st, a2.skip(a.len() as int), st2)
}

proof fn lemma_extends_chain(a: Seq<char>, a2: Seq<char>, a3: Seq<char>, st: PatchState, s2: PatchState, s3: PatchState)
    requires
        extends_reading(a, a2, st, s2),
        extends_reading(a2, a3, s2, s3),
    ensures
        extends_reading(a, a3, st, s3),
{
    let d1 = a2.skip(a.len() as int);
    let d2 = a3.skip(a2.len() as int);
    lemma_reads_concat(st, d1, s2, d2, s3);
    assert(a3.skip(a.len() as int) =~= d1 + d2);
    assert(a3.take(a.len() as int) =~= a2.take(a.len() as int));
}

/// One record adds its comments and its line, and an entry when a section
/// loads it.
proof fn lemma_record_reads(h: Seq<Section>, buf: Seq<u8>, glyphs: Map<u16, String>, f: InlineView, i: u32, a: Seq<char>,
    n: Seq<Seq<char>>, done: Seq<EntryView>)
    requires
        inline_record(h, buf, glyphs, f, i, (a, n)) is Ok,
        no_nl(f.5),
        record_one_line(h, buf, glyphs, f, i),
    ensures
        extends_reading(a, inline_record(h, buf, glyphs, f, i, (a, n))->Ok_0.0, (done, empty_entry(), false), (done
            + match find_file_offset(h, (f.0 + i * f.1) as u32, 0) {
            None => Seq::<EntryView>::empty(),
            Some(off) => seq![(off, Seq::<u32>::empty(), None::<Seq<char>>)],
        }, empty_entry(), false)),
{
    let ram = (f.0 + i * f.1) as u32;
    let st0 = (done, empty_entry(), false);
    let a2 = inline_record(h, buf, glyphs, f, i, (a, n))->Ok_0.0;
    match find_file_offset(h, ram, 0) {
        None => {
            assert(a2 == a);
            assert(a2.skip(a.len() as int) =~= Seq::<char>::empty());
            assert(a2.take(a.len() as int) =~= a);
            assert(done + Seq::<EntryView>::empty() =~= done);
            lemma_reads_nothing(st0);
        },
        Some(off) => {
            let text = record_text(buf, glyphs, off, f.3 as int)->Ok_0;
            reveal_strlit("# inline ");
            reveal_strlit(" record ");
            reveal_strlit(" at main.dol:0x");
            reveal_strlit(" (RAM 0x");
            reveal_strlit(")");
            reveal_strlit("# LIMIT 16 glyphs - the record is overwritten with a redirect stub, not with these glyphs");
            reveal_strlit("# LIMIT ");
            reveal_strlit(" glyphs - fixed-width record with no terminator");
            reveal_strlit("\n");
            let x1 = "# inline "@ + f.5 + " record "@ + decimal(i as nat) + " at main.dol:0x"@ + hex(off as nat, 1) + " (RAM 0x"@
                + hex(ram as nat, 1) + ")"@;
            lemma_decimal_no_nl(i as nat);
            lemma_hex_chars(off as nat, 1);
            lemma_hex_chars(ram as nat, 1);
            lemma_no_nl_concat("# inline "@, f.5);
            lemma_no_nl_concat("# inline "@ + f.5, " record "@);
            lemma_no_nl_concat("# inline "@ + f.5 + " record "@, decimal(i as nat));
            lemma_no_nl_concat("# inline "@ + f.5 + " record "@ + decimal(i as nat), " at main.dol:0x"@);
            lemma_no_nl_concat("# inline "@ + f.5 + " record "@ + decimal(i as nat) + " at main.dol:0x"@, hex(off as nat, 1));
            lemma_no_nl_concat("# inline "@ + f.5 + " record "@ + decimal(i as nat) + " at main.dol:0x"@ + hex(off as nat, 1), " (RAM 0x"@);
            lemma_no_nl_concat("# inline "@ + f.5 + " record "@ + decimal(i as nat) + " at main.dol:0x"@ + hex(off as nat, 1) + " (RAM 0x"@,
                hex(ram as nat, 1));
            lemma_no_nl_concat("# inline "@ + f.5 + " record "@ + decimal(i as nat) + " at main.dol:0x"@ + hex(off as nat, 1) + " (RAM 0x"@
                + hex(ram as nat, 1), ")"@);
            lemma_comment_at2(x1);
            lemma_comment_reads(x1, st0);
            let x2 = if f.4 {
                "# LIMIT 16 glyphs - the record is overwritten with a redirect stub, not with these glyphs"@
            } else {
                "# LIMIT "@ + decimal(f.3 as nat) + " glyphs - fixed-width record with no terminator"@
            };
            if !f.4 {
                lemma_decimal_no_nl(f.3 as nat);
                lemma_no_nl_concat("# LIMIT "@, decimal(f.3 as nat));
                lemma_no_nl_concat("# LIMIT "@ + decimal(f.3 as nat), " glyphs - fixed-width record with no terminator"@);
            }
            lemma_comment_at2(x2);
            lemma_comment_reads(x2, st0);
            let jl = ln("0x"@ + hex(off as nat, 1) + " "@ + text);
            assert(ln("0x"@ + hex(off as nat, 1) + " "@ + text + "\n"@) =~= jl + ln(Seq::empty()));
            let s3 = (done, (off, Seq::<u32>::empty(), None::<Seq<char>>), true);
            lemma_jp_line_reads(off, text, done, empty_entry());
            lemma_blank_line_reads(done, (off, Seq::<u32>::empty(), None::<Seq<char>>));
            lemma_reads_concat(st0, ln(x1), st0, ln(x2), st0);
            lemma_reads_concat(st0, ln(x1) + ln(x2), st0, jl, s3);
            let st2 = (done.push((off, Seq::<u32>::empty(), None::<Seq<char>>)), empty_entry(), false);
            lemma_reads_concat(st0, ln(x1) + ln(x2) + jl, s3, ln(Seq::empty()), st2);
            let added = ln(x1) + ln(x2) + jl + ln(Seq::empty());
            assert(a2 =~= a + added);
            assert(a2.skip(a.len() as int) =~= added);
            assert(a2.take(a.len() as int) =~= a);
            assert(done + seq![(off, Seq::<u32>::empty(), None::<Seq<char>>)] =~= done.push((off, Seq::<u32>::empty(), None::<Seq<char>>)));
        },
    }
}

/// The first `m` records add an entry for each record a section loads.
proof fn lemma_records_read(h: Seq<Section>, buf: Seq<u8>, glyphs: Map<u16, String>, f: InlineView, m: int, a: Seq<char>,
    n: Seq<Seq<char>>, done: Seq<EntryView>)
    requires
        0 <= m <= u32::MAX,
        inline_records(h, buf, glyphs, f, m, (a, n)) is Ok,
        no_nl(f.5),
        forall|i: u32| i < m ==> #[trigger] record_one_line(h, buf, glyphs, f, i),
    ensures
        extends_reading(a, inline_records(h, buf, glyphs, f, m, (a, n))->Ok_0.0, (done, empty_entry(), false), (done
            + inline_entries(h, f, m), empty_entry(), false)),
    decreases m,
{
    if m == 0 {
        assert(a.take(a.len() as int) =~= a);
        assert(a.skip(a.len() as int) =~= Seq::<char>::empty());
        assert(done + inline_entries(h, f, m) =~= done);
        lemma_reads_nothing((done, empty_entry(), false));
    } else {
        lemma_records_read(h, buf, glyphs, f, m - 1, a, n, done);
        let s2 = inline_records(h, buf, glyphs, f, m - 1, (a, n))->Ok_0;
        let mid = done + inline_entries(h, f, m - 1);
        let i = (m - 1) as u32;
        assert(record_one_line(h, buf, glyphs, f, i));
        lemma_record_reads(h, buf, glyphs, f, i, s2.0, s2.1, mid);
        let one = match find_file_offset(h, (f.0 + i * f.1) as u32, 0) {
            None => Seq::<EntryView>::empty(),
            Some(off) => seq![(off, Seq::<u32>::empty(), None::<Seq<char>>)],
        };
        assert(mid + one =~= done + inline_entries(h, f, m));
        lemma_extends_chain(a, s2.0, inline_records(h, buf, glyphs, f, m, (a, n))->Ok_0.0, (done, empty_entry(), false),
            (mid, empty_entry(), false), (done + inline_entries(h, f, m), empty_entry(), false));
    }
}

/// No character of `s` is a line break or a carriage return.
pub open spec fn plain(s: Seq<char>) -> bool {
    forall|i: int| 0 <= i < s.len() ==> s[i] != '\n' && s[i] != '\r'
}

proof fn lemma_plain_concat(a: Seq<char>, b: Seq<char>)
    requires
        plain(a),
        plain(b),
    ensures
        plain(a + b),
        no_nl(a + b),
{
    assert forall|i: int| 0 <= i < (a + b).len() implies (a + b)[i] != '\n' && (a + b)[i] != '\r' by {
        if i < a.len() {
            assert((a + b)[i] == a[i]);
        } else {
            assert((a + b)[i] == b[i - a.len()]);
        }
    }
}

proof fn lemma_hex_digits_upper_plain(v: nat)
    ensures
        plain(hex_digits_upper(v)),
    decreases v,
{
    let d = v % 16;
    assert(hex_digit_upper(d) as nat == 48 + d || hex_digit_upper(d) as nat == 55 + d);
    if v >= 16 {
        lemma_hex_digits_upper_plain(v / 16);
        let s = hex_digits_upper(v);
        assert forall|i: int| 0 <= i < s.len() implies s[i] != '\n' && s[i] != '\r' by {
            if i < s.len() - 1 {
                assert(s[i] == hex_digits_upper(v / 16)[i]);
            } else {
                assert(s[i] == hex_digit_upper(d));
            }
        }
    } else {
        assert(hex_digit_upper(v) as nat == 48 + v || hex_digit_upper(v) as nat == 55 + v);
        assert(hex_digits_upper(v)[0] == hex_digit_upper(v));
    }
}

proof fn lemma_hex_upper_plain(v: nat, w: nat)
    ensures
        plain(hex_upper(v, w)),
{
    lemma_hex_digits_upper_plain(v);
    let d = hex_digits_upper(v);
    if d.len() < w {
        let pad = Seq::new((w - d.len()) as nat, |i: int| '0');
        assert(hex_upper(v, w) == pad + d);
        assert(plain(pad));
        lemma_plain_concat(pad, d);
    }
}

proof fn lemma_run_join_plain(rs: Seq<(u32, u32)>)
    ensures
        plain(run_join(rs)),
    decreases rs.len(),
{
    reveal_strlit("0x");
    reveal_strlit("@0x");
    reveal_strlit(" ");
    if rs.len() > 0 {
        let r = rs.last();
        lemma_hex_upper_plain(r.0 as nat, 8);
        lemma_hex_upper_plain(r.1 as nat, 8);
        lemma_plain_concat("0x"@, hex_upper(r.0 as nat, 8));
        lemma_plain_concat("0x"@ + hex_upper(r.0 as nat, 8), "@0x"@);
        lemma_plain_concat("0x"@ + hex_upper(r.0 as nat, 8) + "@0x"@, hex_upper(r.1 as nat, 8));
        if rs.len() > 1 {
            lemma_run_join_plain(rs.drop_last());
            lemma_plain_concat(run_join(rs.drop_last()), " "@);
            lemma_plain_concat(run_join(rs.drop_last()) + " "@, run_text(r));
        } else {
            assert(rs[0] == r);
        }
    }
}

proof fn lemma_chunk_lines_read(rs: Seq<(u32, u32)>, st: PatchState)
    ensures
        reads_as(st, chunk_lines(rs), st),
    decreases rs.len(),
{
    reveal_strlit("#   ");
    if rs.len() == 0 {
        lemma_reads_nothing(st);
    } else {
        let first = if rs.len() <= 4 { rs } else { rs.take(4) };
        let x = "#   "@ + run_join(first);
        lemma_run_join_plain(first);
        lemma_plain_concat("#   "@, run_join(first));
        assert(x.last() != '\r') by {
            assert(x[x.len() - 1] == x.last());
        }
        lemma_comment_at2(x);
        lemma_comment_reads(x, st);
        if rs.len() > 4 {
            lemma_chunk_lines_read(rs.skip(4), st);
            lemma_reads_concat(st, ln(x), st, chunk_lines(rs.skip(4)), st);
        }
    }
}

proof fn lemma_decimal_digits(v: nat)
    ensures
        decimal(v).len() >= 1,
        '0' <= decimal(v)[0] && decimal(v)[0] <= '9',
    decreases v,
{
    if v >= 10 {
        lemma_decimal_digits(v / 10);
        assert(decimal(v)[0] == decimal(v / 10)[0]);
    } else {
        assert(decimal(v)[0] as nat == 48 + v);
    }
}

proof fn lemma_groups_read(gs: Seq<RunGroup>, st: PatchState)
    requires
        forall|i: int| 0 <= i < gs.len() ==> no_nl(#[trigger] gs[i].0),
    ensures
        reads_as(st, groups_text(gs), st),
    decreases gs.len(),
{
    if gs.len() == 0 {
        lemma_reads_nothing(st);
    } else {
        let d = gs.drop_last();
        assert forall|i: int| 0 <= i < d.len() implies no_nl(#[trigger] d[i].0) by {
            assert(d[i] == gs[i]);
        }
        lemma_groups_read(d, st);
        let g = gs.last();
        assert(no_nl(gs[gs.len() - 1].0));
        reveal_strlit("# ");
        reveal_strlit(" glyph run(s) addressed by code we will not rewrite, written below as run@instruction: ");
        reveal_strlit(".");
        let lit = " glyph run(s) addressed by code we will not rewrite, written below as run@instruction: "@;
        let x = "# "@ + decimal(g.1.len()) + lit + g.0 + "."@;
        lemma_decimal_no_nl(g.1.len());
        lemma_decimal_digits(g.1.len());
        lemma_no_nl_concat("# "@, decimal(g.1.len()));
        lemma_no_nl_concat("# "@ + decimal(g.1.len()), lit);
        lemma_no_nl_concat("# "@ + decimal(g.1.len()) + lit, g.0);
        lemma_no_nl_concat("# "@ + decimal(g.1.len()) + lit + g.0, "."@);
        assert(x[2] == decimal(g.1.len())[0]);
        lemma_comment_at2(x);
        lemma_comment_reads(x, st);
        lemma_chunk_lines_read(g.1, st);
        lemma_reads_concat(st, ln(x), st, chunk_lines(g.1), st);
        assert(group_text(g) == ln(x) + chunk_lines(g.1));
        lemma_reads_concat(st, groups_text(d), st, group_text(g), st);
    }
}

proof fn lemma_footer_reads(gs: Seq<RunGroup>, st: PatchState)
    requires
        forall|i: int| 0 <= i < gs.len() ==> no_nl(#[trigger] gs[i].0),
    ensures
        reads_as(st, footer(excluded_note_spec(), gs), st),
{
    reveal_strlit("# NOT extracted, and why:");
    reveal_strlit("# 0x");
    reveal_strlit(" - ");
    reveal_strlit("#   ");
    reveal_strlit("not text: 12-word OS interrupt-mask table used by the loop at 0x80145470");
    reveal_strlit("its third word begins with 0xF800, which fooled the terminated glyph checking");
    let notes = excluded_note_spec();
    let x1 = "# NOT extracted, and why:"@;
    lemma_comment_at2(x1);
    lemma_comment_reads(x1, st);
    let hx = hex_upper(EXCLUDED_TEXT as nat, 8);
    let x2 = "# 0x"@ + hx + " - "@ + notes[0];
    lemma_hex_upper_plain(EXCLUDED_TEXT as nat, 8);
    assert(plain("# 0x"@));
    lemma_plain_concat("# 0x"@, hx);
    assert(plain(" - "@));
    lemma_plain_concat("# 0x"@ + hx, " - "@);
    assert(plain(notes[0]));
    lemma_plain_concat("# 0x"@ + hx + " - "@, notes[0]);
    assert(x2.last() == notes[0].last());
    lemma_comment_at2(x2);
    lemma_comment_reads(x2, st);
    let x3 = "#   "@ + notes[1];
    assert(plain(notes[1]));
    lemma_plain_concat("#   "@, notes[1]);
    assert(x3.last() == notes[1].last());
    lemma_comment_at2(x3);
    lemma_comment_reads(x3, st);
    lemma_groups_read(gs, st);
    lemma_reads_concat(st, ln(x1), st, ln(x2), st);
    lemma_reads_concat(st, ln(x1) + ln(x2), st, ln(x3), st);
    lemma_reads_concat(st, ln(x1) + ln(x2) + ln(x3), st, groups_text(gs), st);
}

/// What the reader takes from `main.dol`'s sidecar: one entry per string,
/// in offset order, then one per inline record a section loads.
pub open spec fn dol_sidecar_entries(h: Seq<Section>, x: ExplicitState, refs: Seq<(u32, ImmRef)>, rej: Seq<(u32, Rejection)>) -> Seq<EntryView> {
    dump_texts(x, refs, rej).map_values(|t: u32| dol_entry(x.0, refs, seq_map(rej), t)) + inline_entries(h, inline_views()[0],
        inline_views()[0].2 as int)
}

/// Reading `main.dol`'s sidecar back gives one entry per string, in offset
/// order, with the pointer words and then the immediate pairs that name it
/// and no English yet; then one entry per inline record a section loads,
/// with no reference; and nothing from the comments. So the sidecar the
/// dumper writes is what the patcher reads, where each rendering is one
/// line: table tags and reasons without a line break, strings whose
/// terminator alone renders as one, and records without one.
pub proof fn lemma_dol_sidecar_reads_back(
    h: Seq<Section>,
    buf: Seq<u8>,
    glyphs: Map<u16, String>,
    refs: Seq<(u32, ImmRef)>,
    rej: Seq<(u32, Rejection)>,
    x: ExplicitState,
    out: (Seq<char>, Seq<Seq<char>>),
)
    requires
        output_stage(h, buf, glyphs, refs, rej, x) == Ok::<(Seq<char>, Seq<Seq<char>>), DumpError>(out),
        forall|i: int| 0 <= i < x.0.len() ==> no_nl(#[trigger] x.0[i].2),
        forall|i: int| 0 <= i < dump_texts(x, refs, rej).len() ==> one_line(
            #[trigger] dx_from(buf, dump_texts(x, refs, rej)[i] as int, 0, glyphs)->Ok_0,
        ),
        forall|i: u32| i < inline_views()[0].2 ==> #[trigger] record_one_line(h, buf, glyphs, inline_views()[0], i),
        forall|i: int| 0 <= i < by_reason(rej).len() ==> no_nl(#[trigger] by_reason(rej)[i].0),
    ensures
        spec_patch(out.0) == Ok::<Seq<EntryView>, IntError>(dol_sidecar_entries(h, x, refs, rej)),
{
    reveal(output_stage);
    let rejm = seq_map(rej);
    let ut = usable_targets(refs, rejm);
    let texts = dump_texts(x, refs, rej);
    let gs = by_reason(rej);
    let notes = x.2 + report_notes(crate::patcher::sort_dedup(ut).len(), refs.len(), rej.len(), gs);
    let body = blocks(h, buf, glyphs, x.0, refs, rejm, x.1, texts, texts.len() as int)->Ok_0;
    let head = dump_head((texts.len() + inline_views()[0].2) as nat, x.0.len() + ut.len());
    let f = inline_views()[0];
    let st0 = (Seq::<EntryView>::empty(), empty_entry(), false);
    lemma_head_reads((texts.len() + inline_views()[0].2) as nat, x.0.len() + ut.len(), st0);
    let e1 = texts.map_values(|t: u32| dol_entry(x.0, refs, rejm, t));
    lemma_blocks_read(h, buf, glyphs, x.0, refs, rejm, x.1, texts, texts.len() as int, Seq::empty());
    assert(texts.take(texts.len() as int) =~= texts);
    assert(Seq::<EntryView>::empty() + e1 =~= e1);
    let s1 = (e1, empty_entry(), false);
    lemma_reads_concat(st0, head, st0, body, s1);
    let st = (head + body, notes);
    assert(inline_run(h, buf, glyphs, inline_views(), 0, st) == Ok::<(Seq<char>, Seq<Seq<char>>), DumpError>(st));
    assert(inline_run(h, buf, glyphs, inline_views(), 1, st) == inline_records(h, buf, glyphs, f, f.2 as int, st));
    let il = inline_records(h, buf, glyphs, f, f.2 as int, st)->Ok_0;
    reveal_strlit("cpuname");
    assert(no_nl(f.5));
    lemma_records_read(h, buf, glyphs, f, f.2 as int, head + body, notes, e1);
    let s2 = (e1 + inline_entries(h, f, f.2 as int), empty_entry(), false);
    let added = il.0.skip((head + body).len() as int);
    lemma_reads_concat(st0, head + body, s1, added, s2);
    assert(il.0 =~= head + body + added);
    lemma_footer_reads(gs, s2);
    lemma_reads_concat(st0, il.0, s2, footer(excluded_note_spec(), gs), s2);
    assert(out.0 == il.0 + footer(excluded_note_spec(), gs));
    lemma_read_whole(out.0, e1 + inline_entries(h, f, f.2 as int));
}

} // verus!
