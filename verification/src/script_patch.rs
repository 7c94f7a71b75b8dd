//! Patching one event script: the translations become replacements keyed by
//! (reference, offset), the packer writes them, the result is walked again
//! and compared, and TITLE gets short Latin defaults in its legacy name slots.

use vstd::prelude::*;
use std::collections::HashMap;
use crate::bytes::{be16_seq, be16_bytes, push_be16};
use crate::longname::TERMINATOR;
use crate::pack::{pack, verify, Packed, Refusal, RefusalReason, Replacement, repl_sorted, key_lt, pack_result, verify_report,
    refusal_text, lemma_plan_packable, Group, arena_result, arena_output, arena_base, recycle_output, cursor_refusals, validation_refusals,
    check_views, recycle_accepts, placed, conflict_views};
use crate::spt::REACH;
use crate::spt::{plan, Plan, spec_w, planned};
use crate::text::{hex, push_str, push_hex, string_of, chars_of, append_chars, debug_quoted, quote_debug};
use crate::utils::{TLEntry, Encoder, spec_encode_at, encode_error_text};

verus! {

/// A translated name as stored: its codes, then the terminator.
pub open spec fn stored(codes: Seq<u16>) -> Seq<u8> {
    be16_seq(codes) + be16_bytes(TERMINATOR)
}

/// TITLE's seven legacy name slots: (offset, retail name, Latin default).
pub open spec fn title_names() -> Seq<(usize, Seq<char>, Seq<char>)> {
    seq![
        (0x7260usize, "タップ"@, "Tap"@),
        (0x7268usize, "ルチル"@, "Luc"@),
        (0x7270usize, "ブリキン"@, "Brik"@),
        (0x727ausize, "ガママル"@, "Gama"@),
        (0x7284usize, "ラズリ"@, "Raz"@),
        (0x728cusize, "ウィウィ"@, "Wiwi"@),
        (0x7296usize, "ヴィント"@, "Vint"@),
    ]
}

/// One legacy slot given its Latin default, or why not.
pub open spec fn title_step(buf: Seq<u8>, tokens: Map<Seq<char>, u16>, slot: (usize, Seq<char>, Seq<char>)) -> Result<Seq<u8>, Seq<char>> {
    let (off, jp, latin) = slot;
    match spec_encode_at(tokens, jp, 0, 0) {
        Err(x) => Err("TITLE default "@ + jp + ": "@ + encode_error_text(x.0, x.1)),
        Ok(original) => match spec_encode_at(tokens, latin, 0, 0) {
            Err(x) => Err("TITLE default "@ + latin + ": "@ + encode_error_text(x.0, x.1)),
            Ok(replacement) => if original.len() != replacement.len() {
                Err("TITLE default at 0x"@ + hex(off as nat, 1) + ": "@ + debug_quoted(jp) + " and "@ + debug_quoted(latin)
                    + " have different widths"@)
            } else if off + stored(original).len() > buf.len() {
                Err("TITLE default slot 0x"@ + hex(off as nat, 1) + " is outside the file"@)
            } else if buf.subrange(off as int, off + stored(original).len()) != stored(original) {
                Err("TITLE default slot 0x"@ + hex(off as nat, 1) + " no longer contains the expected retail name "@ + debug_quoted(jp))
            } else {
                Ok(buf.take(off as int) + stored(replacement) + buf.skip(off + stored(replacement).len()))
            },
        },
    }
}

/// The first `k` slots in order: the file after the ones that took, and
/// the refusal that stopped the pass, if one did.
pub open spec fn title_run(buf: Seq<u8>, tokens: Map<Seq<char>, u16>, k: int) -> (Seq<u8>, Option<Seq<char>>)
    decreases k,
{
    if k <= 0 {
        (buf, None)
    } else {
        let prev = title_run(buf, tokens, k - 1);
        if prev.1 is Some {
            prev
        } else {
            match title_step(prev.0, tokens, title_names()[k - 1]) {
                Ok(b) => (b, None),
                Err(m) => (prev.0, Some(m)),
            }
        }
    }
}

fn stored_exec(codes: &[u16]) -> (out: Vec<u8>)
    ensures
        out@ == stored(codes@),
{
    let mut out: Vec<u8> = Vec::new();
    let mut i: usize = 0;
    while i < codes.len()
        invariant
            i <= codes@.len(),
            out@ == be16_seq(codes@.take(i as int)),
        decreases codes@.len() - i,
    {
        proof {
            assert(codes@.take(i + 1).drop_last() =~= codes@.take(i as int));
        }
        push_be16(&mut out, codes[i]);
        i = i + 1;
    }
    proof {
        assert(codes@.take(codes@.len() as int) =~= codes@);
    }
    push_be16(&mut out, TERMINATOR);
    out
}

proof fn lemma_stored_len(codes: Seq<u16>)
    ensures
        stored(codes).len() == 2 * codes.len() + 2,
    decreases codes.len(),
{
    crate::bytes::lemma_be16_seq_len(codes);
}

/// Whether `buf[off..off + want.len()]` is `want`.
fn slot_holds(buf: &[u8], off: usize, want: &[u8]) -> (r: bool)
    requires
        off + want@.len() <= buf@.len(),
    ensures
        r == (buf@.subrange(off as int, off + want@.len()) == want@),
{
    let mut i: usize = 0;
    while i < want.len()
        invariant
            off + want@.len() <= buf@.len(),
            buf@.len() == buf.len(),
            i <= want@.len(),
            forall|k: int| 0 <= k < i ==> buf@[off + k] == want@[k],
        decreases want@.len() - i,
    {
        if buf[off + i] != want[i] {
            assert(buf@.subrange(off as int, off + want@.len())[i as int] != want@[i as int]);
            return false;
        }
        i = i + 1;
    }
    assert(buf@.subrange(off as int, off + want@.len()) =~= want@);
    true
}

/// Write `data` over `buf` at `off`.
fn overwrite(buf: &mut Vec<u8>, off: usize, data: &[u8])
    requires
        off + data@.len() <= old(buf)@.len(),
    ensures
        final(buf)@ == old(buf)@.take(off as int) + data@ + old(buf)@.skip(off + data@.len()),
{
    let n = buf.len();
    let mut i: usize = 0;
    while i < data.len()
        invariant
            n == buf@.len(),
            off + data@.len() <= buf@.len(),
            buf@.len() == old(buf)@.len(),
            i <= data@.len(),
            forall|k: int| 0 <= k < buf@.len() && !(off <= k < off + i) ==> #[trigger] buf@[k] == old(buf)@[k],
            forall|k: int| off <= k < off + i ==> #[trigger] buf@[k] == data@[k - off],
        decreases data@.len() - i,
    {
        buf.set(off + i, data[i]);
        i = i + 1;
    }
    assert(buf@ =~= old(buf)@.take(off as int) + data@ + old(buf)@.skip(off + data@.len()));
}

fn title_prefix(s: &str, out: &mut Vec<char>)
    ensures
        final(out)@ == old(out)@ + "TITLE default "@ + s@ + ": "@,
{
    push_str(out, "TITLE default ");
    push_str(out, s);
    push_str(out, ": ");
    assert(final(out)@ =~= old(out)@ + "TITLE default "@ + s@ + ": "@) by {
        assert(out@ =~= old(out)@ + "TITLE default "@ + s@ + ": "@);
    }
}

/// One legacy slot.
fn title_slot(buf: &mut Vec<u8>, encoder: &Encoder, off: usize, jp: &str, latin: &str) -> (r: Result<(), String>)
    requires
        encoder.wf(),
    ensures
        match title_step(old(buf)@, encoder.tokens(), (off, jp@, latin@)) {
            Ok(b) => r is Ok && final(buf)@ == b,
            Err(m) => r is Err && r->Err_0@ == m && final(buf)@ == old(buf)@,
        },
{
    let original = match encoder.encode(jp) {
        Ok(c) => c,
        Err(why) => {
            let mut o: Vec<char> = Vec::new();
            title_prefix(jp, &mut o);
            push_str(&mut o, why.as_str());
            return Err(string_of(o.as_slice()));
        },
    };
    let replacement = match encoder.encode(latin) {
        Ok(c) => c,
        Err(why) => {
            let mut o: Vec<char> = Vec::new();
            title_prefix(latin, &mut o);
            push_str(&mut o, why.as_str());
            return Err(string_of(o.as_slice()));
        },
    };
    if original.len() != replacement.len() {
        let mut o: Vec<char> = Vec::new();
        push_str(&mut o, "TITLE default at 0x");
        push_hex(&mut o, off as u64, 1);
        push_str(&mut o, ": ");
        let q1 = quote_debug(jp);
        push_str(&mut o, q1.as_str());
        push_str(&mut o, " and ");
        let q2 = quote_debug(latin);
        push_str(&mut o, q2.as_str());
        push_str(&mut o, " have different widths");
        return Err(string_of(o.as_slice()));
    }
    let expected = stored_exec(original.as_slice());
    let encoded = stored_exec(replacement.as_slice());
    proof {
        lemma_stored_len(original@);
        lemma_stored_len(replacement@);
    }
    if off > buf.len() || expected.len() > buf.len() - off {
        let mut o: Vec<char> = Vec::new();
        push_str(&mut o, "TITLE default slot 0x");
        push_hex(&mut o, off as u64, 1);
        push_str(&mut o, " is outside the file");
        return Err(string_of(o.as_slice()));
    }
    if !slot_holds(buf.as_slice(), off, expected.as_slice()) {
        let mut o: Vec<char> = Vec::new();
        push_str(&mut o, "TITLE default slot 0x");
        push_hex(&mut o, off as u64, 1);
        push_str(&mut o, " no longer contains the expected retail name ");
        let q = quote_debug(jp);
        push_str(&mut o, q.as_str());
        return Err(string_of(o.as_slice()));
    }
    overwrite(buf, off, encoded.as_slice());
    Ok(())
}

/// TITLE's string references follow the relocated directory entries, but
/// the character-select name prefill reads the seven retail slots at
/// 0x7260..0x729f. Keep full names in the relocated strings and put short
/// Latin defaults in those legacy slots, each exactly its slot's width with
/// the terminator; any byte that is not the retail name refuses the pass.
pub fn patch_title_default_names(buf: &mut Vec<u8>, encoder: &Encoder) -> (r: Result<(), String>)
    requires
        encoder.wf(),
    ensures
        final(buf)@ == title_run(old(buf)@, encoder.tokens(), 7).0,
        r is Err <==> title_run(old(buf)@, encoder.tokens(), 7).1 is Some,
        r matches Err(m) ==> title_run(old(buf)@, encoder.tokens(), 7).1 == Some(m@),
{
    let ghost b0 = buf@;
    let offs: [usize; 7] = [0x7260, 0x7268, 0x7270, 0x727a, 0x7284, 0x728c, 0x7296];
    let jps: [&str; 7] = ["タップ", "ルチル", "ブリキン", "ガママル", "ラズリ", "ウィウィ", "ヴィント"];
    let latins: [&str; 7] = ["Tap", "Luc", "Brik", "Gama", "Raz", "Wiwi", "Vint"];
    proof {
        assert forall|k: int| 0 <= k < 7 implies #[trigger] title_names()[k] == (offs@[k], jps@[k]@, latins@[k]@) by {}
    }
    let mut k: usize = 0;
    while k < 7
        invariant
            encoder.wf(),
            b0 == old(buf)@,
            k <= 7,
            forall|j: int| 0 <= j < 7 ==> #[trigger] title_names()[j] == (offs@[j], jps@[j]@, latins@[j]@),
            title_run(b0, encoder.tokens(), k as int) == (buf@, None::<Seq<char>>),
        decreases 7 - k,
    {
        match title_slot(buf, encoder, offs[k], jps[k], latins[k]) {
            Ok(()) => {},
            Err(m) => {
                proof {
                    lemma_title_stops(b0, encoder.tokens(), k as int + 1, 7);
                }
                return Err(m);
            },
        }
        k = k + 1;
    }
    Ok(())
}

proof fn lemma_title_stops(buf: Seq<u8>, tokens: Map<Seq<char>, u16>, i: int, n: int)
    requires
        0 < i <= n,
        title_run(buf, tokens, i).1 is Some,
    ensures
        title_run(buf, tokens, n) == title_run(buf, tokens, i),
    decreases n - i,
{
    if i < n {
        lemma_title_stops(buf, tokens, i + 1, n);
    }
}


/// A replacement as plain values: (reference, offset, codes).
pub type ReplView = (usize, usize, Seq<u16>);

pub open spec fn repl_view(r: Replacement) -> ReplView {
    (r.at, r.offset, r.codes@)
}

/// `(at, off) -> codes` put into `o` before the first key not below it,
/// replacing the codes of an equal key.
pub open spec fn repl_insert(o: Seq<ReplView>, at: usize, off: usize, codes: Seq<u16>) -> Seq<ReplView>
    decreases o.len(),
{
    if o.len() == 0 {
        seq![(at, off, codes)]
    } else if key_lt(at, off, o[0].0, o[0].1) {
        seq![(at, off, codes)] + o
    } else if at == o[0].0 && off == o[0].1 {
        seq![(at, off, codes)] + o.drop_first()
    } else {
        seq![o[0]] + repl_insert(o.drop_first(), at, off, codes)
    }
}

/// Every reference of one translated string given its codes.
pub open spec fn repl_refs(o: Seq<ReplView>, refs: Seq<u32>, og: u32, codes: Seq<u16>) -> Seq<ReplView>
    decreases refs.len(),
{
    if refs.len() == 0 {
        o
    } else {
        repl_insert(repl_refs(o, refs.drop_last(), og, codes), refs.last() as usize, og as usize, codes)
    }
}

/// One entry: its references replaced, or its encoding refused.
pub open spec fn repl_step(st: (Seq<ReplView>, Seq<Seq<char>>), e: TLEntry, tokens: Map<Seq<char>, u16>) -> (Seq<ReplView>, Seq<Seq<char>>) {
    match e.en_string {
        None => st,
        Some(en) => match spec_encode_at(tokens, en@, 0, 0) {
            Ok(codes) => (repl_refs(st.0, e.references@, e.og_ptr, codes), st.1),
            Err(x) => (st.0, st.1.push("0x"@ + hex(e.og_ptr as nat, 1) + ": "@ + encode_error_text(x.0, x.1))),
        },
    }
}

/// The first `k` entries.
pub open spec fn repl_run(es: Seq<TLEntry>, tokens: Map<Seq<char>, u16>, k: int) -> (Seq<ReplView>, Seq<Seq<char>>)
    decreases k,
{
    if k <= 0 {
        (Seq::empty(), Seq::empty())
    } else {
        repl_step(repl_run(es, tokens, k - 1), es[k - 1], tokens)
    }
}

proof fn lemma_repl_insert_prefix(o: Seq<ReplView>, at: usize, off: usize, codes: Seq<u16>, i: int)
    requires
        0 <= i <= o.len(),
        forall|k: int| 0 <= k < i ==> key_lt(#[trigger] o[k].0, o[k].1, at, off),
    ensures
        repl_insert(o, at, off, codes) == o.take(i) + repl_insert(o.skip(i), at, off, codes),
    decreases i,
{
    if i == 0 {
        assert(o.skip(0) =~= o);
        assert(o.take(0) + repl_insert(o, at, off, codes) =~= repl_insert(o, at, off, codes));
    } else {
        let t = o.drop_first();
        assert forall|k: int| 0 <= k < i - 1 implies key_lt(#[trigger] t[k].0, t[k].1, at, off) by {
            assert(t[k] == o[k + 1]);
        }
        assert(key_lt(o[0].0, o[0].1, at, off));
        lemma_repl_insert_prefix(t, at, off, codes, i - 1);
        assert(t.skip(i - 1) =~= o.skip(i));
        assert(seq![o[0]] + t.take(i - 1) =~= o.take(i));
        assert(seq![o[0]] + (t.take(i - 1) + repl_insert(t.skip(i - 1), at, off, codes)) =~= o.take(i) + repl_insert(o.skip(i), at, off, codes));
    }
}

fn copy_codes(c: &[u16]) -> (out: Vec<u16>)
    ensures
        out@ == c@,
{
    let mut out: Vec<u16> = Vec::new();
    let mut i: usize = 0;
    while i < c.len()
        invariant
            i <= c@.len(),
            out@ == c@.take(i as int),
        decreases c@.len() - i,
    {
        out.push(c[i]);
        proof {
            assert(out@ =~= c@.take(i + 1));
        }
        i = i + 1;
    }
    proof {
        assert(c@.take(c@.len() as int) =~= c@);
    }
    out
}

/// Put one replacement in as `repl_insert` does.
fn repl_insert_exec(o: &mut Vec<Replacement>, at: usize, off: usize, codes: &[u16])
    ensures
        final(o)@.map_values(|r: Replacement| repl_view(r)) == repl_insert(old(o)@.map_values(|r: Replacement| repl_view(r)), at, off, codes@),
{
    let ghost ov = old(o)@.map_values(|r: Replacement| repl_view(r));
    let mut i: usize = 0;
    let mut stop = false;
    while !stop && i < o.len()
        invariant
            ov == o@.map_values(|r: Replacement| repl_view(r)),
            i <= o@.len(),
            forall|k: int| 0 <= k < i ==> key_lt(#[trigger] ov[k].0, ov[k].1, at, off),
            stop ==> i < o@.len() && !key_lt(ov[i as int].0, ov[i as int].1, at, off),
        decreases o@.len() - i + (if stop { 0int } else { 1int }),
    {
        let e = &o[i];
        if !(e.at < at || (e.at == at && e.offset < off)) {
            stop = true;
        } else {
            i = i + 1;
        }
    }
    proof {
        lemma_repl_insert_prefix(ov, at, off, codes@, i as int);
    }
    let item = Replacement { at, offset: off, codes: copy_codes(codes) };
    if i == o.len() {
        proof {
            assert(ov.skip(i as int) =~= Seq::<ReplView>::empty());
        }
        o.push(item);
        proof {
            assert(o@.map_values(|r: Replacement| repl_view(r)) =~= ov.take(i as int) + seq![(at, off, codes@)]);
        }
    } else if o[i].at == at && o[i].offset == off {
        proof {
            assert(ov.skip(i as int)[0] == ov[i as int]);
            assert(ov.skip(i as int).drop_first() =~= ov.skip(i + 1));
        }
        o.set(i, item);
        proof {
            assert(o@.map_values(|r: Replacement| repl_view(r)) =~= ov.take(i as int) + (seq![(at, off, codes@)] + ov.skip(i + 1)));
        }
    } else {
        proof {
            assert(ov.skip(i as int)[0] == ov[i as int]);
        }
        o.insert(i, item);
        proof {
            assert(o@.map_values(|r: Replacement| repl_view(r)) =~= ov.take(i as int) + (seq![(at, off, codes@)] + ov.skip(i as int)));
        }
    }
}

/// The replacements and encoding refusals of the entries, in order: a later
/// translation of the same (reference, offset) replaces an earlier one.
pub fn spt_replacements(entries: &[TLEntry], encoder: &Encoder) -> (r: (Vec<Replacement>, Vec<String>))
    requires
        encoder.wf(),
    ensures
        r.0@.map_values(|x: Replacement| repl_view(x)) == repl_run(entries@, encoder.tokens(), entries@.len() as int).0,
        r.1@.map_values(|s: String| s@) == repl_run(entries@, encoder.tokens(), entries@.len() as int).1,
{
    let mut repl: Vec<Replacement> = Vec::new();
    let mut refusals: Vec<String> = Vec::new();
    proof {
        assert(repl@.map_values(|x: Replacement| repl_view(x)) =~= Seq::<ReplView>::empty());
        assert(refusals@.map_values(|s: String| s@) =~= Seq::<Seq<char>>::empty());
    }
    let mut k: usize = 0;
    while k < entries.len()
        invariant
            encoder.wf(),
            k <= entries@.len(),
            repl@.map_values(|x: Replacement| repl_view(x)) == repl_run(entries@, encoder.tokens(), k as int).0,
            refusals@.map_values(|s: String| s@) == repl_run(entries@, encoder.tokens(), k as int).1,
        decreases entries@.len() - k,
    {
        let e = &entries[k];
        if let Some(en) = &e.en_string {
            match encoder.encode(en.as_str()) {
                Ok(codes) => {
                    let mut j: usize = 0;
                    let ghost base = repl@.map_values(|x: Replacement| repl_view(x));
                    while j < e.references.len()
                        invariant
                            j <= e.references@.len(),
                            repl@.map_values(|x: Replacement| repl_view(x)) == repl_refs(base, e.references@.take(j as int), e.og_ptr, codes@),
                        decreases e.references@.len() - j,
                    {
                        proof {
                            assert(e.references@.take(j + 1).drop_last() =~= e.references@.take(j as int));
                        }
                        repl_insert_exec(&mut repl, e.references[j] as usize, e.og_ptr as usize, codes.as_slice());
                        j = j + 1;
                    }
                    proof {
                        assert(e.references@.take(e.references@.len() as int) =~= e.references@);
                    }
                },
                Err(why) => {
                    let mut o: Vec<char> = Vec::new();
                    push_str(&mut o, "0x");
                    push_hex(&mut o, e.og_ptr as u64, 1);
                    push_str(&mut o, ": ");
                    push_str(&mut o, why.as_str());
                    let line = string_of(o.as_slice());
                    refusals.push(line);
                    proof {
                        assert(refusals@.map_values(|s: String| s@) =~= repl_run(entries@, encoder.tokens(), k as int).1.push(line@));
                    }
                },
            }
        }
        k = k + 1;
    }
    (repl, refusals)
}


/// Keys strictly increase along `o`.
pub open spec fn views_sorted(o: Seq<ReplView>) -> bool {
    forall|i: int, j: int| 0 <= i < j < o.len() ==> key_lt((#[trigger] o[i]).0, o[i].1, (#[trigger] o[j]).0, o[j].1)
}

proof fn lemma_repl_insert_sorted(o: Seq<ReplView>, at: usize, off: usize, codes: Seq<u16>)
    requires
        views_sorted(o),
    ensures
        views_sorted(repl_insert(o, at, off, codes)),
        repl_insert(o, at, off, codes).len() > 0,
        o.len() == 0 || !key_lt(o[0].0, o[0].1, at, off) ==> repl_insert(o, at, off, codes)[0].0 == at && repl_insert(o, at, off, codes)[0].1 == off,
        o.len() > 0 && key_lt(o[0].0, o[0].1, at, off) ==> repl_insert(o, at, off, codes)[0] == o[0],
    decreases o.len(),
{
    let r = repl_insert(o, at, off, codes);
    if o.len() == 0 {
    } else if key_lt(at, off, o[0].0, o[0].1) {
        assert forall|i: int, j: int| 0 <= i < j < r.len() implies key_lt((#[trigger] r[i]).0, r[i].1, (#[trigger] r[j]).0, r[j].1) by {
            if i > 0 {
                assert(r[i] == o[i - 1] && r[j] == o[j - 1]);
            } else {
                assert(r[j] == o[j - 1]);
                if j > 1 {
                    assert(key_lt(o[0].0, o[0].1, o[j - 1].0, o[j - 1].1));
                }
            }
        }
    } else if at == o[0].0 && off == o[0].1 {
        assert forall|i: int, j: int| 0 <= i < j < r.len() implies key_lt((#[trigger] r[i]).0, r[i].1, (#[trigger] r[j]).0, r[j].1) by {
            assert(r[j] == o[j]);
            if i > 0 {
                assert(r[i] == o[i]);
            }
        }
    } else {
        let t = o.drop_first();
        assert(views_sorted(t)) by {
            assert forall|i: int, j: int| 0 <= i < j < t.len() implies key_lt((#[trigger] t[i]).0, t[i].1, (#[trigger] t[j]).0, t[j].1) by {
                assert(t[i] == o[i + 1] && t[j] == o[j + 1]);
            }
        }
        lemma_repl_insert_sorted(t, at, off, codes);
        let rt = repl_insert(t, at, off, codes);
        assert(r == seq![o[0]] + rt);
        assert(key_lt(o[0].0, o[0].1, rt[0].0, rt[0].1)) by {
            if t.len() > 0 && key_lt(t[0].0, t[0].1, at, off) {
                assert(t[0] == o[1]);
            }
        }
        assert forall|i: int, j: int| 0 <= i < j < r.len() implies key_lt((#[trigger] r[i]).0, r[i].1, (#[trigger] r[j]).0, r[j].1) by {
            if i > 0 {
                assert(r[i] == rt[i - 1] && r[j] == rt[j - 1]);
            } else {
                assert(r[j] == rt[j - 1]);
                if j > 1 {
                    assert(key_lt(rt[0].0, rt[0].1, rt[j - 1].0, rt[j - 1].1));
                }
            }
        }
    }
}

proof fn lemma_repl_refs_sorted(o: Seq<ReplView>, refs: Seq<u32>, og: u32, codes: Seq<u16>)
    requires
        views_sorted(o),
    ensures
        views_sorted(repl_refs(o, refs, og, codes)),
    decreases refs.len(),
{
    if refs.len() > 0 {
        lemma_repl_refs_sorted(o, refs.drop_last(), og, codes);
        lemma_repl_insert_sorted(repl_refs(o, refs.drop_last(), og, codes), refs.last() as usize, og as usize, codes);
    }
}

/// The replacements are ordered strictly by (reference, offset), each pair
/// once, as the packer needs.
pub proof fn lemma_repl_run_sorted(es: Seq<TLEntry>, tokens: Map<Seq<char>, u16>, k: int)
    ensures
        views_sorted(repl_run(es, tokens, k).0),
    decreases k,
{
    if k > 0 {
        lemma_repl_run_sorted(es, tokens, k - 1);
        let prev = repl_run(es, tokens, k - 1);
        let e = es[k - 1];
        if let Some(en) = e.en_string {
            if let Ok(codes) = spec_encode_at(tokens, en@, 0, 0) {
                lemma_repl_refs_sorted(prev.0, e.references@, e.og_ptr, codes);
            }
        }
    }
}


/// A packer refusal as reported: the string and reference it concerns, or
/// the whole file.
pub open spec fn pack_refusal_line(r: Refusal) -> Seq<char> {
    match r.key {
        Some(k) => "0x"@ + hex(k.1 as nat, 1) + " (ref 0x"@ + hex(k.0 as nat, 1) + "): "@ + refusal_text(r.why),
        None => "file: "@ + refusal_text(r.why),
    }
}

/// A line of the re-walk's report, as reported.
pub open spec fn verify_line(b: Seq<char>) -> Seq<char> {
    "verify: "@ + b
}

fn pack_lines(rs: &Vec<Refusal>) -> (lines: Vec<String>)
    ensures
        lines@.map_values(|x: String| x@) == rs@.map_values(|x: Refusal| pack_refusal_line(x)),
{
    let mut lines: Vec<String> = Vec::new();
    let mut k: usize = 0;
    while k < rs.len()
        invariant
            k <= rs@.len(),
            lines@.map_values(|x: String| x@) == rs@.take(k as int).map_values(|x: Refusal| pack_refusal_line(x)),
        decreases rs@.len() - k,
    {
        let why = rs[k].why.message();
        let mut o: Vec<char> = Vec::new();
        match rs[k].key {
            Some((at, off)) => {
                push_str(&mut o, "0x");
                push_hex(&mut o, off as u64, 1);
                push_str(&mut o, " (ref 0x");
                push_hex(&mut o, at as u64, 1);
                push_str(&mut o, "): ");
                push_str(&mut o, why.as_str());
            },
            None => {
                push_str(&mut o, "file: ");
                push_str(&mut o, why.as_str());
            },
        }
        let line = string_of(o.as_slice());
        let ghost before = lines@;
        let ghost lv = line@;
        lines.push(line);
        proof {
            assert(lv == pack_refusal_line(rs@[k as int]));
            assert(rs@.take(k + 1) =~= rs@.take(k as int).push(rs@[k as int]));
            assert(lines@ == before.push(line));
            assert(lines@.map_values(|x: String| x@) =~= before.map_values(|x: String| x@).push(lv));
            assert(lines@.map_values(|x: String| x@) =~= rs@.take(k + 1).map_values(|x: Refusal| pack_refusal_line(x)));
        }
        k = k + 1;
    }
    proof {
        assert(rs@.take(rs@.len() as int) =~= rs@);
    }
    lines
}

fn verify_lines(report: &Vec<String>) -> (lines: Vec<String>)
    ensures
        lines@.map_values(|x: String| x@) == report@.map_values(|x: String| verify_line(x@)),
{
    let mut lines: Vec<String> = Vec::new();
    let mut k: usize = 0;
    while k < report.len()
        invariant
            k <= report@.len(),
            lines@.map_values(|x: String| x@) == report@.take(k as int).map_values(|x: String| verify_line(x@)),
        decreases report@.len() - k,
    {
        let mut o: Vec<char> = Vec::new();
        push_str(&mut o, "verify: ");
        push_str(&mut o, report[k].as_str());
        let line = string_of(o.as_slice());
        let ghost before = lines@;
        let ghost lv = line@;
        lines.push(line);
        proof {
            assert(lv == verify_line(report@[k as int]@));
            assert(report@.take(k + 1) =~= report@.take(k as int).push(report@[k as int]));
            assert(lines@ == before.push(line));
            assert(lines@.map_values(|x: String| x@) =~= before.map_values(|x: String| x@).push(lv));
            assert(lines@.map_values(|x: String| x@) =~= report@.take(k + 1).map_values(|x: String| verify_line(x@)));
        }
        k = k + 1;
    }
    proof {
        assert(report@.take(report@.len() as int) =~= report@);
    }
    lines
}

/// What patching one script gave.
pub struct SptOutcome {
    /// the bytes to write: the patched script, or the original when refused
    pub bytes: Vec<u8>,
    /// why the translation was refused; empty when it was written
    pub refusals: Vec<String>,
    /// how many (reference, offset) pairs were given a translation
    pub replacements: usize,
}

/// What follows a successful pack: the re-walk's report, then, for TITLE,
/// its legacy name slots.
pub open spec fn after_pack(buf: Seq<u8>, packed: Seq<u8>, report: Seq<Seq<char>>, tokens: Map<Seq<char>, u16>, title: bool, r: Result<SptOutcome, String>) -> bool {
    if report.len() > 0 {
        r is Ok && r->Ok_0.bytes@ == buf && r->Ok_0.refusals@.map_values(|x: String| x@) == report.map_values(|b: Seq<char>| verify_line(b))
    } else if !title {
        r is Ok && r->Ok_0.bytes@ == packed && r->Ok_0.refusals@.len() == 0
    } else {
        match title_run(packed, tokens, 7).1 {
            Some(m) => r is Err && r->Err_0@ == m,
            None => r is Ok && r->Ok_0.bytes@ == title_run(packed, tokens, 7).0 && r->Ok_0.refusals@.len() == 0,
        }
    }
}

/// A packed file is never shorter than the script it came from.
proof fn lemma_packed_len(buf: Seq<u8>, p: Plan, rs: Seq<Replacement>, gs: Seq<Group>, r: Result<Packed, Vec<Refusal>>)
    requires
        pack_result(buf, p, rs, gs, r),
        p.record_cursor <= buf.len(),
    ensures
        r matches Ok(pk) ==> pk.bytes@.len() >= buf.len(),
{
    let at0 = p.record_cursor as int;
    let blob = crate::pack::blob_of(gs);
    let pad = crate::pack::pad_of(blob.len() as int);
    assert(buf.take(at0).len() == at0);
    assert(buf.skip(at0).len() == buf.len() - at0);
    assert(arena_base(buf, at0, blob).len() >= buf.len());
}

/// Apply one `.SPT.patch`: refuse on any string that does not encode; else
/// pack, walk the result again and compare, and for TITLE give the legacy
/// name slots their Latin defaults. Every refusal writes the original
/// through: over a name cap the fixed copy loses its terminator, so
/// clipping silently would corrupt the game. A refused TITLE slot is an
/// error of the whole run.
#[verifier::spinoff_prover]
#[verifier::rlimit(40)]
pub fn patch_spt(buf: &[u8], entries: &[TLEntry], glyphs: &HashMap<u16, String>, encoder: &Encoder, title: bool) -> (r: Result<SptOutcome, String>)
    requires
        encoder.wf(),
        // with every text encoded the packed file is checked from the record cursor on
        repl_run(entries@, encoder.tokens(), entries@.len() as int).1.len() == 0 ==> spec_w(buf@, 0, 0) <= buf@.len(),
    ensures
        ({
            let rr = repl_run(entries@, encoder.tokens(), entries@.len() as int);
            &&& r matches Ok(o) ==> o.replacements == rr.0.len()
            &&& rr.1.len() > 0 ==> r is Ok && r->Ok_0.bytes@ == buf@ && r->Ok_0.refusals@.map_values(|x: String| x@) == rr.1
            &&& rr.1.len() == 0 ==> exists|p: Plan, rs: Seq<Replacement>, gs: Seq<Group>, pk: Result<Packed, Vec<Refusal>>|
                p.wf(buf@, glyphs@) && planned(buf@, glyphs@, p) && rs.map_values(|x: Replacement| repl_view(x)) == rr.0
                    && #[trigger] pack_result(buf@, p, rs, gs, pk) && match pk {
                    Err(es) => r is Ok && r->Ok_0.bytes@ == buf@ && r->Ok_0.refusals@.map_values(|x: String| x@) == es@.map_values(
                        |x: Refusal| pack_refusal_line(x),
                    ),
                    Ok(packed) => exists|a: Plan, b: Plan|
                        a.wf(buf@, glyphs@) && b.wf(packed.bytes@, glyphs@) && planned(buf@, glyphs@, a) && planned(packed.bytes@, glyphs@, b)
                            && after_pack(
                            buf@,
                            packed.bytes@,
                            #[trigger] verify_report(buf@, packed.bytes@, rs, glyphs@, a, b),
                            encoder.tokens(),
                            title,
                            r,
                        ),
                }
        }),
        // a refused script is written through untouched
        r is Ok && r->Ok_0.refusals@.len() > 0 ==> r->Ok_0.bytes@ == buf@,
{
    let (repl, refusals) = spt_replacements(entries, encoder);
    let n = repl.len();
    if refusals.len() > 0 {
        let mut bytes: Vec<u8> = Vec::new();
        crate::longname::append_bytes(&mut bytes, buf);
        return Ok(SptOutcome { bytes, refusals, replacements: n });
    }
    let p = plan(buf, glyphs);
    proof {
        lemma_plan_packable(buf@, glyphs@, p);
        lemma_repl_run_sorted(entries@, encoder.tokens(), entries@.len() as int);
        assert forall|i: int, j: int| 0 <= i < j < repl@.len() implies key_lt((#[trigger] repl@[i]).at, repl@[i].offset, (#[trigger] repl@[j]).at, repl@[j].offset) by {
            assert(repl_view(repl@[i]) == repl@.map_values(|x: Replacement| repl_view(x))[i]);
            assert(repl_view(repl@[j]) == repl@.map_values(|x: Replacement| repl_view(x))[j]);
        }
    }
    let res = pack(buf, &p, repl.as_slice());
    let ghost gs = choose|gs: Seq<Group>| #[trigger] pack_result(buf@, p, repl@, gs, res);
    proof {
        lemma_packed_len(buf@, p, repl@, gs, res);
    }
    match res {
        Err(rs) => {
            let lines = pack_lines(&rs);
            let mut bytes: Vec<u8> = Vec::new();
            crate::longname::append_bytes(&mut bytes, buf);
            proof {
                assert(bytes@ =~= buf@);
            }
            Ok(SptOutcome { bytes, refusals: lines, replacements: n })
        },
        Ok(packed) => {
            let report = verify(buf, packed.bytes.as_slice(), repl.as_slice(), glyphs);
            if report.len() > 0 {
                let lines = verify_lines(&report);
                proof {
                    assert(report@.map_values(|x: String| x@).map_values(|b: Seq<char>| verify_line(b)) =~= report@.map_values(
                        |x: String| verify_line(x@),
                    ));
                }
                let mut bytes: Vec<u8> = Vec::new();
                crate::longname::append_bytes(&mut bytes, buf);
                proof {
                    assert(bytes@ =~= buf@);
                }
                return Ok(SptOutcome { bytes, refusals: lines, replacements: n });
            }
            let mut bytes = packed.bytes;
            if title {
                patch_title_default_names(&mut bytes, encoder)?;
            }
            Ok(SptOutcome { bytes, refusals: Vec::new(), replacements: n })
        },
    }
}

} // verus!
