//! The `main.dol` patcher: every translated string is encoded and either
//! appended to the translation arena with each reference moved to it, or,
//! for a name that feeds a fixed-size copy, put in the long-name bank behind
//! a redirect stub. Then the bank, the resolvers, the redirect caves and the
//! runtime arena are laid out, and the patched image is written.

use vstd::prelude::*;
use crate::bytes::{be16_seq, be16_bytes, be32_bytes, push_be16, lemma_be16_seq_len};
use crate::constants::{WalkerHook, NameCap, explicit_shapes, cpu_names, inline_fields, InlineField};
use crate::dol::{point_at, point_updates, pairs_in, refs_cap, dol_entry_cap, DolError, TRANSLATION_ARENA_RAM,
    RETAIL_BSS_END, MEM1_END_RAM, reviewed_refs_spec, aligned_32, resolver_updates, resolver_sites, arena_sites,
    arena_lo_updates, caves_result, ram_word_in, hook_sites, reviewed_immediate_refs, patch_spt_resolvers,
    install_redirect_caves, patch_runtime_arena_lo, align_32, word};
use crate::longname::{bank_bytes, bank_len, ptrs_at, STUB_STRIDE, append_bytes, LongNameBank, BankError, bank_error_text, spec_is_redirect, LONG_NAME_GLYPHS, LONG_NAME_INDICES, TERMINATOR};
use crate::ppc::{ImmRef, Rejection, reject_text, Scan, scan, Relocatable, refs_ok, covers, usable_for, pair_ok, scan_spec, sorted_entries};
use crate::shape::{DolHeader, Section, SECTIONS, HEADER_READ_BYTES, DATA0, DATA7, DATA8, TEXT2, header_bytes, find_ram_addr, raw_section, raw_word};
use crate::sorted_map::SortedMap;
use crate::text::{hex, push_str, push_hex, string_of, chars_of, append_chars, debug_quoted, quote_debug};
use crate::utils::{TLEntry, Encoder, spec_encode_at, encode_error_text, encodable, pairs_map, renderings_unique};
use crate::sorted_map::{keys_sorted, seq_map, seq_has, lemma_sorted_lookup};

verus! {

broadcast use {crate::shape::lemma_fits_ram_maps, crate::shape::lemma_fits_file_maps};

/// `0x` and the lowercase hex of `v`.
pub open spec fn hx(v: u32) -> Seq<char> {
    "0x"@ + hex(v as nat, 1)
}

/// A refused translation: the string's offset, why, and the English quoted.
pub open spec fn refusal_line(og: u32, why: Seq<char>, en: Seq<char>) -> Seq<char> {
    hx(og) + ": "@ + why + ": "@ + debug_quoted(en)
}

/// The offsets, each as `0x..`, separated by spaces.
pub open spec fn hx_join(refs: Seq<u32>) -> Seq<char>
    decreases refs.len(),
{
    if refs.len() == 0 {
        Seq::empty()
    } else if refs.len() == 1 {
        hx(refs[0])
    } else {
        hx_join(refs.drop_last()) + " "@ + hx(refs.last())
    }
}

/// Why a string stays Japanese: code references it where the scan found no
/// pair to rewrite.
pub open spec fn unrewritable_note(og: u32, refs: Seq<u32>) -> Seq<char> {
    hx(og) + ": leaving the original, code references it at "@ + hx_join(refs)
        + " and the scan will not rewrite that"@
}

/// Why a string stays Japanese: the code addresses it in a way that is not
/// rewritten.
pub open spec fn rejected_note(og: u32, why: Seq<char>) -> Seq<char> {
    hx(og) + ": leaving the original, code addresses it in a way we will not rewrite: "@ + why
}

/// A translation as stored: the big-endian codes, then the terminator.
pub open spec fn en_bytes(codes: Seq<u16>) -> Seq<u8> {
    be16_seq(codes) + be16_bytes(TERMINATOR)
}

/// The references that are pointer words in data.
pub open spec fn data_refs(refs: Seq<u32>, data_start: u32) -> Seq<u32> {
    refs.filter(|r: u32| r >= data_start)
}

/// The references inside code that the scan knows no pair for.
pub open spec fn unrewritable(refs: Seq<u32>, data_start: u32, imm: Map<u32, ImmRef>) -> Seq<u32> {
    refs.filter(|r: u32| r < data_start && !imm.contains_key(r))
}

/// `x` put into `o` before the first element not below it, unless that
/// element is `x`.
pub open spec fn insert_sorted(o: Seq<u32>, x: u32) -> Seq<u32>
    decreases o.len(),
{
    if o.len() == 0 {
        seq![x]
    } else if x < o[0] {
        seq![x] + o
    } else if x == o[0] {
        o
    } else {
        seq![o[0]] + insert_sorted(o.drop_first(), x)
    }
}

/// `s` sorted, each value once.
pub open spec fn sort_dedup(s: Seq<u32>) -> Seq<u32>
    decreases s.len(),
{
    if s.len() == 0 {
        Seq::empty()
    } else {
        insert_sorted(sort_dedup(s.drop_last()), s.last())
    }
}

/// The low halves of the usable pairs that build string `og`.
pub open spec fn pair_refs(usable: Map<u32, Seq<ImmRef>>, og: u32) -> Seq<u32> {
    if usable.contains_key(og) {
        usable[og].map_values(|r: ImmRef| r.lo_off)
    } else {
        Seq::empty()
    }
}

/// `og` is the start of an inline record: it has no reference to move, and
/// the one inline run is not stubbed, so it stays as it is.
pub open spec fn in_inline(h: Seq<Section>, og: u32) -> bool {
    find_ram_addr(h, og, 0) matches Some(ram) && cpu_names().spec_record(ram) is Some
}

/// What taking `codes` into a bank that holds `names` gives.
pub open spec fn intern_result(names: Seq<Seq<u16>>, codes: Seq<u16>) -> Result<u32, BankError> {
    if codes.len() > LONG_NAME_GLYPHS {
        Err(BankError::TooLong { glyphs: codes.len() as usize })
    } else if codes.len() > 0 && spec_is_redirect(codes[0]) {
        Err(BankError::BeginsWithRedirect)
    } else if names.len() >= LONG_NAME_INDICES {
        Err(BankError::Full)
    } else {
        Ok(names.len() as u32)
    }
}

/// What the pass over the entries has gathered.
pub ghost struct Gather {
    /// the relocated strings, in order
    pub appended: Seq<u8>,
    /// file offset -> the word to write there
    pub updates: Map<u32, u32>,
    /// the long names, in bank order
    pub names: Seq<Seq<u16>>,
    /// references waiting for the bank's address, with their name's index
    pub stubs: Seq<(Seq<u32>, u32)>,
    /// translations refused
    pub refusals: Seq<Seq<char>>,
    /// strings left Japanese, and why
    pub notes: Seq<Seq<char>>,
}

pub open spec fn with_refusal(g: Gather, line: Seq<char>) -> Gather {
    Gather { appended: g.appended, updates: g.updates, names: g.names, stubs: g.stubs, refusals: g.refusals.push(line), notes: g.notes }
}

pub open spec fn with_note(g: Gather, line: Seq<char>) -> Gather {
    Gather { appended: g.appended, updates: g.updates, names: g.names, stubs: g.stubs, refusals: g.refusals, notes: g.notes.push(line) }
}

/// One entry of the pass, translated with `codes` and not inline.
pub open spec fn place_step(
    g: Gather,
    e: TLEntry,
    en: Seq<char>,
    codes: Seq<u16>,
    h: Seq<Section>,
    buf: Seq<u8>,
    imm: Map<u32, ImmRef>,
    usable: Map<u32, Seq<ImmRef>>,
    rejected: Map<u32, Rejection>,
) -> Result<Gather, DolError> {
    let ds = h[DATA0 as int].file;
    let bad = unrewritable(e.references@, ds, imm);
    if bad.len() > 0 {
        Ok(with_note(g, unrewritable_note(e.og_ptr, bad)))
    } else {
        let all = sort_dedup(data_refs(e.references@, ds) + pair_refs(usable, e.og_ptr));
        if all.len() == 0 {
            Ok(g)
        } else if (find_ram_addr(h, e.og_ptr, 0) matches Some(ram) && rejected.contains_key(ram)) {
            Ok(with_note(g, rejected_note(e.og_ptr, reject_text(rejected[find_ram_addr(h, e.og_ptr, 0).unwrap()].why))))
        } else if refs_cap(h, explicit_shapes(), e.references@, 0) == NameCap::Stub {
            match intern_result(g.names, codes) {
                Ok(idx) => Ok(
                    Gather {
                        appended: g.appended,
                        updates: g.updates,
                        names: g.names.push(codes),
                        stubs: g.stubs.push((all, idx)),
                        refusals: g.refusals,
                        notes: g.notes,
                    },
                ),
                Err(be) => Ok(with_refusal(g, refusal_line(e.og_ptr, bank_error_text(be), en))),
            }
        } else if TRANSLATION_ARENA_RAM + g.appended.len() > u32::MAX {
            Err(DolError::TooLarge)
        } else {
            let new_ram = (TRANSLATION_ARENA_RAM + g.appended.len()) as u32;
            Ok(
                Gather {
                    appended: g.appended + en_bytes(codes),
                    updates: point_updates(buf, imm, all, new_ram, all.len() as int, g.updates),
                    names: g.names,
                    stubs: g.stubs,
                    refusals: g.refusals,
                    notes: g.notes,
                },
            )
        }
    }
}

/// A translation relocated into the appended section reads back, from where
/// it was put, as its codes and then the terminator; nothing appended before
/// it changes, and nothing follows it.
pub proof fn lemma_placed_translation_terminated(
    g: Gather,
    e: TLEntry,
    en: Seq<char>,
    codes: Seq<u16>,
    h: Seq<Section>,
    buf: Seq<u8>,
    imm: Map<u32, ImmRef>,
    usable: Map<u32, Seq<ImmRef>>,
    rejected: Map<u32, Rejection>,
)
    requires
        place_step(g, e, en, codes, h, buf, imm, usable, rejected) matches Ok(g2) && g2.appended.len() > g.appended.len(),
    ensures
        ({
            let g2 = place_step(g, e, en, codes, h, buf, imm, usable, rejected)->Ok_0;
            let at = g.appended.len() as int;
            &&& g2.appended.len() == at + 2 * codes.len() + 2
            &&& g2.appended.take(at) == g.appended
            &&& forall|k: int| 0 <= k < codes.len() ==> #[trigger] crate::bytes::spec_u16_at(g2.appended, at + 2 * k) == Some(codes[k])
            &&& crate::bytes::spec_u16_at(g2.appended, at + 2 * codes.len()) == Some(TERMINATOR)
        }),
{
    let g2 = place_step(g, e, en, codes, h, buf, imm, usable, rejected)->Ok_0;
    assert(g2.appended == g.appended + en_bytes(codes));
    lemma_be16_seq_len(codes);
    crate::bytes::lemma_codes_then(g.appended, codes, TERMINATOR, Seq::empty());
    assert(g.appended + be16_seq(codes) + be16_bytes(TERMINATOR) + Seq::<u8>::empty() =~= g2.appended);
    assert(g2.appended.take(g.appended.len() as int) =~= g.appended);
}

/// One entry of the pass.
pub open spec fn gather_step(
    g: Gather,
    e: TLEntry,
    h: Seq<Section>,
    buf: Seq<u8>,
    imm: Map<u32, ImmRef>,
    usable: Map<u32, Seq<ImmRef>>,
    rejected: Map<u32, Rejection>,
    tokens: Map<Seq<char>, u16>,
) -> Result<Gather, DolError> {
    match e.en_string {
        None => Ok(g),
        Some(en) => match spec_encode_at(tokens, en@, 0, 0) {
            Err(x) => Ok(with_refusal(g, refusal_line(e.og_ptr, encode_error_text(x.0, x.1), en@))),
            Ok(codes) => if in_inline(h, e.og_ptr) {
                Ok(g)
            } else {
                place_step(g, e, en@, codes, h, buf, imm, usable, rejected)
            },
        },
    }
}

/// The first `n` entries, in order.
pub open spec fn gather_run(
    g0: Gather,
    es: Seq<TLEntry>,
    n: int,
    h: Seq<Section>,
    buf: Seq<u8>,
    imm: Map<u32, ImmRef>,
    usable: Map<u32, Seq<ImmRef>>,
    rejected: Map<u32, Rejection>,
    tokens: Map<Seq<char>, u16>,
) -> Result<Gather, DolError>
    decreases n,
{
    if n <= 0 {
        Ok(g0)
    } else {
        match gather_run(g0, es, n - 1, h, buf, imm, usable, rejected, tokens) {
            Err(e) => Err(e),
            Ok(g) => gather_step(g, es[n - 1], h, buf, imm, usable, rejected, tokens),
        }
    }
}

/// A refused translation writes nothing: the step that refuses an entry
/// leaves the relocated strings, the pointer and instruction updates, the
/// long names and their stubs as they were, so the references keep naming the
/// Japanese.
pub proof fn lemma_refusal_writes_nothing(
    g: Gather,
    e: TLEntry,
    h: Seq<Section>,
    buf: Seq<u8>,
    imm: Map<u32, ImmRef>,
    usable: Map<u32, Seq<ImmRef>>,
    rejected: Map<u32, Rejection>,
    tokens: Map<Seq<char>, u16>,
    g2: Gather,
)
    requires
        gather_step(g, e, h, buf, imm, usable, rejected, tokens) == Ok::<Gather, DolError>(g2),
        g2.refusals.len() > g.refusals.len(),
    ensures
        g2.appended == g.appended,
        g2.updates == g.updates,
        g2.names == g.names,
        g2.stubs == g.stubs,
        g2.refusals == g.refusals.push(g2.refusals.last()),
{
}

/// Nothing gathered yet.
pub open spec fn gather_empty() -> Gather {
    Gather {
        appended: Seq::empty(),
        updates: Map::empty(),
        names: Seq::empty(),
        stubs: Seq::empty(),
        refusals: Seq::empty(),
        notes: Seq::empty(),
    }
}

/// The gathered state, as the pass holds it.
pub struct Gathered {
    pub appended: Vec<u8>,
    pub updates: SortedMap<u32>,
    pub bank: LongNameBank,
    pub stubs: Vec<(Vec<u32>, u32)>,
    pub refusals: Vec<String>,
    pub notes: Vec<String>,
}

impl Gathered {
    pub open spec fn view(&self) -> Gather {
        Gather {
            appended: self.appended@,
            updates: self.updates@,
            names: self.bank@,
            stubs: self.stubs@.map_values(|s: (Vec<u32>, u32)| (s.0@, s.1)),
            refusals: self.refusals@.map_values(|s: String| s@),
            notes: self.notes@.map_values(|s: String| s@),
        }
    }

    pub open spec fn wf(&self) -> bool {
        &&& self.updates.wf()
        &&& self.bank.wf()
        &&& forall|i: int| 0 <= i < self.stubs@.len() ==> (#[trigger] self.stubs@[i]).1 < self.bank@.len()
    }
}


/// Append `hx(v)`.
fn push_hx(out: &mut Vec<char>, v: u32)
    ensures
        final(out)@ == old(out)@ + hx(v),
{
    push_str(out, "0x");
    push_hex(out, v as u64, 1);
    proof {
        reveal_strlit("0x");
    }
}

/// Append `hx_join(refs)`.
fn push_hx_join(out: &mut Vec<char>, refs: &[u32])
    ensures
        final(out)@ == old(out)@ + hx_join(refs@),
{
    let ghost start = out@;
    let mut i: usize = 0;
    while i < refs.len()
        invariant
            i <= refs@.len(),
            out@ == start + hx_join(refs@.take(i as int)),
        decreases refs@.len() - i,
    {
        if i > 0 {
            push_str(out, " ");
        }
        push_hx(out, refs[i]);
        proof {
            let t = refs@.take(i + 1);
            assert(t.drop_last() =~= refs@.take(i as int));
            if i == 0 {
                assert(refs@.take(0) =~= Seq::<u32>::empty());
            }
            assert(out@ =~= start + hx_join(t));
        }
        i = i + 1;
    }
    assert(refs@.take(refs@.len() as int) =~= refs@);
}

/// `refusal_line` as a string.
fn refusal_string(og: u32, why: &str, en: &str) -> (s: String)
    ensures
        s@ == refusal_line(og, why@, en@),
{
    let mut o: Vec<char> = Vec::new();
    push_hx(&mut o, og);
    push_str(&mut o, ": ");
    push_str(&mut o, why);
    push_str(&mut o, ": ");
    let q = quote_debug(en);
    push_str(&mut o, q.as_str());
    proof {
        assert(o@ =~= refusal_line(og, why@, en@));
    }
    string_of(o.as_slice())
}

/// The references in data, and those in code with no known pair.
fn split_refs(refs: &[u32], data_start: u32, imm: &SortedMap<ImmRef>) -> (r: (Vec<u32>, Vec<u32>))
    requires
        imm.wf(),
    ensures
        r.0@ == data_refs(refs@, data_start),
        r.1@ == unrewritable(refs@, data_start, imm@),
{
    let mut data: Vec<u32> = Vec::new();
    let mut bad: Vec<u32> = Vec::new();
    let mut i: usize = 0;
    while i < refs.len()
        invariant
            i <= refs@.len(),
            imm.wf(),
            data@ == data_refs(refs@.take(i as int), data_start),
            bad@ == unrewritable(refs@.take(i as int), data_start, imm@),
        decreases refs@.len() - i,
    {
        let r = refs[i];
        proof {
            assert(refs@.take(i + 1) =~= refs@.take(i as int).push(r));
            refs@.take(i as int).lemma_filter_push(r, |x: u32| x >= data_start);
            refs@.take(i as int).lemma_filter_push(r, |x: u32| x < data_start && !imm@.contains_key(x));
        }
        if r >= data_start {
            data.push(r);
        } else if !imm.contains_key(r) {
            bad.push(r);
        }
        i = i + 1;
    }
    proof {
        assert(refs@.take(refs@.len() as int) =~= refs@);
    }
    (data, bad)
}

proof fn lemma_insert_prefix(o: Seq<u32>, x: u32, i: int)
    requires
        0 <= i <= o.len(),
        forall|k: int| 0 <= k < i ==> o[k] < x,
    ensures
        insert_sorted(o, x) == o.take(i) + insert_sorted(o.skip(i), x),
    decreases i,
{
    if i == 0 {
        assert(o.skip(0) =~= o);
        assert(o.take(0) + insert_sorted(o, x) =~= insert_sorted(o, x));
    } else {
        let t = o.drop_first();
        assert forall|k: int| 0 <= k < i - 1 implies t[k] < x by {
            assert(t[k] == o[k + 1]);
        }
        lemma_insert_prefix(t, x, i - 1);
        assert(t.skip(i - 1) =~= o.skip(i));
        assert(seq![o[0]] + t.take(i - 1) =~= o.take(i));
        assert(seq![o[0]] + (t.take(i - 1) + insert_sorted(t.skip(i - 1), x)) =~= o.take(i) + insert_sorted(o.skip(i), x));
    }
}

/// Put `x` into `o` the way `insert_sorted` does.
fn insert_sorted_exec(o: &mut Vec<u32>, x: u32)
    ensures
        final(o)@ == insert_sorted(old(o)@, x),
{
    let mut i: usize = 0;
    let mut stop = false;
    while !stop && i < o.len()
        invariant
            i <= o@.len(),
            forall|k: int| 0 <= k < i ==> o@[k] < x,
            stop ==> i < o@.len() && o@[i as int] >= x,
        decreases o@.len() - i + (if stop { 0int } else { 1int }),
    {
        if o[i] >= x {
            stop = true;
        } else {
            i = i + 1;
        }
    }
    proof {
        lemma_insert_prefix(o@, x, i as int);
    }
    if i == o.len() {
        proof {
            assert(o@.skip(i as int) =~= Seq::<u32>::empty());
            assert(o@.take(i as int) + seq![x] =~= o@.push(x));
        }
        o.push(x);
    } else if o[i] != x {
        proof {
            assert(o@.skip(i as int)[0] == o@[i as int]);
            assert(o@.take(i as int) + (seq![x] + o@.skip(i as int)) =~= o@.insert(i as int, x));
        }
        o.insert(i, x);
    } else {
        proof {
            assert(o@.skip(i as int)[0] == o@[i as int]);
            assert(o@.take(i as int) + o@.skip(i as int) =~= o@);
        }
    }
}

/// Values strictly increase along `o`.
pub open spec fn increasing(o: Seq<u32>) -> bool {
    forall|i: int, j: int| 0 <= i < j < o.len() ==> o[i] < o[j]
}

proof fn lemma_insert_sorted_increasing(o: Seq<u32>, x: u32)
    requires
        increasing(o),
    ensures
        increasing(insert_sorted(o, x)),
        insert_sorted(o, x).len() > 0,
        o.len() == 0 || x <= o[0] ==> insert_sorted(o, x)[0] == x,
        o.len() > 0 && o[0] < x ==> insert_sorted(o, x)[0] == o[0],
    decreases o.len(),
{
    if o.len() > 0 && o[0] < x {
        let t = o.drop_first();
        assert(increasing(t)) by {
            assert forall|i: int, j: int| 0 <= i < j < t.len() implies t[i] < t[j] by {
                assert(t[i] == o[i + 1] && t[j] == o[j + 1]);
            }
        }
        lemma_insert_sorted_increasing(t, x);
        let r = insert_sorted(t, x);
        assert(o[0] < r[0]) by {
            if t.len() > 0 && t[0] < x {
                assert(t[0] == o[1]);
            }
        }
        assert forall|i: int, j: int| 0 <= i < j < insert_sorted(o, x).len() implies insert_sorted(o, x)[i] < insert_sorted(o, x)[j] by {
            if i > 0 {
                assert(insert_sorted(o, x)[i] == r[i - 1]);
            }
            assert(insert_sorted(o, x)[j] == r[j - 1]);
            if i == 0 && j > 1 {
                assert(r[0] < r[j - 1]);
            }
        }
    } else if o.len() > 0 && x == o[0] {
    } else {
        assert forall|i: int, j: int| 0 <= i < j < insert_sorted(o, x).len() implies insert_sorted(o, x)[i] < insert_sorted(o, x)[j] by {
            assert(insert_sorted(o, x)[j] == o[j - 1]);
            if i > 0 {
                assert(insert_sorted(o, x)[i] == o[i - 1]);
            } else if j > 1 {
                assert(o[0] < o[j - 1]);
            }
        }
    }
}

/// `sort_dedup` gives each value once, in increasing order, so at most one
/// per `u32`.
pub proof fn lemma_sort_dedup_increasing(s: Seq<u32>)
    ensures
        increasing(sort_dedup(s)),
        sort_dedup(s).len() <= 0x1_0000_0000,
    decreases s.len(),
{
    if s.len() > 0 {
        lemma_sort_dedup_increasing(s.drop_last());
        lemma_insert_sorted_increasing(sort_dedup(s.drop_last()), s.last());
    }
    let o = sort_dedup(s);
    if o.len() > 0x1_0000_0000 {
        lemma_increasing_floor(o, 0x1_0000_0000);
    }
}

proof fn lemma_increasing_floor(o: Seq<u32>, i: int)
    requires
        increasing(o),
        0 <= i < o.len(),
    ensures
        o[i] >= i,
    decreases i,
{
    if i > 0 {
        lemma_increasing_floor(o, i - 1);
    }
}

proof fn lemma_insert_sorted_contains(o: Seq<u32>, x: u32, y: u32)
    ensures
        insert_sorted(o, x).contains(y) <==> (o.contains(y) || y == x),
    decreases o.len(),
{
    let r = insert_sorted(o, x);
    if o.len() == 0 {
        assert(r[0] == x);
    } else if x < o[0] {
        if o.contains(y) {
            let i = choose|i: int| 0 <= i < o.len() && o[i] == y;
            assert(r[i + 1] == y);
        }
        if r.contains(y) {
            let i = choose|i: int| 0 <= i < r.len() && r[i] == y;
            if i > 0 {
                assert(o[i - 1] == y);
            }
        }
        assert(r[0] == x);
    } else if x == o[0] {
        assert(o[0] == x);
    } else {
        let t = o.drop_first();
        lemma_insert_sorted_contains(t, x, y);
        let rt = insert_sorted(t, x);
        assert(r == seq![o[0]] + rt);
        if o.contains(y) {
            let i = choose|i: int| 0 <= i < o.len() && o[i] == y;
            if i > 0 {
                assert(t[i - 1] == y);
                let k = choose|k: int| 0 <= k < rt.len() && rt[k] == y;
                assert(r[k + 1] == y);
            } else {
                assert(r[0] == y);
            }
        }
        if y == x {
            let k = choose|k: int| 0 <= k < rt.len() && rt[k] == y;
            assert(r[k + 1] == y);
        }
        if r.contains(y) {
            let i = choose|i: int| 0 <= i < r.len() && r[i] == y;
            if i > 0 {
                assert(rt[i - 1] == y);
                if t.contains(y) {
                    let k = choose|k: int| 0 <= k < t.len() && t[k] == y;
                    assert(o[k + 1] == y);
                }
            } else {
                assert(o[0] == y);
            }
        }
    }
}

/// `sort_dedup(s)` holds exactly the values of `s`.
pub proof fn lemma_sort_dedup_contains(s: Seq<u32>, y: u32)
    ensures
        sort_dedup(s).contains(y) <==> s.contains(y),
    decreases s.len(),
{
    if s.len() > 0 {
        let d = s.drop_last();
        lemma_sort_dedup_contains(d, y);
        lemma_insert_sorted_contains(sort_dedup(d), s.last(), y);
        if s.contains(y) {
            let i = choose|i: int| 0 <= i < s.len() && s[i] == y;
            if i < s.len() - 1 {
                assert(d[i] == y);
            }
        }
        if d.contains(y) {
            let i = choose|i: int| 0 <= i < d.len() && d[i] == y;
            assert(s[i] == y);
        }
    }
}

/// Two increasing sequences with the same values are the same sequence.
pub proof fn lemma_increasing_unique(a: Seq<u32>, b: Seq<u32>)
    requires
        increasing(a),
        increasing(b),
        forall|y: u32| a.contains(y) <==> b.contains(y),
    ensures
        a == b,
    decreases a.len(),
{
    if a.len() == 0 {
        if b.len() > 0 {
            assert(b.contains(b[0]));
        }
        assert(a =~= b);
    } else {
        assert(a.contains(a[0]));
        assert(b.contains(a[0]));
        assert(b.contains(b[0]));
        assert(a.contains(b[0]));
        let j = choose|j: int| 0 <= j < b.len() && b[j] == a[0];
        let i = choose|i: int| 0 <= i < a.len() && a[i] == b[0];
        if i > 0 {
            assert(a[0] < a[i]);
        }
        if j > 0 {
            assert(b[0] < b[j]);
        }
        assert(a[0] == b[0]);
        let a1 = a.drop_first();
        let b1 = b.drop_first();
        assert(increasing(a1)) by {
            assert forall|p: int, q: int| 0 <= p < q < a1.len() implies a1[p] < a1[q] by {
                assert(a1[p] == a[p + 1] && a1[q] == a[q + 1]);
            }
        }
        assert(increasing(b1)) by {
            assert forall|p: int, q: int| 0 <= p < q < b1.len() implies b1[p] < b1[q] by {
                assert(b1[p] == b[p + 1] && b1[q] == b[q + 1]);
            }
        }
        assert forall|y: u32| a1.contains(y) <==> b1.contains(y) by {
            if a1.contains(y) {
                let k = choose|k: int| 0 <= k < a1.len() && a1[k] == y;
                assert(a[k + 1] == y && a[0] < a[k + 1]);
                assert(b.contains(y));
                let m = choose|m: int| 0 <= m < b.len() && b[m] == y;
                assert(m > 0);
                assert(b1[m - 1] == y);
            }
            if b1.contains(y) {
                let k = choose|k: int| 0 <= k < b1.len() && b1[k] == y;
                assert(b[k + 1] == y && b[0] < b[k + 1]);
                assert(a.contains(y));
                let m = choose|m: int| 0 <= m < a.len() && a[m] == y;
                assert(m > 0);
                assert(a1[m - 1] == y);
            }
        }
        lemma_increasing_unique(a1, b1);
        assert(a =~= seq![a[0]] + a1);
        assert(b =~= seq![b[0]] + b1);
    }
}

/// `sort_dedup(s)`.
pub fn sort_dedup_exec(s: &[u32]) -> (out: Vec<u32>)
    ensures
        out@ == sort_dedup(s@),
{
    let mut out: Vec<u32> = Vec::new();
    let mut i: usize = 0;
    while i < s.len()
        invariant
            i <= s@.len(),
            out@ == sort_dedup(s@.take(i as int)),
        decreases s@.len() - i,
    {
        proof {
            assert(s@.take(i + 1).drop_last() =~= s@.take(i as int));
        }
        insert_sorted_exec(&mut out, s[i]);
        i = i + 1;
    }
    proof {
        assert(s@.take(s@.len() as int) =~= s@);
    }
    out
}

/// `pair_refs(usable@, og)`.
fn pair_refs_exec(usable: &SortedMap<Vec<ImmRef>>, og: u32) -> (out: Vec<u32>)
    requires
        usable.wf(),
    ensures
        out@ == pair_refs(usable@.map_values(|v: Vec<ImmRef>| v@), og),
{
    let mut out: Vec<u32> = Vec::new();
    match usable.get(og) {
        Some(pairs) => {
            let mut i: usize = 0;
            while i < pairs.len()
                invariant
                    i <= pairs@.len(),
                    out@ == pairs@.take(i as int).map_values(|r: ImmRef| r.lo_off),
                decreases pairs@.len() - i,
            {
                proof {
                    assert(pairs@.take(i + 1).map_values(|r: ImmRef| r.lo_off) =~= pairs@.take(i as int).map_values(
                        |r: ImmRef| r.lo_off,
                    ).push(pairs@[i as int].lo_off));
                }
                out.push(pairs[i].lo_off);
                i = i + 1;
            }
            proof {
                assert(pairs@.take(pairs@.len() as int) =~= pairs@);
            }
        },
        None => {
            assert(out@ =~= Seq::<u32>::empty());
        },
    }
    out
}

/// The stored bytes of a translation.
fn en_bytes_exec(codes: &[u16]) -> (out: Vec<u8>)
    ensures
        out@ == en_bytes(codes@),
{
    let mut out: Vec<u8> = Vec::new();
    let mut i: usize = 0;
    while i < codes.len()
        invariant
            i <= codes@.len(),
            out@ == be16_seq(codes@.take(i as int)),
        decreases codes@.len() - i,
    {
        proof {
            assert(codes@.take(i + 1).drop_last() =~= codes@.take(i as int));
        }
        push_be16(&mut out, codes[i]);
        i = i + 1;
    }
    proof {
        assert(codes@.take(codes@.len() as int) =~= codes@);
    }
    push_be16(&mut out, TERMINATOR);
    out
}


/// `a` then `b`.
fn concat_u32(a: &[u32], b: &[u32]) -> (out: Vec<u32>)
    ensures
        out@ == a@ + b@,
{
    let mut out: Vec<u32> = Vec::new();
    let mut i: usize = 0;
    while i < a.len()
        invariant
            i <= a@.len(),
            out@ == a@.take(i as int),
        decreases a@.len() - i,
    {
        proof {
            assert(a@.take(i + 1) =~= a@.take(i as int).push(a@[i as int]));
        }
        out.push(a[i]);
        i = i + 1;
    }
    let mut j: usize = 0;
    while j < b.len()
        invariant
            j <= b@.len(),
            i == a@.len(),
            out@ == a@.take(i as int) + b@.take(j as int),
        decreases b@.len() - j,
    {
        proof {
            assert(a@.take(i as int) + b@.take(j + 1) =~= (a@.take(i as int) + b@.take(j as int)).push(b@[j as int]));
        }
        out.push(b[j]);
        j = j + 1;
    }
    proof {
        assert(a@.take(i as int) + b@.take(j as int) =~= a@ + b@);
    }
    out
}

/// The inline field whose record starts at `ram`, if any.
fn inline_at(fields: &[InlineField], ram: u32) -> (r: Option<usize>)
    requires
        forall|i: int| 0 <= i < fields@.len() ==> (#[trigger] fields@[i]).wf(),
    ensures
        r matches Some(k) ==> k < fields@.len() && fields@[k as int].spec_record(ram) is Some,
        r is None ==> forall|k: int| 0 <= k < fields@.len() ==> (#[trigger] fields@[k]).spec_record(ram) is None,
{
    let mut k: usize = 0;
    while k < fields.len()
        invariant
            k <= fields@.len(),
            forall|i: int| 0 <= i < fields@.len() ==> (#[trigger] fields@[i]).wf(),
            forall|i: int| 0 <= i < k ==> (#[trigger] fields@[i]).spec_record(ram) is None,
        decreases fields@.len() - k,
    {
        if fields[k].record(ram).is_some() {
            return Some(k);
        }
        k = k + 1;
    }
    None
}

/// Take one entry into the pass: refuse it, leave it Japanese with a note,
/// put it in the bank behind a stub, or append it and move its references.
fn gather_entry(
    g: &mut Gathered,
    e: &TLEntry,
    header: &DolHeader,
    buf: &[u8],
    imm: &SortedMap<ImmRef>,
    usable: &SortedMap<Vec<ImmRef>>,
    rejected: &SortedMap<Rejection>,
    encoder: &Encoder,
) -> (r: Result<(), DolError>)
    requires
        old(g).wf(),
        header.wf(),
        header.fits(),
        imm.wf(),
        usable.wf(),
        rejected.wf(),
        encoder.wf(),
        pairs_in(buf@, imm@),
    ensures
        final(g).wf(),
        match gather_step(old(g).view(), *e, header.sections@, buf@, imm@, usable@.map_values(|v: Vec<ImmRef>| v@), rejected@, encoder.tokens()) {
            Ok(g2) => r is Ok && final(g).view() == g2,
            Err(x) => r == Err::<(), DolError>(x),
        },
{
    let ghost g0 = g.view();
    let en = match &e.en_string {
        Some(s) => s,
        None => {
            return Ok(());
        },
    };
    let codes = match encoder.encode(en.as_str()) {
        Ok(c) => c,
        Err(why) => {
            let line = refusal_string(e.og_ptr, why.as_str(), en.as_str());
            g.refusals.push(line);
            proof {
                assert(g.view().refusals =~= g0.refusals.push(line@));
                assert(g.view() == with_refusal(g0, line@));
            }
            return Ok(());
        },
    };
    let cap = dol_entry_cap(header, e);
    let fields = inline_fields();
    if let Some(ram) = header.ram_addr(e.og_ptr) {
        if let Some(k) = inline_at(fields.as_slice(), ram) {
            let field = fields[k];
            if !field.stub {
                return Ok(());
            }
            // a stubbed record is overwritten where it lies with a redirect,
            // a word at a time, and the glyphs go to the bank
            if field.stride % 4 != 0 {
                return Err(DolError::InlineStride { field: k, stride: field.stride });
            }
            let idx = match g.bank.intern(codes.as_slice()) {
                Ok(idx) => idx,
                Err(be) => {
                    let why = be.message();
                    let line = refusal_string(e.og_ptr, why.as_str(), en.as_str());
                    g.refusals.push(line);
                    return Ok(());
                },
            };
            let record = LongNameBank::record(idx, field.stride as usize);
            let words = record.len() / 4;
            let mut j: usize = 0;
            while j < words
                invariant
                    g.updates.wf(),
                    j <= words,
                    words == record@.len() / 4,
                    record@.len() == record.len(),
                decreases words - j,
            {
                let w = crate::dol::word(record.as_slice(), (4 * j) as u32);
                if let Some(at) = e.og_ptr.checked_add((4 * j) as u32) {
                    g.updates.insert(at, w);
                }
                j = j + 1;
            }
            return Ok(());
        }
        proof {
            assert(fields@[0].spec_record(ram) is None);
            assert(cpu_names().spec_record(ram) is None);
        }
    }
    let ghost ug = usable@.map_values(|v: Vec<ImmRef>| v@);
    let ds = header.data_start();
    let (data, bad) = split_refs(e.references.as_slice(), ds, imm);
    if bad.len() > 0 {
        let mut o: Vec<char> = Vec::new();
        push_hx(&mut o, e.og_ptr);
        push_str(&mut o, ": leaving the original, code references it at ");
        push_hx_join(&mut o, bad.as_slice());
        push_str(&mut o, " and the scan will not rewrite that");
        let line = string_of(o.as_slice());
        g.notes.push(line);
        proof {
            assert(line@ =~= unrewritable_note(e.og_ptr, bad@));
            assert(g.view().notes =~= g0.notes.push(line@));
            assert(g.view() == with_note(g0, line@));
        }
        return Ok(());
    }
    let pairs = pair_refs_exec(usable, e.og_ptr);
    let joined = concat_u32(data.as_slice(), pairs.as_slice());
    let all = sort_dedup_exec(joined.as_slice());
    if all.len() == 0 {
        return Ok(());
    }
    if let Some(ram) = header.ram_addr(e.og_ptr) {
        if let Some(rj) = rejected.get(ram) {
            let why = rj.why.text();
            let mut o: Vec<char> = Vec::new();
            push_hx(&mut o, e.og_ptr);
            push_str(&mut o, ": leaving the original, code addresses it in a way we will not rewrite: ");
            push_str(&mut o, why.as_str());
            let line = string_of(o.as_slice());
            g.notes.push(line);
            proof {
                assert(line@ =~= rejected_note(e.og_ptr, reject_text(rejected@[ram].why)));
                assert(g.view().notes =~= g0.notes.push(line@));
                assert(g.view() == with_note(g0, line@));
            }
            return Ok(());
        }
    }
    if cap == NameCap::Stub {
        match g.bank.intern(codes.as_slice()) {
            Ok(idx) => {
                let ghost all_v = all@;
                g.stubs.push((all, idx));
                proof {
                    assert(g.view().stubs =~= g0.stubs.push((all_v, idx)));
                }
            },
            Err(be) => {
                let why = be.message();
                let line = refusal_string(e.og_ptr, why.as_str(), en.as_str());
                g.refusals.push(line);
                proof {
                    assert(g.view().refusals =~= g0.refusals.push(line@));
                    assert(g.view() == with_refusal(g0, line@));
                }
            },
        }
        return Ok(());
    }
    if g.appended.len() > (u32::MAX - TRANSLATION_ARENA_RAM) as usize {
        return Err(DolError::TooLarge);
    }
    let new_ram = TRANSLATION_ARENA_RAM + g.appended.len() as u32;
    let bytes = en_bytes_exec(codes.as_slice());
    append_bytes(&mut g.appended, bytes.as_slice());
    point_at(buf, imm, &mut g.updates, all.as_slice(), new_ram);
    Ok(())
}


/// The entries read as a map from offset, a later entry for an offset
/// replacing an earlier one.
pub open spec fn entry_map(es: Seq<TLEntry>) -> Map<u32, TLEntry>
    decreases es.len(),
{
    if es.len() == 0 {
        Map::empty()
    } else {
        entry_map(es.drop_last()).insert(es.last().og_ptr, es.last())
    }
}

/// The translations of `main.dol`, one per string offset, and the strict
/// encoder every one of them goes through.
pub struct DolPatcher {
    tl: SortedMap<TLEntry>,
    /// Strict encoder for every translated string: silently dropping an
    /// unsupported glyph can turn reviewed copy into different text and can
    /// also hide fixed-width overflows.
    encoder: Encoder,
}

impl DolPatcher {
    /// The translations by string offset.
    pub closed spec fn table(&self) -> Map<u32, TLEntry> {
        self.tl@
    }

    /// The translations in increasing offset order.
    pub closed spec fn entries(&self) -> Seq<TLEntry> {
        self.tl.entries().map_values(|p: (u32, TLEntry)| p.1)
    }

    /// The encoder's tokens.
    pub closed spec fn tokens(&self) -> Map<Seq<char>, u16> {
        self.encoder.tokens()
    }

    pub closed spec fn wf(&self) -> bool {
        &&& self.tl.wf()
        &&& self.encoder.wf()
        &&& forall|i: int| 0 <= i < self.tl.entries().len() ==> (#[trigger] self.tl.entries()[i]).1.og_ptr == self.tl.entries()[i].0
    }

    /// The entries are visited in increasing offset order, one per offset, and
    /// each is the table's entry for its offset.
    pub proof fn lemma_entries_in_order(&self)
        requires
            self.wf(),
        ensures
            forall|i: int, j: int| 0 <= i < j < self.entries().len() ==> (#[trigger] self.entries()[i]).og_ptr < (#[trigger] self.entries()[j]).og_ptr,
            forall|i: int| 0 <= i < self.entries().len() ==> self.table().contains_key((#[trigger] self.entries()[i]).og_ptr)
                && self.table()[self.entries()[i].og_ptr] == self.entries()[i],
            forall|k: u32| #[trigger] self.table().contains_key(k) ==> exists|i: int| 0 <= i < self.entries().len() && (#[trigger] self.entries()[i]).og_ptr == k,
    {
        let es = self.tl.entries();
        assert forall|i: int| 0 <= i < self.entries().len() implies self.table().contains_key((#[trigger] self.entries()[i]).og_ptr)
            && self.table()[self.entries()[i].og_ptr] == self.entries()[i] by {
            lemma_sorted_lookup(es, i);
        }
        assert forall|k: u32| #[trigger] self.table().contains_key(k) implies exists|i: int| 0 <= i < self.entries().len() && (#[trigger] self.entries()[i]).og_ptr == k by {
            let i = choose|i: int| 0 <= i < es.len() && (#[trigger] es[i]).0 == k;
            assert(self.entries()[i].og_ptr == k);
        }
    }

    /// The patcher for `entries`, a later entry for an offset replacing an
    /// earlier one, encoding through the reverse glyph table `rev_table`.
    pub fn load(entries: Vec<TLEntry>, rev_table: &[(String, u16)]) -> (p: DolPatcher)
        requires
            renderings_unique(rev_table@),
        ensures
            p.wf(),
            p.table() == entry_map(entries@),
            p.tokens() == encodable(pairs_map(rev_table@)),
    {
        let encoder = Encoder::new(rev_table);
        let mut tl: SortedMap<TLEntry> = SortedMap::new();
        let ghost es = entries@;
        let n = entries.len();
        let mut front = entries;
        let mut rest: Vec<TLEntry> = Vec::new();
        while front.len() > 0
            invariant
                n == es.len(),
                front@ == es.take(n - rest@.len()),
                rest@.len() <= n,
                forall|k: int| 0 <= k < rest@.len() ==> #[trigger] rest@[k] == es[n - 1 - k],
            decreases front@.len(),
        {
            let e = front.pop().unwrap();
            rest.push(e);
            proof {
                assert(es.take(n - rest@.len()) =~= es.take(n - rest@.len() + 1).drop_last());
            }
        }
        proof {
            assert(es.take(0) =~= Seq::<TLEntry>::empty());
            assert(tl@ =~= entry_map(es.take(0)));
        }
        let mut i: usize = 0;
        while i < n
            invariant
                n == es.len(),
                i <= n,
                rest@.len() == n - i,
                forall|k: int| 0 <= k < n - i ==> #[trigger] rest@[k] == es[n - 1 - k],
                tl.wf(),
                tl@ == entry_map(es.take(i as int)),
                forall|key: u32| #[trigger] tl@.contains_key(key) ==> tl@[key].og_ptr == key,
            decreases n - i,
        {
            let e = rest.pop().unwrap();
            proof {
                assert(e == es[i as int]);
                assert(es.take(i + 1).drop_last() =~= es.take(i as int));
                assert(es.take(i + 1).last() == e);
            }
            let k = e.og_ptr;
            tl.insert(k, e);
            i = i + 1;
        }
        proof {
            assert(es.take(n as int) =~= es);
            assert forall|j: int| 0 <= j < tl.entries().len() implies (#[trigger] tl.entries()[j]).1.og_ptr == tl.entries()[j].0 by {
                lemma_sorted_lookup(tl.entries(), j);
            }
        }
        DolPatcher { tl, encoder }
    }
}


proof fn lemma_gather_err(
    g0: Gather,
    es: Seq<TLEntry>,
    i: int,
    n: int,
    h: Seq<Section>,
    buf: Seq<u8>,
    imm: Map<u32, ImmRef>,
    usable: Map<u32, Seq<ImmRef>>,
    rejected: Map<u32, Rejection>,
    tokens: Map<Seq<char>, u16>,
    x: DolError,
)
    requires
        0 < i <= n,
        gather_run(g0, es, i, h, buf, imm, usable, rejected, tokens) == Err::<Gather, DolError>(x),
    ensures
        gather_run(g0, es, n, h, buf, imm, usable, rejected, tokens) == Err::<Gather, DolError>(x),
    decreases n - i,
{
    if i < n {
        lemma_gather_err(g0, es, i + 1, n, h, buf, imm, usable, rejected, tokens, x);
    }
}

impl DolPatcher {
    /// The pass over every entry, in offset order.
    fn gather(
        &self,
        header: &DolHeader,
        buf: &[u8],
        imm: &SortedMap<ImmRef>,
        usable: &SortedMap<Vec<ImmRef>>,
        rejected: &SortedMap<Rejection>,
    ) -> (r: Result<Gathered, DolError>)
        requires
            self.wf(),
            header.wf(),
            header.fits(),
            imm.wf(),
            usable.wf(),
            rejected.wf(),
            pairs_in(buf@, imm@),
        ensures
            match gather_run(gather_empty(), self.entries(), self.entries().len() as int, header.sections@, buf@, imm@,
                usable@.map_values(|v: Vec<ImmRef>| v@), rejected@, self.tokens()) {
                Ok(g) => r is Ok && r->Ok_0.wf() && r->Ok_0.view() == g,
                Err(x) => r is Err && r->Err_0 == x,
            },
    {
        let mut g = Gathered {
            appended: Vec::new(),
            updates: SortedMap::new(),
            bank: LongNameBank::new(),
            stubs: Vec::new(),
            refusals: Vec::new(),
            notes: Vec::new(),
        };
        let ghost ug = usable@.map_values(|v: Vec<ImmRef>| v@);
        let ghost es = self.entries();
        proof {
            assert(g.view().stubs =~= gather_empty().stubs);
            assert(g.view().refusals =~= gather_empty().refusals);
            assert(g.view().notes =~= gather_empty().notes);
            assert(g.view().appended =~= gather_empty().appended);
            assert(g.view() == gather_empty());
        }
        let n = self.tl.len();
        let mut i: usize = 0;
        while i < n
            invariant
                self.wf(),
                header.wf(),
                header.fits(),
                imm.wf(),
                usable.wf(),
                rejected.wf(),
                pairs_in(buf@, imm@),
                g.wf(),
                n == es.len(),
                es == self.entries(),
                ug == usable@.map_values(|v: Vec<ImmRef>| v@),
                i <= n,
                gather_run(gather_empty(), es, i as int, header.sections@, buf@, imm@, ug, rejected@, self.tokens()) == Ok::<Gather, DolError>(g.view()),
            decreases n - i,
        {
            let e = &self.tl.at(i).1;
            proof {
                assert(*e == es[i as int]);
            }
            match gather_entry(&mut g, e, header, buf, imm, usable, rejected, &self.encoder) {
                Ok(()) => {},
                Err(x) => {
                    proof {
                        lemma_gather_err(gather_empty(), es, i + 1, n as int, header.sections@, buf@, imm@, ug, rejected@, self.tokens(), x);
                    }
                    return Err(x);
                },
            }
            i = i + 1;
        }
        Ok(g)
    }
}


/// The playtested references from the `k`th on: each recovered by the scan,
/// building the string it was confirmed to build.
pub open spec fn reviewed_from(imm: Map<u32, ImmRef>, k: int) -> Result<(), DolError>
    decreases reviewed_refs_spec().len() - k,
{
    if k < 0 || k >= reviewed_refs_spec().len() {
        Ok(())
    } else {
        let off = reviewed_refs_spec()[k].0;
        let want = reviewed_refs_spec()[k].1;
        if !imm.contains_key(off) {
            Err(DolError::ReviewedMissing { off })
        } else if imm[off].target_off != want {
            Err(DolError::ReviewedTarget { off, found: imm[off].target_off, want })
        } else {
            reviewed_from(imm, k + 1)
        }
    }
}

/// The retail checks, and data8 placed empty right after data7, at the
/// translation arena.
pub open spec fn with_data8(h: Seq<Section>, bss_address: u32, bss_size: u32) -> Result<Seq<Section>, DolError> {
    let d7 = h[DATA7 as int];
    if d7.size == 0 {
        Err(DolError::Data7Empty)
    } else if bss_address + bss_size != RETAIL_BSS_END {
        Err(DolError::BssEnd { end: (bss_address + bss_size) as u32 })
    } else if d7.file + d7.size > u32::MAX {
        Err(DolError::SectionOverflow)
    } else {
        Ok(h.update(DATA8 as int, Section { file: (d7.file + d7.size) as u32, ram: TRANSLATION_ARENA_RAM, size: 0 }))
    }
}

/// The deferred references of the first `k` stubbed names pointed at their
/// stubs in a bank at `bank_ram`.
pub open spec fn stubs_run(
    buf: Seq<u8>,
    imm: Map<u32, ImmRef>,
    stubs: Seq<(Seq<u32>, u32)>,
    bank_ram: u32,
    k: int,
    m: Map<u32, u32>,
) -> Map<u32, u32>
    decreases k,
{
    if k <= 0 {
        m
    } else {
        let s = stubs[k - 1];
        point_updates(buf, imm, s.0, (bank_ram + s.1 * STUB_STRIDE) as u32, s.0.len() as int, stubs_run(buf, imm, stubs, bank_ram, k - 1, m))
    }
}

/// How many of the assembled resolver words there are to install.
pub open spec fn resolver_count(assembled: Seq<u8>) -> int {
    if assembled.len() / 4 < 3 {
        (assembled.len() / 4) as int
    } else {
        3
    }
}

/// The sections that hold bytes.
pub open spec fn live(h: Seq<Section>) -> Seq<Section> {
    h.filter(|s: Section| s.size != 0)
}

/// No live section from the `k`th on, other than the arena's own two, meets
/// the arena `lo..hi`.
pub open spec fn overlap_from(l: Seq<Section>, lo: u32, hi: u32, t2: u32, k: int) -> Result<(), DolError>
    decreases l.len() - k,
{
    if k < 0 || k >= l.len() {
        Ok(())
    } else {
        let s = l[k];
        if s.ram + s.size > u32::MAX {
            Err(DolError::SectionOverflow)
        } else if s.ram != lo && s.ram != t2 && lo < s.ram + s.size && s.ram < hi {
            Err(DolError::Overlap { lo, hi, ram: s.ram, end: (s.ram + s.size) as u32 })
        } else {
            overlap_from(l, lo, hi, t2, k + 1)
        }
    }
}

/// Every site the patch rewrites has a whole word inside the file.
pub open spec fn resolvers_in(h: Seq<Section>, buf: Seq<u8>) -> bool {
    forall|k: int| 0 <= k < 3 ==> ram_word_in(h, buf, (#[trigger] resolver_sites()[k]).0)
}

pub open spec fn hooks_in(h: Seq<Section>, buf: Seq<u8>, hooks: Seq<(u32, u32)>) -> bool {
    forall|k: int| 0 <= k < hooks.len() ==> ram_word_in(h, buf, (#[trigger] hooks[k]).0)
}

pub open spec fn arena_in(h: Seq<Section>, buf: Seq<u8>) -> bool {
    forall|k: int| 0 <= k < 2 ==> ram_word_in(h, buf, (#[trigger] arena_sites()[k]).0) && ram_word_in(h, buf, arena_sites()[k].1)
}

/// What is laid out after the pass: the final sections and BSS size, the
/// data8 and text2 payloads, and the words to write.
pub ghost struct Laid {
    pub secs: Seq<Section>,
    pub bss_size: u32,
    pub data8: Seq<u8>,
    pub caves: Seq<u8>,
    pub updates: Map<u32, u32>,
    pub text2_ram: u32,
}

/// The tail of the layout, once text2 is placed at `t2`: the caves, the
/// arena's end and the checks on it, and the moved ArenaLo.
#[verifier::opaque]
pub open spec fn lay_out_tail(
    secs3: Seq<Section>,
    bss_address: u32,
    data8: Seq<u8>,
    ptrs: u32,
    m2: Map<u32, u32>,
    buf: Seq<u8>,
    code: Seq<u8>,
    hooks: Seq<(u32, u32)>,
) -> Result<Laid, DolError> {
    let t2 = secs3[TEXT2 as int];
    if !hooks_in(secs3, buf, hooks) {
        Err(DolError::Truncated)
    } else {
        match caves_result(secs3, buf, code, m2, hooks, t2.ram, ptrs) {
            Err(e) => Err(e),
            Ok(cm) => {
                let end = (t2.ram + cm.0.len()) as u32;
                let arena_lo = aligned_32(end) as u32;
                let secs4 = secs3.update(TEXT2 as int, Section { file: t2.file, ram: t2.ram, size: cm.0.len() as u32 });
                if arena_lo > MEM1_END_RAM {
                    Err(DolError::BeyondMem1 { end: arena_lo })
                } else {
                    match overlap_from(live(secs4), TRANSLATION_ARENA_RAM, end, t2.ram, 0) {
                        Err(e) => Err(e),
                        Ok(_) => if !arena_in(secs4, buf) {
                            Err(DolError::Truncated)
                        } else {
                            match arena_lo_updates(secs4, buf, arena_lo, cm.1) {
                                Err(e) => Err(e),
                                Ok(m3) => Ok(
                                    Laid {
                                        secs: secs4,
                                        bss_size: (arena_lo - bss_address) as u32,
                                        data8,
                                        caves: cm.0,
                                        updates: m3,
                                        text2_ram: t2.ram,
                                    },
                                ),
                            }
                        },
                    }
                }
            },
        }
    }
}

/// The bank laid out after every relocated string, and the stubbed
/// references pointed at their stubs: data8's bytes, the address of the
/// pointer table the caves index, and the words to write.
pub open spec fn bank_stage(g: Gather, buf: Seq<u8>, imm: Map<u32, ImmRef>) -> Result<(Seq<u8>, u32, Map<u32, u32>), DolError> {
    if TRANSLATION_ARENA_RAM + g.appended.len() + bank_len(g.names) > u32::MAX {
        Err(DolError::TooLarge)
    } else {
        let bank_ram = (TRANSLATION_ARENA_RAM + g.appended.len()) as u32;
        Ok((
            g.appended + bank_bytes(g.names, bank_ram),
            (bank_ram + ptrs_at(g.names)) as u32,
            stubs_run(buf, imm, g.stubs, bank_ram, g.stubs.len() as int, g.updates),
        ))
    }
}

/// The resolvers installed, data8 sized, text2 placed 32-aligned after it,
/// then the tail.
pub open spec fn place_stage(
    secs1: Seq<Section>,
    bss_address: u32,
    data8: Seq<u8>,
    ptrs: u32,
    m1: Map<u32, u32>,
    buf: Seq<u8>,
    assembled: Seq<u8>,
    code: Seq<u8>,
    hooks: Seq<(u32, u32)>,
) -> Result<Laid, DolError> {
    if !resolvers_in(secs1, buf) {
        Err(DolError::Truncated)
    } else {
        match resolver_updates(secs1, buf, assembled, resolver_count(assembled), m1) {
            Err(e) => Err(e),
            Ok(m2) => {
                let d8 = Section { file: secs1[DATA8 as int].file, ram: TRANSLATION_ARENA_RAM, size: data8.len() as u32 };
                if secs1[TEXT2 as int].size != 0 {
                    Err(DolError::Text2NotEmpty)
                } else if d8.file + d8.size > u32::MAX - 31 || d8.ram + d8.size > u32::MAX - 31 {
                    Err(DolError::AddressOverflow)
                } else {
                    let t2 = Section {
                        file: aligned_32((d8.file + d8.size) as u32) as u32,
                        ram: aligned_32((d8.ram + d8.size) as u32) as u32,
                        size: 0,
                    };
                    if t2.ram + code.len() > u32::MAX - 31 || t2.file + code.len() > u32::MAX - 31 {
                        Err(DolError::AddressOverflow)
                    } else {
                        lay_out_tail(secs1.update(DATA8 as int, d8).update(TEXT2 as int, t2), bss_address, data8, ptrs, m2, buf, code, hooks)
                    }
                }
            },
        }
    }
}

/// The layout after the pass.
pub open spec fn lay_out(
    secs1: Seq<Section>,
    bss_address: u32,
    g: Gather,
    buf: Seq<u8>,
    imm: Map<u32, ImmRef>,
    assembled: Seq<u8>,
    code: Seq<u8>,
    hooks: Seq<(u32, u32)>,
) -> Result<Laid, DolError> {
    match bank_stage(g, buf, imm) {
        Err(e) => Err(e),
        Ok(b) => place_stage(secs1, bss_address, b.0, b.1, b.2, buf, assembled, code, hooks),
    }
}

/// Offset `k` is a word the updates write, wholly inside the section at
/// `f` of `size` bytes.
pub open spec fn hit(m: Map<u32, u32>, f: int, size: int, k: int) -> bool {
    0 <= k <= u32::MAX && m.contains_key(k as u32) && f <= k && k + 4 <= f + size
}

/// Byte `p` of a section after its words are written, a word at a higher
/// offset winning where two overlap.
pub open spec fn patched_byte(m: Map<u32, u32>, f: int, size: int, p: int, orig: u8) -> u8 {
    if hit(m, f, size, p) {
        be32_bytes(m[p as u32])[0]
    } else if hit(m, f, size, p - 1) {
        be32_bytes(m[(p - 1) as u32])[1]
    } else if hit(m, f, size, p - 2) {
        be32_bytes(m[(p - 2) as u32])[2]
    } else if hit(m, f, size, p - 3) {
        be32_bytes(m[(p - 3) as u32])[3]
    } else {
        orig
    }
}

/// A retail section as written: its bytes with every update inside it.
pub open spec fn section_bytes(buf: Seq<u8>, m: Map<u32, u32>, s: Section) -> Seq<u8> {
    Seq::new(s.size as nat, |i: int| patched_byte(m, s.file as int, s.size as int, s.file + i, buf[s.file + i]))
}

/// `data` written at `at`, over what is there, past the end zero filled.
pub open spec fn write_at(out: Seq<u8>, at: int, data: Seq<u8>) -> Seq<u8> {
    let base = if out.len() < at { out + Seq::new((at - out.len()) as nat, |i: int| 0u8) } else { out };
    let end = at + data.len();
    base.take(at) + data + (if end < base.len() { base.skip(end) } else { Seq::empty() })
}

/// The first `k` live sections written into `out`.
pub open spec fn image_run(buf: Seq<u8>, laid: Laid, l: Seq<Section>, k: int, out: Seq<u8>) -> Result<Seq<u8>, DolError>
    decreases k,
{
    if k <= 0 {
        Ok(out)
    } else {
        match image_run(buf, laid, l, k - 1, out) {
            Err(e) => Err(e),
            Ok(o) => {
                let s = l[k - 1];
                let data = if s.ram == TRANSLATION_ARENA_RAM {
                    laid.data8
                } else if s.ram == laid.text2_ram {
                    laid.caves
                } else {
                    section_bytes(buf, laid.updates, s)
                };
                if s.ram != TRANSLATION_ARENA_RAM && s.ram != laid.text2_ram && s.file + s.size > buf.len() {
                    Err(DolError::Truncated)
                } else if s.file + data.len() > usize::MAX {
                    Err(DolError::TooLarge)
                } else {
                    Ok(write_at(o, s.file as int, data))
                }
            },
        }
    }
}

/// The patched file: the header, then every live section at its offset.
pub open spec fn image(buf: Seq<u8>, laid: Laid, bss_address: u32, entry_point: u32) -> Result<Seq<u8>, DolError> {
    let l = live(laid.secs);
    image_run(buf, laid, l, l.len() as int, header_bytes(laid.secs, bss_address, laid.bss_size, entry_point))
}

/// What patching gives once the DOL is scanned: the patched file, the
/// refused translations and the notes on strings left Japanese; or why the
/// DOL cannot be patched.
pub open spec fn patch_spec(
    es: Seq<TLEntry>,
    tokens: Map<Seq<char>, u16>,
    h: Seq<Section>,
    bss_address: u32,
    bss_size: u32,
    entry_point: u32,
    buf: Seq<u8>,
    imm: Map<u32, ImmRef>,
    usable: Map<u32, Seq<ImmRef>>,
    rejected: Map<u32, Rejection>,
    assembled: Seq<u8>,
    code: Seq<u8>,
    hooks: Seq<(u32, u32)>,
) -> Result<(Seq<u8>, Seq<Seq<char>>, Seq<Seq<char>>), DolError> {
    match reviewed_from(imm, 0) {
        Err(e) => Err(e),
        Ok(_) => match with_data8(h, bss_address, bss_size) {
            Err(e) => Err(e),
            Ok(secs1) => match gather_run(gather_empty(), es, es.len() as int, secs1, buf, imm, usable, rejected, tokens) {
                Err(e) => Err(e),
                Ok(g) => match lay_out(secs1, bss_address, g, buf, imm, assembled, code, hooks) {
                    Err(e) => Err(e),
                    Ok(laid) => match image(buf, laid, bss_address, entry_point) {
                        Err(e) => Err(e),
                        Ok(bytes) => Ok((bytes, g.refusals, g.notes)),
                    },
                },
            },
        },
    }
}


/// Check the playtested references against the scan.
fn check_reviewed(imm: &SortedMap<ImmRef>) -> (r: Result<(), DolError>)
    requires
        imm.wf(),
    ensures
        r == reviewed_from(imm@, 0),
{
    let reviewed = reviewed_immediate_refs();
    let mut k: usize = 0;
    while k < reviewed.len()
        invariant
            imm.wf(),
            reviewed@ == reviewed_refs_spec(),
            k <= reviewed@.len(),
            reviewed_from(imm@, 0) == reviewed_from(imm@, k as int),
        decreases reviewed@.len() - k,
    {
        let (off, want) = reviewed[k];
        match imm.get(off) {
            None => {
                return Err(DolError::ReviewedMissing { off });
            },
            Some(found) => {
                if found.target_off != want {
                    return Err(DolError::ReviewedTarget { off, found: found.target_off, want });
                }
            },
        }
        k = k + 1;
    }
    Ok(())
}

/// The retail checks, and data8 placed; `header` is changed only on success.
fn place_data8(header: &mut DolHeader) -> (r: Result<(), DolError>)
    requires
        old(header).wf(),
    ensures
        final(header).wf(),
        final(header).bss_address == old(header).bss_address,
        final(header).bss_size == old(header).bss_size,
        final(header).entry_point == old(header).entry_point,
        match with_data8(old(header).sections@, old(header).bss_address, old(header).bss_size) {
            Ok(secs) => r is Ok && final(header).sections@ == secs,
            Err(e) => r == Err::<(), DolError>(e),
        },
{
    let d7 = header.sections[DATA7];
    if d7.size == 0 {
        return Err(DolError::Data7Empty);
    }
    let end: u64 = header.bss_address as u64 + header.bss_size as u64;
    if end != RETAIL_BSS_END as u64 {
        return Err(DolError::BssEnd { end: end as u32 });
    }
    if d7.size > u32::MAX - d7.file {
        return Err(DolError::SectionOverflow);
    }
    header.sections.set(DATA8, Section { file: d7.file + d7.size, ram: TRANSLATION_ARENA_RAM, size: 0 });
    Ok(())
}


/// Whether a whole word is loaded from inside the file at `ram`.
fn word_in(header: &DolHeader, buf: &[u8], ram: u32) -> (r: bool)
    requires
        header.fits(),
    ensures
        r == ram_word_in(header.sections@, buf@, ram),
{
    match header.file_offset(ram) {
        Some(off) => off as u64 + 4 <= buf.len() as u64,
        None => true,
    }
}

fn resolvers_in_exec(header: &DolHeader, buf: &[u8]) -> (r: bool)
    requires
        header.fits(),
    ensures
        r == resolvers_in(header.sections@, buf@),
{
    let a = word_in(header, buf, 0x800d_2cdc);
    let b = word_in(header, buf, 0x800d_2d00);
    let c = word_in(header, buf, 0x800d_2d2c);
    proof {
        assert(resolver_sites()[0].0 == 0x800d_2cdc);
        assert(resolver_sites()[1].0 == 0x800d_2d00);
        assert(resolver_sites()[2].0 == 0x800d_2d2c);
        if !(a && b && c) {
            if !a {
                assert(!ram_word_in(header.sections@, buf@, resolver_sites()[0].0));
            } else if !b {
                assert(!ram_word_in(header.sections@, buf@, resolver_sites()[1].0));
            } else {
                assert(!ram_word_in(header.sections@, buf@, resolver_sites()[2].0));
            }
        }
    }
    a && b && c
}

fn arena_in_exec(header: &DolHeader, buf: &[u8]) -> (r: bool)
    requires
        header.fits(),
    ensures
        r == arena_in(header.sections@, buf@),
{
    let a = word_in(header, buf, 0x8014_1eec);
    let b = word_in(header, buf, 0x8014_1ef0);
    let c = word_in(header, buf, 0x8014_1f24);
    let d = word_in(header, buf, 0x8014_1f28);
    proof {
        assert(arena_sites()[0].0 == 0x8014_1eec && arena_sites()[0].1 == 0x8014_1ef0);
        assert(arena_sites()[1].0 == 0x8014_1f24 && arena_sites()[1].1 == 0x8014_1f28);
        if !(a && b) {
            assert(!(ram_word_in(header.sections@, buf@, arena_sites()[0].0) && ram_word_in(header.sections@, buf@, arena_sites()[0].1)));
        } else if !(c && d) {
            assert(!(ram_word_in(header.sections@, buf@, arena_sites()[1].0) && ram_word_in(header.sections@, buf@, arena_sites()[1].1)));
        }
    }
    a && b && c && d
}

fn hooks_in_exec(header: &DolHeader, buf: &[u8], hooks: &[WalkerHook]) -> (r: bool)
    requires
        header.fits(),
    ensures
        r == hooks_in(header.sections@, buf@, hook_sites(hooks@)),
{
    let mut k: usize = 0;
    while k < hooks.len()
        invariant
            header.fits(),
            k <= hooks@.len(),
            forall|j: int| 0 <= j < k ==> ram_word_in(header.sections@, buf@, (#[trigger] hook_sites(hooks@)[j]).0),
        decreases hooks@.len() - k,
    {
        if !word_in(header, buf, hooks[k].ram) {
            assert(!ram_word_in(header.sections@, buf@, hook_sites(hooks@)[k as int].0));
            return false;
        }
        k = k + 1;
    }
    true
}

/// `overlap_from(l, lo, hi, t2, 0)`.
fn overlap_check(l: &[Section], lo: u32, hi: u32, t2: u32) -> (r: Result<(), DolError>)
    ensures
        r == overlap_from(l@, lo, hi, t2, 0),
{
    let mut k: usize = 0;
    while k < l.len()
        invariant
            k <= l@.len(),
            overlap_from(l@, lo, hi, t2, 0) == overlap_from(l@, lo, hi, t2, k as int),
        decreases l@.len() - k,
    {
        let s = l[k];
        if s.size > u32::MAX - s.ram {
            return Err(DolError::SectionOverflow);
        }
        let end = s.ram + s.size;
        if s.ram != lo && s.ram != t2 && lo < end && s.ram < hi {
            return Err(DolError::Overlap { lo, hi, ram: s.ram, end });
        }
        k = k + 1;
    }
    Ok(())
}

/// What the layout produced.
pub struct LaidOut {
    pub data8: Vec<u8>,
    pub caves: Vec<u8>,
    pub updates: SortedMap<u32>,
    pub text2_ram: u32,
}

/// The tail of the layout, on a header whose text2 is placed and empty.
fn lay_out_tail_exec(
    header: &mut DolHeader,
    data8: Vec<u8>,
    ptrs: u32,
    updates: SortedMap<u32>,
    buf: &[u8],
    code: &[u8],
    hooks: &[WalkerHook],
) -> (r: Result<LaidOut, DolError>)
    requires
        old(header).wf(),
        old(header).fits(),
        updates.wf(),
        old(header).sections@[TEXT2 as int].size == 0,
        old(header).sections@[TEXT2 as int].ram + code@.len() <= u32::MAX - 31,
        old(header).sections@[TEXT2 as int].file + code@.len() <= u32::MAX - 31,
        old(header).bss_address <= old(header).sections@[TEXT2 as int].ram,
        forall|k: int| 0 <= k < hooks@.len() ==> (#[trigger] hooks@[k]).ram <= u32::MAX - 4,
    ensures
        final(header).wf(),
        final(header).bss_address == old(header).bss_address,
        final(header).entry_point == old(header).entry_point,
        match lay_out_tail(old(header).sections@, old(header).bss_address, data8@, ptrs, updates@, buf@, code@, hook_sites(hooks@)) {
            Ok(l) => r is Ok && final(header).sections@ == l.secs && final(header).bss_size == l.bss_size && r->Ok_0.data8@ == l.data8
                && r->Ok_0.caves@ == l.caves && r->Ok_0.updates@ == l.updates && r->Ok_0.updates.wf() && r->Ok_0.text2_ram == l.text2_ram,
            Err(e) => r is Err && r->Err_0 == e,
        },
        r is Ok ==> r->Ok_0.data8@ == data8@ && r->Ok_0.caves@.len() <= u32::MAX,
{
    reveal(lay_out_tail);
    let t2 = header.sections[TEXT2];
    if !hooks_in_exec(header, buf, hooks) {
        return Err(DolError::Truncated);
    }
    let mut updates = updates;
    proof {
        assert forall|k: int| 0 <= k < hooks@.len() implies ram_word_in(header.sections@, buf@, (#[trigger] hooks@[k]).ram) by {
            assert(hook_sites(hooks@)[k].0 == hooks@[k].ram);
        }
    }
    let caves = match install_redirect_caves(buf, header, &mut updates, t2.ram, ptrs, code, hooks) {
        Ok(c) => c,
        Err(e) => {
            return Err(e);
        },
    };
    assert(caves@.len() <= code@.len());
    let size = caves.len() as u32;
    let end = t2.ram + size;
    let arena_lo = align_32(end);
    header.sections.set(TEXT2, Section { file: t2.file, ram: t2.ram, size });
    if arena_lo > MEM1_END_RAM {
        return Err(DolError::BeyondMem1 { end: arena_lo });
    }
    let l = header.live();
    match overlap_check(l.as_slice(), TRANSLATION_ARENA_RAM, end, t2.ram) {
        Ok(()) => {},
        Err(e) => {
            return Err(e);
        },
    }
    if !arena_in_exec(header, buf) {
        return Err(DolError::Truncated);
    }
    match patch_runtime_arena_lo(buf, header, &mut updates, arena_lo) {
        Ok(()) => {},
        Err(e) => {
            return Err(e);
        },
    }
    header.bss_size = arena_lo - header.bss_address;
    Ok(LaidOut { data8, caves, updates, text2_ram: t2.ram })
}


/// Point every deferred reference at its stub in a bank at `bank_ram`.
fn point_stubs(
    buf: &[u8],
    imm: &SortedMap<ImmRef>,
    updates: &mut SortedMap<u32>,
    stubs: &Vec<(Vec<u32>, u32)>,
    bank_ram: u32,
    Ghost(names): Ghost<nat>,
)
    requires
        imm.wf(),
        old(updates).wf(),
        pairs_in(buf@, imm@),
        forall|i: int| 0 <= i < stubs@.len() ==> (#[trigger] stubs@[i]).1 < names,
        bank_ram + names * STUB_STRIDE <= u32::MAX,
    ensures
        final(updates).wf(),
        final(updates)@ == stubs_run(buf@, imm@, stubs@.map_values(|s: (Vec<u32>, u32)| (s.0@, s.1)), bank_ram,
            stubs@.len() as int, old(updates)@),
{
    let ghost sv = stubs@.map_values(|s: (Vec<u32>, u32)| (s.0@, s.1));
    let ghost m0 = updates@;
    let mut k: usize = 0;
    while k < stubs.len()
        invariant
            imm.wf(),
            updates.wf(),
            pairs_in(buf@, imm@),
            forall|i: int| 0 <= i < stubs@.len() ==> (#[trigger] stubs@[i]).1 < names,
            bank_ram + names * STUB_STRIDE <= u32::MAX,
            sv == stubs@.map_values(|s: (Vec<u32>, u32)| (s.0@, s.1)),
            k <= stubs@.len(),
            updates@ == stubs_run(buf@, imm@, sv, bank_ram, k as int, m0),
        decreases stubs@.len() - k,
    {
        let refs = &stubs[k].0;
        let idx = stubs[k].1;
        proof {
            assert(idx < names);
            assert(bank_ram + idx * STUB_STRIDE <= u32::MAX);
            assert(sv[k as int] == (refs@, idx));
        }
        let at = LongNameBank::stub_ram(bank_ram, idx);
        point_at(buf, imm, updates, refs.as_slice(), at);
        k = k + 1;
    }
}

/// The bank and the stubbed references.
fn bank_stage_exec(g: Gathered, buf: &[u8], imm: &SortedMap<ImmRef>) -> (r: Result<(Vec<u8>, u32, SortedMap<u32>), DolError>)
    requires
        g.wf(),
        imm.wf(),
        pairs_in(buf@, imm@),
    ensures
        match bank_stage(g.view(), buf@, imm@) {
            Ok(b) => r is Ok && r->Ok_0.0@ == b.0 && r->Ok_0.1 == b.1 && r->Ok_0.2@ == b.2 && r->Ok_0.2.wf(),
            Err(e) => r is Err && r->Err_0 == e,
        },
        r is Ok ==> r->Ok_0.0@.len() <= u32::MAX,
{
    let ghost gv = g.view();
    let Gathered { appended, updates, bank, stubs, refusals: _, notes: _ } = g;
    let blen = bank.emit_len();
    if appended.len() > (u32::MAX - TRANSLATION_ARENA_RAM) as usize || blen > (u32::MAX - TRANSLATION_ARENA_RAM) as usize - appended.len() {
        return Err(DolError::TooLarge);
    }
    let bank_ram = TRANSLATION_ARENA_RAM + appended.len() as u32;
    let (bank_out, layout) = bank.emit(bank_ram);
    let mut data8 = appended;
    append_bytes(&mut data8, bank_out.as_slice());
    let mut updates = updates;
    point_stubs(buf, imm, &mut updates, &stubs, bank_ram, Ghost(bank@.len()));
    Ok((data8, layout.ptrs, updates))
}

/// The resolvers, data8 and text2 placed, then the tail.
#[verifier::spinoff_prover]
#[verifier::rlimit(40)]
fn place_stage_exec(
    header: &mut DolHeader,
    data8: Vec<u8>,
    ptrs: u32,
    updates: SortedMap<u32>,
    buf: &[u8],
    assembled: &[u8],
    code: &[u8],
    hooks: &[WalkerHook],
) -> (r: Result<LaidOut, DolError>)
    requires
        old(header).wf(),
        old(header).fits(),
        updates.wf(),
        old(header).sections@[DATA8 as int].ram == TRANSLATION_ARENA_RAM,
        old(header).bss_address <= TRANSLATION_ARENA_RAM,
        forall|k: int| 0 <= k < hooks@.len() ==> (#[trigger] hooks@[k]).ram <= u32::MAX - 4,
    ensures
        final(header).wf(),
        final(header).bss_address == old(header).bss_address,
        final(header).entry_point == old(header).entry_point,
        match place_stage(old(header).sections@, old(header).bss_address, data8@, ptrs, updates@, buf@, assembled@, code@, hook_sites(hooks@)) {
            Ok(l) => r is Ok && final(header).sections@ == l.secs && final(header).bss_size == l.bss_size && r->Ok_0.data8@ == l.data8
                && r->Ok_0.caves@ == l.caves && r->Ok_0.updates@ == l.updates && r->Ok_0.updates.wf() && r->Ok_0.text2_ram == l.text2_ram,
            Err(e) => r is Err && r->Err_0 == e,
        },
        r is Ok ==> r->Ok_0.data8@ == data8@ && r->Ok_0.caves@.len() <= u32::MAX,
{
    let mut updates = updates;
    if !resolvers_in_exec(header, buf) {
        return Err(DolError::Truncated);
    }
    match patch_spt_resolvers(buf, header, &mut updates, assembled) {
        Ok(()) => {},
        Err(e) => {
            return Err(e);
        },
    }
    let d8 = Section { file: header.sections[DATA8].file, ram: TRANSLATION_ARENA_RAM, size: data8.len() as u32 };
    if header.sections[TEXT2].size != 0 {
        return Err(DolError::Text2NotEmpty);
    }
    if d8.file as u64 + d8.size as u64 > (u32::MAX - 31) as u64 || d8.ram as u64 + d8.size as u64 > (u32::MAX - 31) as u64 {
        return Err(DolError::AddressOverflow);
    }
    let t2 = Section { file: align_32(d8.file + d8.size), ram: align_32(d8.ram + d8.size), size: 0 };
    if code.len() > (u32::MAX - 31 - t2.ram) as usize || code.len() > (u32::MAX - 31 - t2.file) as usize {
        return Err(DolError::AddressOverflow);
    }
    header.sections.set(DATA8, d8);
    header.sections.set(TEXT2, t2);
    proof {
        assert(header.sections@[DATA8 as int].fits());
        assert(header.sections@[TEXT2 as int].fits());
        assert forall|i: int| 0 <= i < header.sections@.len() implies #[trigger] header.sections@[i].fits() by {
            if i != DATA8 as int && i != TEXT2 as int {
                assert(header.sections@[i] == old(header).sections@[i]);
                assert(old(header).sections@[i].fits());
            }
        }
    }
    lay_out_tail_exec(header, data8, ptrs, updates, buf, code, hooks)
}


/// `hit`, for keys below `bound` only.
pub open spec fn hit_below(m: Map<u32, u32>, f: int, size: int, k: int, bound: int) -> bool {
    hit(m, f, size, k) && k < bound
}

/// `patched_byte` with only the keys below `bound` written.
pub open spec fn patched_below(m: Map<u32, u32>, f: int, size: int, p: int, orig: u8, bound: int) -> u8 {
    if hit_below(m, f, size, p, bound) {
        be32_bytes(m[p as u32])[0]
    } else if hit_below(m, f, size, p - 1, bound) {
        be32_bytes(m[(p - 1) as u32])[1]
    } else if hit_below(m, f, size, p - 2, bound) {
        be32_bytes(m[(p - 2) as u32])[2]
    } else if hit_below(m, f, size, p - 3, bound) {
        be32_bytes(m[(p - 3) as u32])[3]
    } else {
        orig
    }
}

/// The bound after entry `j` of a sorted map's entries: the next key, or
/// past every key.
pub open spec fn key_bound(es: Seq<(u32, u32)>, j: int) -> int {
    if j < es.len() {
        es[j].0 as int
    } else {
        0x1_0000_0000
    }
}

proof fn lemma_key_place(es: Seq<(u32, u32)>, q: u32, j: int)
    requires
        keys_sorted(es),
        seq_map(es).contains_key(q),
        0 <= j <= es.len(),
        j == 0 || q > es[j - 1].0,
    ensures
        q >= key_bound(es, j) || false,
{
    assert(seq_has(es, q));
    let i = choose|i: int| 0 <= i < es.len() && (#[trigger] es[i]).0 == q;
    if j < es.len() {
        if i < j {
            if j > 0 {
                assert(es[i].0 <= es[j - 1].0) by {
                    if i < j - 1 {
                        assert(es[i].0 < es[j - 1].0);
                    }
                }
            }
        } else if i > j {
            assert(es[j].0 < es[i].0);
        }
    } else {
        if j > 0 {
            assert(es[i].0 <= es[j - 1].0) by {
                if i < j - 1 {
                    assert(es[i].0 < es[j - 1].0);
                }
            }
        }
    }
}

/// Writing entry `j`'s word moves the bound from its key to the next one.
proof fn lemma_write_step(es: Seq<(u32, u32)>, j: int, f: int, size: int, p: int, orig: u8)
    requires
        keys_sorted(es),
        0 <= j < es.len(),
    ensures
        patched_below(seq_map(es), f, size, p, orig, key_bound(es, j + 1)) == if hit(seq_map(es), f, size, es[j].0 as int) && es[j].0 <= p < es[j].0 + 4 {
            be32_bytes(es[j].1)[p - es[j].0]
        } else {
            patched_below(seq_map(es), f, size, p, orig, key_bound(es, j))
        },
{
    let m = seq_map(es);
    let k = es[j].0 as int;
    lemma_sorted_lookup(es, j);
    assert forall|q: int| 0 <= q <= u32::MAX && #[trigger] m.contains_key(q as u32) && q < key_bound(es, j + 1) implies q <= k by {
        if q > k {
            lemma_key_place(es, q as u32, j + 1);
        }
    }
    assert(key_bound(es, j) == k);
}

fn copy_range(buf: &[u8], from: usize, len: usize) -> (out: Vec<u8>)
    requires
        from + len <= buf@.len(),
    ensures
        out@ == buf@.subrange(from as int, from + len),
{
    let mut out: Vec<u8> = Vec::new();
    let mut i: usize = 0;
    while i < len
        invariant
            from + len <= buf@.len(),
            buf@.len() == buf.len(),
            i <= len,
            out@ == buf@.subrange(from as int, from + i),
        decreases len - i,
    {
        out.push(buf[from + i]);
        proof {
            assert(out@ =~= buf@.subrange(from as int, from + i + 1));
        }
        i = i + 1;
    }
    out
}

/// A retail section with every update inside it written, in increasing
/// offset order.
fn section_bytes_exec(buf: &[u8], updates: &SortedMap<u32>, s: Section) -> (out: Vec<u8>)
    requires
        updates.wf(),
        s.file + s.size <= buf@.len(),
    ensures
        out@ == section_bytes(buf@, updates@, s),
{
    let f = s.file as usize;
    let size = s.size as usize;
    let ghost es = updates.entries();
    let ghost m = updates@;
    let ghost fi = s.file as int;
    let ghost si = s.size as int;
    let mut data = copy_range(buf, f, size);
    proof {
        assert forall|p: int| fi <= p < fi + si implies data@[p - fi] == #[trigger] patched_below(m, fi, si, p, buf@[p], key_bound(es, 0)) by {
            assert forall|q: int| 0 <= q <= u32::MAX && #[trigger] m.contains_key(q as u32) implies q >= key_bound(es, 0) by {
                lemma_key_place(es, q as u32, 0);
            }
        }
    }
    let n = updates.len();
    let mut j: usize = 0;
    while j < n
        invariant
            updates.wf(),
            es == updates.entries(),
            m == updates@,
            m == seq_map(es),
            n == es.len(),
            j <= n,
            fi == f && si == size,
            fi == s.file && si == s.size,
            fi + si <= buf@.len(),
            data@.len() == si,
            forall|p: int| fi <= p < fi + si ==> data@[p - fi] == #[trigger] patched_below(m, fi, si, p, buf@[p], key_bound(es, j as int)),
        decreases n - j,
    {
        let (k, w) = *updates.at(j);
        let ghost before = data@;
        if k as usize >= f && k as u64 + 4 <= f as u64 + size as u64 {
            let at = k as usize - f;
            data.set(at, (w / 0x100_0000) as u8);
            data.set(at + 1, ((w / 0x1_0000) % 256) as u8);
            data.set(at + 2, ((w / 0x100) % 256) as u8);
            data.set(at + 3, (w % 256) as u8);
        }
        proof {
            assert forall|p: int| fi <= p < fi + si implies data@[p - fi] == #[trigger] patched_below(m, fi, si, p, buf@[p], key_bound(es, j + 1)) by {
                lemma_write_step(es, j as int, fi, si, p, buf@[p]);
                lemma_sorted_lookup(es, j as int);
                assert(patched_below(m, fi, si, p, buf@[p], key_bound(es, j as int)) == before[p - fi]);
            }
        }
        j = j + 1;
    }
    proof {
        assert(data@ =~= section_bytes(buf@, updates@, s)) by {
            assert forall|i: int| 0 <= i < si implies data@[i] == section_bytes(buf@, updates@, s)[i] by {
                assert(patched_below(m, fi, si, fi + i, buf@[fi + i], key_bound(es, n as int)) == patched_byte(m, fi, si, fi + i, buf@[fi + i]));
            }
        }
    }
    data
}


/// Write `data` at `at`, zero filling up to it.
fn write_at_exec(out: &mut Vec<u8>, at: usize, data: &[u8])
    requires
        at + data@.len() <= usize::MAX,
    ensures
        final(out)@ == write_at(old(out)@, at as int, data@),
{
    let ghost base = if old(out)@.len() < at { old(out)@ + Seq::new((at - old(out)@.len()) as nat, |i: int| 0u8) } else { old(out)@ };
    proof {
        assert(base.take(old(out)@.len() as int) =~= old(out)@);
    }
    while out.len() < at
        invariant
            old(out)@.len() <= out@.len() <= base.len(),
            out@ == base.take(out@.len() as int),
            base.len() == if old(out)@.len() < at { at as int } else { old(out)@.len() as int },
            forall|k: int| old(out)@.len() <= k < base.len() ==> #[trigger] base[k] == 0u8,
        decreases at - out@.len(),
    {
        out.push(0u8);
        proof {
            assert(out@ =~= base.take(out@.len() as int));
        }
    }
    proof {
        assert(out@ =~= base);
    }
    let mut i: usize = 0;
    while i < data.len()
        invariant
            at + data@.len() <= usize::MAX,
            i <= data@.len(),
            base.len() >= at,
            out@.len() == if base.len() > at + i { base.len() as int } else { at + i },
            forall|k: int| 0 <= k < at ==> #[trigger] out@[k] == base[k],
            forall|k: int| at <= k < at + i ==> #[trigger] out@[k] == data@[k - at],
            forall|k: int| at + i <= k < out@.len() ==> #[trigger] out@[k] == base[k],
        decreases data@.len() - i,
    {
        if at + i < out.len() {
            out.set(at + i, data[i]);
        } else {
            out.push(data[i]);
        }
        i = i + 1;
    }
    proof {
        assert(out@ =~= write_at(old(out)@, at as int, data@));
    }
}

/// The patched file: the header, then every live section.
fn image_exec(buf: &[u8], header: &DolHeader, laid: &LaidOut) -> (r: Result<Vec<u8>, DolError>)
    requires
        header.wf(),
        laid.updates.wf(),
        laid.data8@.len() <= u32::MAX,
        laid.caves@.len() <= u32::MAX,
    ensures
        ({
            let lv = Laid {
                secs: header.sections@,
                bss_size: header.bss_size,
                data8: laid.data8@,
                caves: laid.caves@,
                updates: laid.updates@,
                text2_ram: laid.text2_ram,
            };
            match image(buf@, lv, header.bss_address, header.entry_point) {
                Ok(b) => r is Ok && r->Ok_0@ == b,
                Err(e) => r is Err && r->Err_0 == e,
            }
        }),
{
    let ghost lv = Laid {
        secs: header.sections@,
        bss_size: header.bss_size,
        data8: laid.data8@,
        caves: laid.caves@,
        updates: laid.updates@,
        text2_ram: laid.text2_ram,
    };
    let mut out = header.write();
    let l = header.live();
    let ghost out0 = out@;
    let mut k: usize = 0;
    while k < l.len()
        invariant
            laid.updates.wf(),
            laid.data8@.len() <= u32::MAX,
            laid.caves@.len() <= u32::MAX,
            l@ == live(lv.secs),
            lv == (Laid {
                secs: header.sections@,
                bss_size: header.bss_size,
                data8: laid.data8@,
                caves: laid.caves@,
                updates: laid.updates@,
                text2_ram: laid.text2_ram,
            }),
            out0 == header_bytes(header.sections@, header.bss_address, header.bss_size, header.entry_point),
            k <= l@.len(),
            image_run(buf@, lv, l@, k as int, out0) == Ok::<Seq<u8>, DolError>(out@),
        decreases l@.len() - k,
    {
        let s = l[k];
        let sec;
        let data: &[u8] = if s.ram == TRANSLATION_ARENA_RAM {
            laid.data8.as_slice()
        } else if s.ram == laid.text2_ram {
            laid.caves.as_slice()
        } else if s.file as u64 + s.size as u64 > buf.len() as u64 {
            proof {
                lemma_image_err(buf@, lv, l@, k as int + 1, l@.len() as int, out0, DolError::Truncated);
            }
            return Err(DolError::Truncated);
        } else {
            sec = section_bytes_exec(buf, &laid.updates, s);
            sec.as_slice()
        };
        if data.len() > usize::MAX - s.file as usize {
            proof {
                lemma_image_err(buf@, lv, l@, k as int + 1, l@.len() as int, out0, DolError::TooLarge);
            }
            return Err(DolError::TooLarge);
        }
        write_at_exec(&mut out, s.file as usize, data);
        k = k + 1;
    }
    Ok(out)
}

proof fn lemma_image_err(buf: Seq<u8>, laid: Laid, l: Seq<Section>, i: int, n: int, out: Seq<u8>, e: DolError)
    requires
        0 < i <= n,
        image_run(buf, laid, l, i, out) == Err::<Seq<u8>, DolError>(e),
    ensures
        image_run(buf, laid, l, n, out) == Err::<Seq<u8>, DolError>(e),
    decreases n - i,
{
    if i < n {
        lemma_image_err(buf, laid, l, i + 1, n, out, e);
    }
}


/// What patching `main.dol` produced: the patched file, the translations
/// refused (those strings keep their Japanese), and the strings left
/// Japanese because their references cannot all be moved, with why.
pub struct DolOutput {
    pub bytes: Vec<u8>,
    pub refusals: Vec<String>,
    pub notes: Vec<String>,
}

/// The usable pairs grouped by the string they build.
pub open spec fn usable_map(refs: Seq<(u32, ImmRef)>, rejected: Map<u32, Rejection>) -> Map<u32, Seq<ImmRef>> {
    Map::new(|t: u32| usable_for(refs, rejected, t).len() > 0, |t: u32| usable_for(refs, rejected, t))
}

/// `r` is what `res` says.
pub open spec fn outcome(res: Result<(Seq<u8>, Seq<Seq<char>>, Seq<Seq<char>>), DolError>, r: Result<DolOutput, DolError>) -> bool {
    match res {
        Ok(o) => r is Ok && r->Ok_0.bytes@ == o.0 && r->Ok_0.refusals@.map_values(|s: String| s@) == o.1
            && r->Ok_0.notes@.map_values(|s: String| s@) == o.2,
        Err(e) => r is Err && r->Err_0 == e,
    }
}

/// A copy of a header.
fn copy_header(h: &DolHeader) -> (c: DolHeader)
    ensures
        c.sections@ == h.sections@,
        c.bss_address == h.bss_address,
        c.bss_size == h.bss_size,
        c.entry_point == h.entry_point,
{
    let mut sections: Vec<Section> = Vec::new();
    let mut i: usize = 0;
    while i < h.sections.len()
        invariant
            i <= h.sections@.len(),
            sections@ == h.sections@.take(i as int),
        decreases h.sections@.len() - i,
    {
        sections.push(h.sections[i]);
        proof {
            assert(sections@ =~= h.sections@.take(i + 1));
        }
        i = i + 1;
    }
    proof {
        assert(sections@ =~= h.sections@);
    }
    DolHeader { sections, bss_address: h.bss_address, bss_size: h.bss_size, entry_point: h.entry_point }
}

impl DolPatcher {
    /// Patch a scanned `main.dol`: check the playtested references, place
    /// data8, take every translation, lay the bank, resolvers, caves and
    /// arena out, and write the patched file. `assembled` is the three
    /// resolver words, `code` the redirect caves, one per hook in order.
    pub fn patch_scanned(
        &self,
        buf: &[u8],
        header: &DolHeader,
        sc: &Scan,
        assembled: &[u8],
        code: &[u8],
        hooks: &[WalkerHook],
    ) -> (r: Result<DolOutput, DolError>)
        requires
            self.wf(),
            header.wf(),
            header.fits(),
            sc.refs.wf(),
            sc.rejected.wf(),
            pairs_in(buf@, sc.refs@),
            forall|k: int| 0 <= k < hooks@.len() ==> (#[trigger] hooks@[k]).ram <= u32::MAX - 4,
        ensures
            outcome(
                patch_spec(self.entries(), self.tokens(), header.sections@, header.bss_address, header.bss_size, header.entry_point,
                    buf@, sc.refs@, usable_map(sc.refs.entries(), sc.rejected@), sc.rejected@, assembled@, code@, hook_sites(hooks@)),
                r,
            ),
    {
        match check_reviewed(&sc.refs) {
            Ok(()) => {},
            Err(e) => {
                return Err(e);
            },
        }
        let mut h = copy_header(header);
        match place_data8(&mut h) {
            Ok(()) => {},
            Err(e) => {
                return Err(e);
            },
        }
        proof {
            assert forall|i: int| 0 <= i < h.sections@.len() implies #[trigger] h.sections@[i].fits() by {
                if i != DATA8 as int {
                    assert(header.sections@[i].fits());
                }
            }
        }
        let usable = sc.usable();
        proof {
            assert(usable@.map_values(|v: Vec<ImmRef>| v@) =~= usable_map(sc.refs.entries(), sc.rejected@));
        }
        let g = match self.gather(&h, buf, &sc.refs, &usable, &sc.rejected) {
            Ok(g) => g,
            Err(e) => {
                return Err(e);
            },
        };
        let ghost gv = g.view();
        let Gathered { appended, updates, bank, stubs, refusals, notes } = g;
        let g2 = Gathered { appended, updates, bank, stubs, refusals: Vec::new(), notes: Vec::new() };
        proof {
            assert(bank_stage(g2.view(), buf@, sc.refs@) == bank_stage(gv, buf@, sc.refs@));
        }
        let (data8, ptrs, updates) = match bank_stage_exec(g2, buf, &sc.refs) {
            Ok(b) => b,
            Err(e) => {
                return Err(e);
            },
        };
        let laid = match place_stage_exec(&mut h, data8, ptrs, updates, buf, assembled, code, hooks) {
            Ok(l) => l,
            Err(e) => {
                return Err(e);
            },
        };
        let bytes = match image_exec(buf, &h, &laid) {
            Ok(b) => b,
            Err(e) => {
                return Err(e);
            },
        };
        Ok(DolOutput { bytes, refusals, notes })
    }
}


/// `h` is the header read from the start of `buf`.
pub open spec fn header_of(buf: Seq<u8>, h: DolHeader) -> bool {
    &&& h.wf()
    &&& forall|i: int| 0 <= i < SECTIONS ==> #[trigger] h.sections@[i] == raw_section(buf, i)
    &&& h.bss_address == raw_word(buf, 3 * SECTIONS)
    &&& h.bss_size == raw_word(buf, 3 * SECTIONS + 1)
    &&& h.entry_point == raw_word(buf, 3 * SECTIONS + 2)
}


/// Whether every live section's file image is inside `buf`.
pub fn covers_exec(header: &DolHeader, buf: &[u8]) -> (r: bool)
    ensures
        r == covers(header, buf@),
{
    let mut i: usize = 0;
    while i < header.sections.len()
        invariant
            i <= header.sections@.len(),
            forall|j: int| 0 <= j < i && (#[trigger] header.sections@[j]).size != 0 ==> header.sections@[j].file + header.sections@[j].size <= buf@.len(),
        decreases header.sections@.len() - i,
    {
        let s = header.sections[i];
        if s.size != 0 && s.file as u64 + s.size as u64 > buf.len() as u64 {
            return false;
        }
        i = i + 1;
    }
    true
}

proof fn lemma_pairs_in(buf: Seq<u8>, h: &DolHeader, imm: Map<u32, ImmRef>)
    requires
        refs_ok(buf, h, imm),
    ensures
        pairs_in(buf, imm),
{
    assert forall|k: u32| #[trigger] imm.contains_key(k) implies imm[k].hi_off + 4 <= buf.len() && imm[k].lo_off + 4 <= buf.len() by {
        assert(pair_ok(buf, h, imm[k]));
    }
}

impl DolPatcher {
    /// Patch `main.dol`: read its header, scan its code for immediate pairs
    /// under `verdicts`, then patch as `patch_scanned` does. A file too short
    /// for its header or its sections is truncated; a section that wraps the
    /// address space is refused.
    pub fn patch(&self, buf: &[u8], verdicts: &Relocatable, assembled: &[u8], code: &[u8], hooks: &[WalkerHook]) -> (r: Result<DolOutput, DolError>)
        requires
            self.wf(),
            forall|k: int| 0 <= k < hooks@.len() ==> (#[trigger] hooks@[k]).ram <= u32::MAX - 4,
        ensures
            buf@.len() < HEADER_READ_BYTES ==> r is Err && r->Err_0 == DolError::Truncated,
            buf@.len() >= HEADER_READ_BYTES ==> exists|h: DolHeader|
                #[trigger] header_of(buf@, h) && (!h.fits() ==> r is Err && r->Err_0 == DolError::SectionOverflow) && (h.fits()
                    && !covers(&h, buf@) ==> r is Err && r->Err_0 == DolError::Truncated) && (h.fits() && covers(&h, buf@) ==> outcome(
                    patch_spec(self.entries(), self.tokens(), h.sections@, h.bss_address, h.bss_size, h.entry_point, buf@,
                        scan_spec(buf@, h, *verdicts).0, usable_map(sorted_entries(scan_spec(buf@, h, *verdicts).0), scan_spec(buf@, h,
                        *verdicts).1), scan_spec(buf@, h, *verdicts).1, assembled@, code@, hook_sites(hooks@)),
                    r,
                )),
    {
        let header = match DolHeader::read(buf) {
            Ok(h) => h,
            Err(_) => {
                return Err(DolError::Truncated);
            },
        };
        assert(header_of(buf@, header));
        if !header.check_fits() {
            return Err(DolError::SectionOverflow);
        }
        if !covers_exec(&header, buf) {
            return Err(DolError::Truncated);
        }
        let sc = scan(buf, &header, verdicts);
        proof {
            lemma_pairs_in(buf@, &header, sc.refs@);
            crate::ppc::lemma_sorted_entries_of(sc.refs.entries());
        }
        self.patch_scanned(buf, &header, &sc, assembled, code, hooks)
    }
}

} // verus!
