//! The `.patch` sidecar of an event script: one entry per string, with every
//! reference to it, so that one English line satisfies all of its readers.

use vstd::prelude::*;
use std::collections::HashMap;
use crate::spt::{Plan, StringRef, RefKind, plan, users_of, ref_cmd_text, ref_kind_text, REACH, NAME_CAP, planned};
use crate::text::{hex, decimal, push_str, push_hex, push_dec, string_of};
use crate::patcher::{sort_dedup, increasing, lemma_sort_dedup_increasing, lemma_sort_dedup_contains, lemma_increasing_unique};
use crate::sorted_map::{SortedMap, seq_has, lemma_sorted_lookup};
use crate::utils::{EntryView, PatchState, IntError, empty_entry, patch_line, reads_as, spec_patch, strip_cr, blank, starts_with,
    spec_is_ws, lemma_reads_line, lemma_reads_concat, lemma_reads_nothing, lemma_read_whole, lemma_hex_reads_back,
    lemma_cut_after_ascii, no_nl, lemma_no_nl_concat, lemma_hex_chars, lemma_decimal_no_nl, lemma_first_index_at,
    lemma_before_space_hex, lemma_comment_reads, lemma_differs_at, lemma_blank_line_reads, lemma_jp_line_reads,
    lemma_blank_line_idle};

verus! {

/// A line: the text and a newline.
pub open spec fn line(s: Seq<char>) -> Seq<char> {
    s.push('\n')
}

/// The `slot` column of a reference comment.
pub open spec fn slot_text(slot: Option<usize>) -> Seq<char> {
    match slot {
        Some(s) => "0x"@ + hex(s as nat, 1),
        None => "unwritable"@,
    }
}

/// The comment naming one reference.
pub open spec fn reference_line(name: Seq<char>, s: StringRef) -> Seq<char> {
    line(
        "# reference at "@ + name + ":0x"@ + hex(s.at as nat, 1) + " (cmd "@ + ref_cmd_text(s.kind) + " "@ + ref_kind_text(s.kind)
            + ", slot "@ + slot_text(s.slot) + ")"@,
    )
}

/// The comments naming the references at positions `us`, in order.
pub open spec fn reference_lines(name: Seq<char>, strings: Seq<StringRef>, us: Seq<int>) -> Seq<char>
    decreases us.len(),
{
    if us.len() == 0 {
        Seq::empty()
    } else {
        reference_lines(name, strings, us.drop_last()) + reference_line(name, strings[us.last()])
    }
}

/// Some reference among `us` is a slot of the name table.
pub open spec fn read_as_name(strings: Seq<StringRef>, us: Seq<int>) -> bool {
    exists|i: int| 0 <= i < us.len() && (#[trigger] strings[us[i]]).kind == RefKind::Table(11)
}

/// The cap comment, where a name-table reader copies the string into a
/// fixed field and the Japanese fits that field.
pub open spec fn cap_line(strings: Seq<StringRef>, us: Seq<int>, o: u32) -> Seq<char> {
    let jp_words = (strings[us[0]].end - o) / 2 - 1;
    if read_as_name(strings, us) && jp_words <= NAME_CAP {
        line(
            "# cap "@ + decimal(NAME_CAP as nat)
                + " glyphs: this is a name field, and over the cap the 0x12-byte copy loses its terminator"@,
        )
    } else {
        Seq::empty()
    }
}

/// The entry of the string at offset `o`: its references, its cap, the
/// Japanese, and a blank line.
pub open spec fn string_entry(name: Seq<char>, strings: Seq<StringRef>, o: u32) -> Seq<char> {
    let us = users_of(strings, o as int);
    reference_lines(name, strings, us) + cap_line(strings, us, o) + line("0x"@ + hex(o as nat, 1) + " "@ + strings[us[0]].jp@)
        + line(Seq::empty())
}

/// The entries of the strings at offsets `os`, in order.
pub open spec fn string_entries(name: Seq<char>, strings: Seq<StringRef>, os: Seq<u32>) -> Seq<char>
    decreases os.len(),
{
    if os.len() == 0 {
        Seq::empty()
    } else {
        string_entries(name, strings, os.drop_last()) + string_entry(name, strings, os.last())
    }
}

/// The offsets the references name, in increasing order, each once.
pub open spec fn spt_offsets(strings: Seq<StringRef>) -> Seq<u32> {
    sort_dedup(strings.map_values(|s: StringRef| s.offset as u32))
}

/// How much room a replacement has, as the header says it.
pub open spec fn arena_text(record_cursor: usize) -> Seq<char> {
    if record_cursor < REACH {
        decimal((REACH - record_cursor) as nat) + " bytes of arena shared by every replacement"@
    } else {
        "no arena: a string may not grow past the Japanese it replaces"@
    }
}

/// The sidecar of the script `name` whose plan is `p`.
pub open spec fn spt_sidecar(name: Seq<char>, p: Plan) -> Seq<char> {
    let os = spt_offsets(p.strings@);
    line(
        "# "@ + name + ": "@ + decimal(os.len()) + " strings, "@ + decimal(p.strings@.len())
            + " references. Translate by repeating the 0xOFFSET line with English."@,
    ) + line(
        "# record cursor 0x"@ + hex(p.record_cursor as nat, 4) + ", script ends 0x"@ + hex(p.script_end as nat, 4) + ", "@
            + arena_text(p.record_cursor),
    ) + line(Seq::empty()) + string_entries(name, p.strings@, os)
}

/// What every reference of a plan satisfies: its string starts inside the
/// addressable window and ends past a terminator.
pub open spec fn refs_in_window(strings: Seq<StringRef>) -> bool {
    forall|i: int| 0 <= i < strings.len() ==> (#[trigger] strings[i]).offset < REACH && strings[i].end >= strings[i].offset + 2
}

proof fn lemma_users_nonempty(strings: Seq<StringRef>, o: int)
    ensures
        users_of(strings, o).len() > 0 <==> exists|i: int| 0 <= i < strings.len() && (#[trigger] strings[i]).offset == o,
        forall|j: int| 0 <= j < users_of(strings, o).len() ==> 0 <= #[trigger] users_of(strings, o)[j] < strings.len()
            && strings[users_of(strings, o)[j]].offset == o,
{
    let all = Seq::new(strings.len(), |i: int| i);
    let pred = |i: int| strings[i].offset == o;
    let us = all.filter(pred);
    assert(us == users_of(strings, o));
    assert forall|j: int| 0 <= j < us.len() implies 0 <= #[trigger] us[j] < strings.len() && strings[us[j]].offset == o by {
        all.lemma_filter_pred(pred, j);
        assert(us.contains(us[j]));
        all.lemma_filter_contains_rev(pred, us[j]);
    }
    if us.len() > 0 {
        assert(0 <= us[0] < strings.len() && strings[us[0]].offset == o);
    }
    if exists|i: int| 0 <= i < strings.len() && (#[trigger] strings[i]).offset == o {
        let i = choose|i: int| 0 <= i < strings.len() && (#[trigger] strings[i]).offset == o;
        assert(all[i] == i);
        all.lemma_filter_contains(pred, i);
    }
}

/// The keys of `by_offset`'s map, in order, are the offsets the references
/// name, sorted and each once.
proof fn lemma_keys_are_offsets(strings: Seq<StringRef>, m: SortedMap<Vec<usize>>)
    requires
        refs_in_window(strings),
        m.wf(),
        forall|o: u32| #[trigger] m@.contains_key(o) <==> users_of(strings, o as int).len() > 0,
    ensures
        m.entries().map_values(|e: (u32, Vec<usize>)| e.0) == spt_offsets(strings),
{
    let ks = m.entries().map_values(|e: (u32, Vec<usize>)| e.0);
    let offs = strings.map_values(|s: StringRef| s.offset as u32);
    let os = spt_offsets(strings);
    assert(increasing(ks)) by {
        assert forall|i: int, j: int| 0 <= i < j < ks.len() implies ks[i] < ks[j] by {
            assert(ks[i] == m.entries()[i].0 && ks[j] == m.entries()[j].0);
        }
    }
    lemma_sort_dedup_increasing(offs);
    assert forall|y: u32| ks.contains(y) <==> os.contains(y) by {
        lemma_sort_dedup_contains(offs, y);
        lemma_users_nonempty(strings, y as int);
        if ks.contains(y) {
            let i = choose|i: int| 0 <= i < ks.len() && ks[i] == y;
            lemma_sorted_lookup(m.entries(), i);
            assert(m.entries()[i].0 == y);
            assert(m@.contains_key(y));
            assert(users_of(strings, y as int).len() > 0);
            let k = choose|k: int| 0 <= k < strings.len() && (#[trigger] strings[k]).offset == y as int;
            assert(offs[k] == y);
        }
        if offs.contains(y) {
            let k = choose|k: int| 0 <= k < offs.len() && offs[k] == y;
            assert(strings[k].offset < REACH);
            assert(strings[k].offset == y as int);
            assert(m@.contains_key(y));
            assert(seq_has(m.entries(), y));
            let i = choose|i: int| 0 <= i < m.entries().len() && (#[trigger] m.entries()[i]).0 == y;
            assert(ks[i] == y);
        }
    }
    lemma_increasing_unique(ks, os);
}

fn push_line(out: &mut Vec<char>)
    ensures
        final(out)@ == old(out)@.push('\n'),
{
    out.push('\n');
}

fn push_reference(out: &mut Vec<char>, name: &str, s: &StringRef)
    ensures
        final(out)@ == old(out)@ + reference_line(name@, *s),
{
    let ghost start = out@;
    push_str(out, "# reference at ");
    push_str(out, name);
    push_str(out, ":0x");
    push_hex(out, s.at as u64, 1);
    push_str(out, " (cmd ");
    let c = s.kind.cmd();
    push_str(out, c.as_str());
    push_str(out, " ");
    let d = s.kind.describe();
    push_str(out, d.as_str());
    push_str(out, ", slot ");
    match s.slot {
        Some(slot) => {
            push_str(out, "0x");
            push_hex(out, slot as u64, 1);
        },
        None => push_str(out, "unwritable"),
    }
    push_str(out, ")");
    push_line(out);
    proof {
        assert(out@ =~= start + reference_line(name@, *s));
    }
}

/// One string's entry, its references at positions `us`.
fn push_entry(out: &mut Vec<char>, name: &str, strings: &[StringRef], o: u32, us: &[usize])
    requires
        refs_in_window(strings@),
        us@.map_values(|i: usize| i as int) == users_of(strings@, o as int),
        us@.len() > 0,
    ensures
        final(out)@ == old(out)@ + string_entry(name@, strings@, o),
{
    let ghost start = out@;
    let ghost uv = users_of(strings@, o as int);
    proof {
        lemma_users_nonempty(strings@, o as int);
        assert forall|j: int| 0 <= j < us@.len() implies (#[trigger] us@[j]) < strings@.len() && strings@[us@[j] as int].offset == o by {
            assert(uv[j] == us@[j] as int);
        }
    }
    let mut kinds: Vec<RefKind> = Vec::new();
    let mut j: usize = 0;
    while j < us.len()
        invariant
            j <= us@.len(),
            uv == users_of(strings@, o as int),
            us@.map_values(|i: usize| i as int) == uv,
            forall|q: int| 0 <= q < us@.len() ==> (#[trigger] us@[q]) < strings@.len() && strings@[us@[q] as int].offset == o,
            out@ == start + reference_lines(name@, strings@, uv.take(j as int)),
            kinds@.len() == j,
            forall|q: int| 0 <= q < j ==> #[trigger] kinds@[q] == strings@[us@[q] as int].kind,
        decreases us@.len() - j,
    {
        let s = &strings[us[j]];
        push_reference(out, name, s);
        kinds.push(s.kind);
        proof {
            assert(uv[j as int] == us@[j as int] as int);
            assert(uv.take(j + 1).drop_last() =~= uv.take(j as int));
            assert(uv.take(j + 1).last() == us@[j as int] as int);
        }
        j = j + 1;
    }
    proof {
        assert(uv.take(us@.len() as int) =~= uv);
        assert(uv[0] == us@[0] as int);
    }
    let first = &strings[us[0]];
    let jp_words = (first.end - first.offset) / 2 - 1;
    let ghost mid = out@;
    match Plan::cap(kinds.as_slice(), jp_words) {
        Some(cap) => {
            push_str(out, "# cap ");
            push_dec(out, cap as u64);
            push_str(out, " glyphs: this is a name field, and over the cap the 0x12-byte copy loses its terminator");
            push_line(out);
            proof {
                let q = choose|q: int| 0 <= q < kinds@.len() && kinds@[q] == RefKind::Table(11);
                assert(uv[q] == us@[q] as int);
                assert(strings@[uv[q]].kind == RefKind::Table(11));
                assert(read_as_name(strings@, uv));
            }
        },
        None => {
            proof {
                if read_as_name(strings@, uv) && jp_words <= NAME_CAP {
                    let q = choose|q: int| 0 <= q < uv.len() && (#[trigger] strings@[uv[q]]).kind == RefKind::Table(11);
                    assert(uv[q] == us@[q] as int);
                    assert(kinds@[q] == RefKind::Table(11));
                }
            }
        },
    }
    proof {
        assert(out@ =~= mid + cap_line(strings@, uv, o));
    }
    let ghost mid2 = out@;
    push_str(out, "0x");
    push_hex(out, o as u64, 1);
    push_str(out, " ");
    push_str(out, first.jp.as_str());
    push_line(out);
    push_line(out);
    proof {
        assert(out@ =~= mid2 + line("0x"@ + hex(o as nat, 1) + " "@ + strings@[uv[0]].jp@) + line(Seq::empty()));
        assert(out@ =~= start + string_entry(name@, strings@, o));
    }
}

/// The sidecar of the script `name` whose plan is `p`: a header with the
/// counts and the room a replacement has, then one entry per string in
/// offset order, each with every reference to it.
pub fn spt_sidecar_text(name: &str, p: &Plan) -> (r: String)
    requires
        refs_in_window(p.strings@),
    ensures
        r@ == spt_sidecar(name@, *p),
{
    let m = p.by_offset();
    let ghost strings = p.strings@;
    let ghost os = spt_offsets(strings);
    proof {
        lemma_keys_are_offsets(strings, m);
        assert(m.entries().map_values(|e: (u32, Vec<usize>)| e.0).len() == m.entries().len());
    }
    let mut out: Vec<char> = Vec::new();
    push_str(&mut out, "# ");
    push_str(&mut out, name);
    push_str(&mut out, ": ");
    push_dec(&mut out, m.len() as u64);
    push_str(&mut out, " strings, ");
    push_dec(&mut out, p.strings.len() as u64);
    push_str(&mut out, " references. Translate by repeating the 0xOFFSET line with English.");
    push_line(&mut out);
    push_str(&mut out, "# record cursor 0x");
    push_hex(&mut out, p.record_cursor as u64, 4);
    push_str(&mut out, ", script ends 0x");
    push_hex(&mut out, p.script_end as u64, 4);
    push_str(&mut out, ", ");
    let arena = p.arena_bytes();
    if arena > 0 {
        push_dec(&mut out, arena as u64);
        push_str(&mut out, " bytes of arena shared by every replacement");
    } else {
        push_str(&mut out, "no arena: a string may not grow past the Japanese it replaces");
    }
    push_line(&mut out);
    push_line(&mut out);
    let ghost head = out@;
    proof {
        assert(head =~= line(
            "# "@ + name@ + ": "@ + decimal(os.len()) + " strings, "@ + decimal(strings.len())
                + " references. Translate by repeating the 0xOFFSET line with English."@,
        ) + line(
            "# record cursor 0x"@ + hex(p.record_cursor as nat, 4) + ", script ends 0x"@ + hex(p.script_end as nat, 4) + ", "@
                + arena_text(p.record_cursor),
        ) + line(Seq::empty()));
        assert(out@ =~= head + string_entries(name@, strings, os.take(0)));
    }
    let mut k: usize = 0;
    while k < m.len()
        invariant
            m.wf(),
            strings == p.strings@,
            refs_in_window(strings),
            forall|o: u32| #[trigger] m@.contains_key(o) <==> users_of(strings, o as int).len() > 0,
            forall|o: u32| #[trigger] m@.contains_key(o) ==> m@[o]@.map_values(|i: usize| i as int) == users_of(strings, o as int),
            m.entries().map_values(|e: (u32, Vec<usize>)| e.0) == os,
            os.len() == m.entries().len(),
            k <= os.len(),
            out@ == head + string_entries(name@, strings, os.take(k as int)),
        decreases os.len() - k,
    {
        let e = m.at(k);
        proof {
            lemma_sorted_lookup(m.entries(), k as int);
            assert(os[k as int] == e.0);
            assert(m@.contains_key(e.0));
            assert(m@[e.0] == e.1);
            assert(users_of(strings, e.0 as int).len() > 0);
        }
        push_entry(&mut out, name, p.strings.as_slice(), e.0, e.1.as_slice());
        proof {
            assert(os.take(k + 1).drop_last() =~= os.take(k as int));
            assert(os.take(k + 1).last() == e.0);
        }
        k = k + 1;
    }
    proof {
        assert(os.take(os.len() as int) =~= os);
    }
    string_of(out.as_slice())
}

/// What dumping the script `buf` named `name` may give: the sidecar of a
/// plan that meets what `plan` guarantees of it.
pub open spec fn spt_outcome(buf: Seq<u8>, name: Seq<char>, glyphs: Map<u16, String>, text: Seq<char>) -> bool {
    exists|p: Plan| #[trigger] p.wf(buf, glyphs) && planned(buf, glyphs, p) && text == spt_sidecar(name, p)
}

/// Dump the event script `buf`, named `name`: plan it, then write its
/// sidecar. The sidecar is stated over the plan of `buf`, which `planned`
/// pins down value by value.
pub fn dump_spt(buf: &[u8], name: &str, glyphs: &HashMap<u16, String>) -> (r: String)
    ensures
        spt_outcome(buf@, name@, glyphs@, r@),
{
    let p = plan(buf, glyphs);
    proof {
        assert forall|i: int| 0 <= i < p.strings@.len() implies (#[trigger] p.strings@[i]).offset < REACH
            && p.strings@[i].end >= p.strings@[i].offset + 2 by {
            assert(crate::spt::plan_ref_ok(buf@, glyphs@, p.strings@[i]));
        }
    }
    let r = spt_sidecar_text(name, &p);
    proof {
        assert(p.wf(buf@, glyphs@));
        assert(planned(buf@, glyphs@, p));
    }
    r
}


/// A file name the sidecar's lines can carry as they are: no line break, no
/// colon, and a header that cannot be taken for a reference line.
pub open spec fn plain_name(name: Seq<char>) -> bool {
    &&& no_nl(name)
    &&& forall|i: int| 0 <= i < name.len() ==> name[i] != ':'
    &&& !starts_with(name, "reference at"@)
}

/// The references at positions `us`, as the reader records them.
pub open spec fn refs_of(strings: Seq<StringRef>, us: Seq<int>) -> Seq<u32> {
    us.map_values(|u: int| strings[u].at as u32)
}

/// What the reader takes from a script's sidecar for the strings at `os`:
/// each string's offset, the slot of every reference to it in plan order,
/// and no English.
pub open spec fn sidecar_entries(strings: Seq<StringRef>, os: Seq<u32>) -> Seq<EntryView> {
    os.map_values(|o: u32| (o, refs_of(strings, users_of(strings, o as int)), None::<Seq<char>>))
}








proof fn lemma_ref_texts_no_nl(k: RefKind, slot: Option<usize>)
    ensures
        no_nl(ref_cmd_text(k)),
        no_nl(ref_kind_text(k)),
        no_nl(slot_text(slot)),
{
    reveal_strlit("0307-array");
    reveal_strlit("table");
    reveal_strlit("0808-table");
    reveal_strlit("direct");
    reveal_strlit("obj-text[0x");
    reveal_strlit("]");
    reveal_strlit("table[");
    reveal_strlit("native-table[0x");
    reveal_strlit("0x");
    reveal_strlit("unwritable");
    match k {
        RefKind::Direct(op) => {
            lemma_hex_chars(op as nat, 4);
        },
        RefKind::ObjText(b) => {
            lemma_hex_chars(b as nat, 1);
            lemma_no_nl_concat("obj-text[0x"@, hex(b as nat, 1));
            lemma_no_nl_concat("obj-text[0x"@ + hex(b as nat, 1), "]"@);
        },
        RefKind::Table(t) => {
            lemma_decimal_no_nl(t as nat);
            lemma_no_nl_concat("table["@, decimal(t as nat));
            lemma_no_nl_concat("table["@ + decimal(t as nat), "]"@);
        },
        RefKind::Native(o) => {
            lemma_hex_chars(o as nat, 1);
            lemma_no_nl_concat("native-table[0x"@, hex(o as nat, 1));
            lemma_no_nl_concat("native-table[0x"@ + hex(o as nat, 1), "]"@);
        },
    }
    match slot {
        Some(v) => {
            lemma_hex_chars(v as nat, 1);
            lemma_no_nl_concat("0x"@, hex(v as nat, 1));
        },
        None => {},
    }
}

/// A reference line adds its slot to the entry being read.
proof fn lemma_reference_line_reads(name: Seq<char>, s: StringRef, st: PatchState)
    requires
        plain_name(name),
        s.at <= u32::MAX,
    ensures
        reads_as(st, reference_line(name, s), (st.0, (st.1.0, st.1.1.push(s.at as u32), st.1.2), st.2)),
{
    reveal_strlit("# reference at ");
    reveal_strlit("# reference at");
    reveal_strlit(":0x");
    reveal_strlit(" (cmd ");
    reveal_strlit(" ");
    reveal_strlit(", slot ");
    reveal_strlit(")");
    reveal_strlit("0x");
    let head = "# reference at "@ + name + ":0x"@;
    let h = hex(s.at as nat, 1);
    let tail = " (cmd "@ + ref_cmd_text(s.kind) + " "@ + ref_kind_text(s.kind) + ", slot "@ + slot_text(s.slot) + ")"@;
    let x = head + h + tail;
    assert(reference_line(name, s) =~= x.push('\n'));
    lemma_ref_texts_no_nl(s.kind, s.slot);
    lemma_hex_chars(s.at as nat, 1);
    lemma_no_nl_concat("# reference at "@, name);
    lemma_no_nl_concat("# reference at "@ + name, ":0x"@);
    lemma_no_nl_concat(" (cmd "@, ref_cmd_text(s.kind));
    lemma_no_nl_concat(" (cmd "@ + ref_cmd_text(s.kind), " "@);
    lemma_no_nl_concat(" (cmd "@ + ref_cmd_text(s.kind) + " "@, ref_kind_text(s.kind));
    lemma_no_nl_concat(" (cmd "@ + ref_cmd_text(s.kind) + " "@ + ref_kind_text(s.kind), ", slot "@);
    lemma_no_nl_concat(" (cmd "@ + ref_cmd_text(s.kind) + " "@ + ref_kind_text(s.kind) + ", slot "@, slot_text(s.slot));
    lemma_no_nl_concat(" (cmd "@ + ref_cmd_text(s.kind) + " "@ + ref_kind_text(s.kind) + ", slot "@ + slot_text(s.slot), ")"@);
    lemma_no_nl_concat(head, h);
    lemma_no_nl_concat(head + h, tail);
    assert(!x.contains('\n')) by {
        if x.contains('\n') {
            let i = choose|i: int| 0 <= i < x.len() && x[i] == '\n';
            assert(x[i] != '\n');
        }
    }
    assert(x.last() == ')');
    assert(strip_cr(x) == x);
    reveal(patch_line);
    assert(!spec_is_ws(x[0]));
    assert(!blank(x));
    assert(x.take(14) =~= "# reference at"@);
    assert(starts_with(x, "# reference at"@));
    let p: int = 15 + name.len() as int;
    assert(x[p] == ':');
    assert forall|j: int| 0 <= j < p implies x[j] != ':' by {
        if j < 15 {
            assert(x[j] == "# reference at "@[j]);
        } else {
            assert(x[j] == name[j - 15]);
        }
    }
    lemma_first_index_at(x, ':', p);
    assert(x[p + 1] == '0' && x[p + 2] == 'x');
    lemma_cut_after_ascii(x, p);
    assert(x.skip(p + 3) =~= h + tail);
    assert(tail[0] == ' ');
    lemma_before_space_hex(h, tail);
    lemma_hex_reads_back(s.at as nat, 0xffff_ffff);
    lemma_reads_line(st, x, (st.0, (st.1.0, st.1.1.push(s.at as u32), st.1.2), st.2));
}



/// The cap comment changes nothing.
proof fn lemma_cap_line_reads(strings: Seq<StringRef>, us: Seq<int>, o: u32, st: PatchState)
    ensures
        reads_as(st, cap_line(strings, us, o), st),
{
    let body = "# cap "@ + decimal(NAME_CAP as nat) + " glyphs: this is a name field, and over the cap the 0x12-byte copy loses its terminator"@;
    if cap_line(strings, us, o).len() > 0 {
        reveal_strlit("# cap ");
        reveal_strlit(" glyphs: this is a name field, and over the cap the 0x12-byte copy loses its terminator");
        reveal_strlit("# reference at");
        lemma_decimal_no_nl(NAME_CAP as nat);
        lemma_no_nl_concat("# cap "@, decimal(NAME_CAP as nat));
        lemma_no_nl_concat("# cap "@ + decimal(NAME_CAP as nat),
            " glyphs: this is a name field, and over the cap the 0x12-byte copy loses its terminator"@);
        assert(body[2] == 'c');
        lemma_differs_at(body, "# reference at"@, 2);
        lemma_comment_reads(body, st);
    } else {
        assert(cap_line(strings, us, o) =~= Seq::<char>::empty());
        lemma_reads_nothing(st);
    }
}




proof fn lemma_arena_text_no_nl(rc: usize)
    ensures
        no_nl(arena_text(rc)),
        arena_text(rc).len() > 0,
        arena_text(rc).last() != '\r',
{
    reveal_strlit(" bytes of arena shared by every replacement");
    reveal_strlit("no arena: a string may not grow past the Japanese it replaces");
    if rc < REACH {
        lemma_decimal_no_nl((REACH - rc) as nat);
        lemma_no_nl_concat(decimal((REACH - rc) as nat), " bytes of arena shared by every replacement"@);
    }
}

/// The header's three lines change nothing.
proof fn lemma_header_reads(name: Seq<char>, p: Plan, st: PatchState)
    requires
        plain_name(name),
        !st.2,
    ensures
        reads_as(st, line(
            "# "@ + name + ": "@ + decimal(spt_offsets(p.strings@).len()) + " strings, "@ + decimal(p.strings@.len())
                + " references. Translate by repeating the 0xOFFSET line with English."@,
        ) + line(
            "# record cursor 0x"@ + hex(p.record_cursor as nat, 4) + ", script ends 0x"@ + hex(p.script_end as nat, 4) + ", "@
                + arena_text(p.record_cursor),
        ) + line(Seq::empty()), st),
{
    reveal_strlit("# ");
    reveal_strlit(": ");
    reveal_strlit(" strings, ");
    reveal_strlit(" references. Translate by repeating the 0xOFFSET line with English.");
    reveal_strlit("# record cursor 0x");
    reveal_strlit(", script ends 0x");
    reveal_strlit(", ");
    reveal_strlit("# reference at");
    reveal_strlit("reference at");
    let a = decimal(spt_offsets(p.strings@).len());
    let b = decimal(p.strings@.len());
    let x1 = "# "@ + name + ": "@ + a + " strings, "@ + b + " references. Translate by repeating the 0xOFFSET line with English."@;
    lemma_decimal_no_nl(spt_offsets(p.strings@).len());
    lemma_decimal_no_nl(p.strings@.len());
    lemma_no_nl_concat("# "@, name);
    lemma_no_nl_concat("# "@ + name, ": "@);
    lemma_no_nl_concat("# "@ + name + ": "@, a);
    lemma_no_nl_concat("# "@ + name + ": "@ + a, " strings, "@);
    lemma_no_nl_concat("# "@ + name + ": "@ + a + " strings, "@, b);
    lemma_no_nl_concat("# "@ + name + ": "@ + a + " strings, "@ + b, " references. Translate by repeating the 0xOFFSET line with English."@);
    assert(!starts_with(x1, "# reference at"@)) by {
        let lit = "reference at"@;
        if name.len() >= 12 {
            assert(!(name.take(12) =~= lit));
            let i = choose|i: int| 0 <= i < 12 && name.take(12)[i] != lit[i];
            assert(x1[2 + i] == name[i]);
            assert("# reference at"@[2 + i] == lit[i]);
            lemma_differs_at(x1, "# reference at"@, 2 + i);
        } else {
            let i: int = 2 + name.len() as int;
            assert(x1[i] == ':');
            lemma_differs_at(x1, "# reference at"@, i);
        }
    }
    lemma_comment_reads(x1, st);
    let x2 = "# record cursor 0x"@ + hex(p.record_cursor as nat, 4) + ", script ends 0x"@ + hex(p.script_end as nat, 4) + ", "@
        + arena_text(p.record_cursor);
    lemma_hex_chars(p.record_cursor as nat, 4);
    lemma_hex_chars(p.script_end as nat, 4);
    lemma_arena_text_no_nl(p.record_cursor);
    lemma_no_nl_concat("# record cursor 0x"@, hex(p.record_cursor as nat, 4));
    lemma_no_nl_concat("# record cursor 0x"@ + hex(p.record_cursor as nat, 4), ", script ends 0x"@);
    lemma_no_nl_concat("# record cursor 0x"@ + hex(p.record_cursor as nat, 4) + ", script ends 0x"@, hex(p.script_end as nat, 4));
    lemma_no_nl_concat("# record cursor 0x"@ + hex(p.record_cursor as nat, 4) + ", script ends 0x"@ + hex(p.script_end as nat, 4), ", "@);
    lemma_no_nl_concat("# record cursor 0x"@ + hex(p.record_cursor as nat, 4) + ", script ends 0x"@ + hex(p.script_end as nat, 4) + ", "@,
        arena_text(p.record_cursor));
    assert(x2[4] == 'c');
    lemma_differs_at(x2, "# reference at"@, 4);
    assert(x2.last() == arena_text(p.record_cursor).last());
    lemma_comment_reads(x2, st);
    lemma_blank_line_idle(st);
    lemma_reads_concat(st, line(x1), st, line(x2), st);
    lemma_reads_concat(st, line(x1) + line(x2), st, line(Seq::empty()), st);
}

/// The reference lines of an entry add their slots, in order.
proof fn lemma_reference_lines_read(name: Seq<char>, strings: Seq<StringRef>, us: Seq<int>, st: PatchState)
    requires
        plain_name(name),
        forall|k: int| 0 <= k < us.len() ==> 0 <= #[trigger] us[k] < strings.len(),
        forall|i: int| 0 <= i < strings.len() ==> (#[trigger] strings[i]).at <= u32::MAX,
    ensures
        reads_as(st, reference_lines(name, strings, us), (st.0, (st.1.0, st.1.1 + refs_of(strings, us), st.1.2), st.2)),
    decreases us.len(),
{
    if us.len() == 0 {
        assert(st.1.1 + refs_of(strings, us) =~= st.1.1);
        assert(reference_lines(name, strings, us) =~= Seq::<char>::empty());
        lemma_reads_nothing(st);
    } else {
        let d = us.drop_last();
        lemma_reference_lines_read(name, strings, d, st);
        let s1 = (st.0, (st.1.0, st.1.1 + refs_of(strings, d), st.1.2), st.2);
        let u = us.last();
        assert(0 <= us[us.len() - 1] < strings.len());
        lemma_reference_line_reads(name, strings[u], s1);
        assert(st.1.1 + refs_of(strings, d) + seq![strings[u].at as u32] =~= st.1.1 + refs_of(strings, us));
        assert((st.1.1 + refs_of(strings, d)).push(strings[u].at as u32) =~= st.1.1 + refs_of(strings, us));
        lemma_reads_concat(st, reference_lines(name, strings, d), s1, reference_line(name, strings[u]),
            (st.0, (st.1.0, st.1.1 + refs_of(strings, us), st.1.2), st.2));
    }
}

/// One string's entry is read as one finished entry.
proof fn lemma_entry_reads(name: Seq<char>, strings: Seq<StringRef>, o: u32, done: Seq<EntryView>)
    requires
        plain_name(name),
        users_of(strings, o as int).len() > 0,
        forall|i: int| 0 <= i < strings.len() ==> (#[trigger] strings[i]).at <= u32::MAX && no_nl(strings[i].jp@),
    ensures
        reads_as((done, empty_entry(), false), string_entry(name, strings, o),
            (done.push((o, refs_of(strings, users_of(strings, o as int)), None::<Seq<char>>)), empty_entry(), false)),
{
    let us = users_of(strings, o as int);
    lemma_users_nonempty(strings, o as int);
    let st0 = (done, empty_entry(), false);
    let refs = refs_of(strings, us);
    let s1 = (done, (0u32, refs, None::<Seq<char>>), false);
    lemma_reference_lines_read(name, strings, us, st0);
    assert(Seq::<u32>::empty() + refs =~= refs);
    lemma_cap_line_reads(strings, us, o, s1);
    lemma_reads_concat(st0, reference_lines(name, strings, us), s1, cap_line(strings, us, o), s1);
    let jp = strings[us[0]].jp@;
    assert(0 <= us[0] < strings.len());
    let s2 = (done, (o, refs, None::<Seq<char>>), true);
    lemma_jp_line_reads(o, jp, done, (0u32, refs, None::<Seq<char>>));
    lemma_reads_concat(st0, reference_lines(name, strings, us) + cap_line(strings, us, o), s1,
        line("0x"@ + hex(o as nat, 1) + " "@ + jp), s2);
    lemma_blank_line_reads(done, (o, refs, None::<Seq<char>>));
    lemma_reads_concat(st0, reference_lines(name, strings, us) + cap_line(strings, us, o) + line("0x"@ + hex(o as nat, 1) + " "@ + jp), s2,
        line(Seq::empty()), (done.push((o, refs, None::<Seq<char>>)), empty_entry(), false));
}

/// The entries of the strings at `os` are read as one finished entry each,
/// in order.
proof fn lemma_entries_read(name: Seq<char>, strings: Seq<StringRef>, os: Seq<u32>, done: Seq<EntryView>)
    requires
        plain_name(name),
        forall|k: int| 0 <= k < os.len() ==> users_of(strings, #[trigger] os[k] as int).len() > 0,
        forall|i: int| 0 <= i < strings.len() ==> (#[trigger] strings[i]).at <= u32::MAX && no_nl(strings[i].jp@),
    ensures
        reads_as((done, empty_entry(), false), string_entries(name, strings, os), (done + sidecar_entries(strings, os), empty_entry(), false)),
    decreases os.len(),
{
    if os.len() == 0 {
        assert(done + sidecar_entries(strings, os) =~= done);
        lemma_reads_nothing((done, empty_entry(), false));
    } else {
        let d = os.drop_last();
        assert forall|k: int| 0 <= k < d.len() implies users_of(strings, #[trigger] d[k] as int).len() > 0 by {
            assert(d[k] == os[k]);
        }
        lemma_entries_read(name, strings, d, done);
        let mid = done + sidecar_entries(strings, d);
        let o = os.last();
        assert(users_of(strings, os[os.len() - 1] as int).len() > 0);
        lemma_entry_reads(name, strings, o, mid);
        assert(mid.push((o, refs_of(strings, users_of(strings, o as int)), None::<Seq<char>>)) =~= done + sidecar_entries(strings, os));
        lemma_reads_concat((done, empty_entry(), false), string_entries(name, strings, d), (mid, empty_entry(), false),
            string_entry(name, strings, o), (done + sidecar_entries(strings, os), empty_entry(), false));
    }
}

/// Reading a script's sidecar back gives one entry per string, in offset
/// order: the string's offset, the slot of every reference to it in the order
/// the plan holds them, and no English yet. So the sidecar `dump_spt` writes
/// is what the patcher reads, for a file name the lines can carry and
/// renderings without a line break.
pub proof fn lemma_sidecar_reads_back(name: Seq<char>, p: Plan)
    requires
        plain_name(name),
        refs_in_window(p.strings@),
        forall|i: int| 0 <= i < p.strings@.len() ==> (#[trigger] p.strings@[i]).at <= u32::MAX && no_nl(p.strings@[i].jp@),
    ensures
        spec_patch(spt_sidecar(name, p)) == Ok::<Seq<EntryView>, IntError>(sidecar_entries(p.strings@, spt_offsets(p.strings@))),
{
    let strings = p.strings@;
    let os = spt_offsets(strings);
    let offs = strings.map_values(|s: StringRef| s.offset as u32);
    assert forall|k: int| 0 <= k < os.len() implies users_of(strings, #[trigger] os[k] as int).len() > 0 by {
        assert(os.contains(os[k]));
        lemma_sort_dedup_contains(offs, os[k]);
        let j = choose|j: int| 0 <= j < offs.len() && offs[j] == os[k];
        assert(strings[j].offset < REACH);
        assert(strings[j].offset == os[k] as int);
        lemma_users_nonempty(strings, os[k] as int);
    }
    let init = (Seq::<EntryView>::empty(), empty_entry(), false);
    let head = line(
        "# "@ + name + ": "@ + decimal(os.len()) + " strings, "@ + decimal(strings.len())
            + " references. Translate by repeating the 0xOFFSET line with English."@,
    ) + line(
        "# record cursor 0x"@ + hex(p.record_cursor as nat, 4) + ", script ends 0x"@ + hex(p.script_end as nat, 4) + ", "@
            + arena_text(p.record_cursor),
    ) + line(Seq::empty());
    lemma_header_reads(name, p, init);
    lemma_entries_read(name, strings, os, Seq::empty());
    assert(Seq::<EntryView>::empty() + sidecar_entries(strings, os) =~= sidecar_entries(strings, os));
    lemma_reads_concat(init, head, init, string_entries(name, strings, os), (sidecar_entries(strings, os), empty_entry(), false));
    assert(spt_sidecar(name, p) == head + string_entries(name, strings, os));
    lemma_read_whole(spt_sidecar(name, p), sidecar_entries(strings, os));
}

} // verus!
