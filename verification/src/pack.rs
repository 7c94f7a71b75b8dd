//! Writing translated text back into an SPT file: appended at the record
//! cursor when the file has room below the unsigned 16-bit reach, otherwise
//! recycled into the bytes of the Japanese it replaces. Every reference to a
//! replaced string is repointed by rewriting the one halfword that names it.

use vstd::prelude::*;
use crate::bytes::{spec_u16_at, u16at, be16, be16_seq, be16_bytes, set_be16, lemma_be16_seq_len, lemma_be16_seq_index, lemma_be16_roundtrip};
use crate::spt::{
    Plan, StringRef, RefKind, CheckError, check, read_codes, codes_to_bytes, string_bytes, spec_read_codes, term_at,
    run_codes, plan_ref_ok, check_error_text, check_text, lemma_term_at_unique, spec_check_kind, REACH, ALIGN, TERMINATOR, B18_WORDS, NAME_CAP, EXPANSION_CAP,
};
use crate::text::{hex, decimal, push_str, push_hex, push_dec, string_of, debug_quoted, hex_map, quote_debug, push_hex_map, chars_of, append_chars};
use crate::spt::{spec_render, render, plan, spec_w, planned};
use crate::sorted_map::SortedMap;
use std::collections::HashMap;

verus! {

/// One replacement: the reference at `at` (command address, or table slot)
/// that names the string at `offset` gets `codes`.
pub struct Replacement {
    pub at: usize,
    pub offset: usize,
    pub codes: Vec<u16>,
}

/// Replacements ordered strictly by (reference, offset), as a map keyed by
/// that pair is.
pub open spec fn repl_sorted(repl: Seq<Replacement>) -> bool {
    forall|i: int, j: int| 0 <= i < j < repl.len() ==> key_lt((#[trigger] repl[i]).at, repl[i].offset, (#[trigger] repl[j]).at, repl[j].offset)
}

pub open spec fn key_lt(a1: usize, o1: usize, a2: usize, o2: usize) -> bool {
    a1 < a2 || (a1 == a2 && o1 < o2)
}

/// Why a replacement (or the whole file) was refused.
#[derive(Debug)]
pub enum RefusalReason {
    NoString { at: usize, offset: usize },
    OddOffset { offset: usize },
    Unwritable { dir_end: usize },
    Check(CheckError),
    BlankTableEntry,
    OddCursor { cursor: usize },
    CursorBelowScript { cursor: usize, script_end: usize },
    DirEntryPastCursor { entry: usize, value: usize },
    ArenaFull { start: usize, headroom: usize },
    SlotConflict { slot: usize },
    CursorTooLarge { cursor: usize },
    TwoReplacements,
    PartlyReplaced { left: usize, total: usize, first: usize },
    RunsPast { run: usize, next: usize },
    TooLong { segment: bool, from: usize, to: usize, room_words: usize, need_words: usize },
}

/// A refusal, with the reference it belongs to.
#[derive(Debug)]
pub struct Refusal {
    pub key: Option<(usize, usize)>,
    pub why: RefusalReason,
}

pub open spec fn refusal_text(r: RefusalReason) -> Seq<char> {
    match r {
        RefusalReason::NoString { at, offset } => "no string at reference 0x"@ + hex(at as nat, 4) + " offset 0x"@
            + hex(offset as nat, 4),
        RefusalReason::OddOffset { offset } => "offset 0x"@ + hex(offset as nat, 4)
            + " is odd, so it is not a halfword-aligned code array. The walker reached it through an operand that is not a text offset"@,
        RefusalReason::Unwritable { dir_end } =>
            "reached through a directory id whose slot is outside the declared directory [0x0004, 0x"@ + hex(dir_end as nat, 4)
                + "); that word is command stream or string bytes, so it cannot be rewritten as an offset"@,
        RefusalReason::Check(e) => check_error_text(e),
        RefusalReason::BlankTableEntry =>
            "a table entry cannot be blanked. Tables are recovered by decoding their entries, so an empty one ends the walk and hides every entry after it from the next run"@,
        RefusalReason::OddCursor { cursor } => "record cursor 0x"@ + hex(cursor as nat, 4)
            + " is odd; refusing to guess a layout"@,
        RefusalReason::CursorBelowScript { cursor, script_end } => "record cursor 0x"@ + hex(cursor as nat, 4)
            + " is below the end of the script region 0x"@ + hex(script_end as nat, 4)
            + "; this file is not laid out the way the rest are"@,
        RefusalReason::DirEntryPastCursor { entry, value } => "directory entry "@ + decimal(entry as nat) + " is 0x"@
            + hex(value as nat, 4) + ", at or past the insertion point; sliding the record region would break it"@,
        RefusalReason::ArenaFull { start, headroom } => "arena is full -- this string would start at 0x"@ + hex(
            start as nat,
            4,
        ) + ", past the u16 reach of 0x10000. The file has "@ + decimal(headroom as nat) + " bytes of headroom"@,
        RefusalReason::SlotConflict { slot } => "word 0x"@ + hex(slot as nat, 4)
            + " would have to hold two different offsets; give every reader of that slot the same text"@,
        RefusalReason::CursorTooLarge { cursor } => "arena needs an archive cursor of 0x"@ + hex(cursor as nat, 1)
            + ", beyond the unsigned 16-bit limit 0xffff"@,
        RefusalReason::TwoReplacements =>
            "two different replacements for one offset. Without an arena there is nowhere to put a second copy, so every reader of a string has to be given the same text"@,
        RefusalReason::PartlyReplaced { left, total, first } => decimal(left as nat) + " of "@ + decimal(total as nat)
            + " references to this string were left as Japanese (first at 0x"@ + hex(first as nat, 4)
            + "). Recycling frees its bytes, so either every reference to it is replaced or none is"@,
        RefusalReason::RunsPast { run, next } => "the run at 0x"@ + hex(run as nat, 4) + " reaches past the string at 0x"@
            + hex(next as nat, 4) + ", so those bytes are not ours to reuse"@,
        RefusalReason::TooLong { segment, from, to, room_words, need_words } => (if segment {
            "segment"@
        } else {
            "string"@
        }) + " 0x"@ + hex(from as nat, 4) + "-0x"@ + hex(to as nat, 4) + " holds "@ + decimal(room_words as nat)
            + " words and the replacement needs "@ + decimal(need_words as nat) + ": "@ + decimal(
            if need_words >= room_words { (need_words - room_words) as nat } else { 0 },
        ) + " too many. This file has no arena, so a string can be no longer than the Japanese it replaces"@ + (
        if segment {
            " plus its neighbours in the segment"@
        } else {
            Seq::empty()
        }),
    }
}

impl RefusalReason {
    pub fn message(&self) -> (s: String)
        ensures
            s@ == refusal_text(*self),
    {
        let mut out: Vec<char> = Vec::new();
        match self {
            RefusalReason::NoString { at, offset } => {
                push_str(&mut out, "no string at reference 0x");
                push_hex(&mut out, *at as u64, 4);
                push_str(&mut out, " offset 0x");
                push_hex(&mut out, *offset as u64, 4);
            },
            RefusalReason::OddOffset { offset } => {
                push_str(&mut out, "offset 0x");
                push_hex(&mut out, *offset as u64, 4);
                push_str(&mut out, " is odd, so it is not a halfword-aligned code array. The walker reached it through an operand that is not a text offset");
            },
            RefusalReason::Unwritable { dir_end } => {
                push_str(&mut out, "reached through a directory id whose slot is outside the declared directory [0x0004, 0x");
                push_hex(&mut out, *dir_end as u64, 4);
                push_str(&mut out, "); that word is command stream or string bytes, so it cannot be rewritten as an offset");
            },
            RefusalReason::Check(e) => {
                return e.message();
            },
            RefusalReason::BlankTableEntry => push_str(&mut out, "a table entry cannot be blanked. Tables are recovered by decoding their entries, so an empty one ends the walk and hides every entry after it from the next run"),
            RefusalReason::OddCursor { cursor } => {
                push_str(&mut out, "record cursor 0x");
                push_hex(&mut out, *cursor as u64, 4);
                push_str(&mut out, " is odd; refusing to guess a layout");
            },
            RefusalReason::CursorBelowScript { cursor, script_end } => {
                push_str(&mut out, "record cursor 0x");
                push_hex(&mut out, *cursor as u64, 4);
                push_str(&mut out, " is below the end of the script region 0x");
                push_hex(&mut out, *script_end as u64, 4);
                push_str(&mut out, "; this file is not laid out the way the rest are");
            },
            RefusalReason::DirEntryPastCursor { entry, value } => {
                push_str(&mut out, "directory entry ");
                push_dec(&mut out, *entry as u64);
                push_str(&mut out, " is 0x");
                push_hex(&mut out, *value as u64, 4);
                push_str(&mut out, ", at or past the insertion point; sliding the record region would break it");
            },
            RefusalReason::ArenaFull { start, headroom } => {
                push_str(&mut out, "arena is full -- this string would start at 0x");
                push_hex(&mut out, *start as u64, 4);
                push_str(&mut out, ", past the u16 reach of 0x10000. The file has ");
                push_dec(&mut out, *headroom as u64);
                push_str(&mut out, " bytes of headroom");
            },
            RefusalReason::SlotConflict { slot } => {
                push_str(&mut out, "word 0x");
                push_hex(&mut out, *slot as u64, 4);
                push_str(&mut out, " would have to hold two different offsets; give every reader of that slot the same text");
            },
            RefusalReason::CursorTooLarge { cursor } => {
                push_str(&mut out, "arena needs an archive cursor of 0x");
                push_hex(&mut out, *cursor as u64, 1);
                push_str(&mut out, ", beyond the unsigned 16-bit limit 0xffff");
            },
            RefusalReason::TwoReplacements => push_str(&mut out, "two different replacements for one offset. Without an arena there is nowhere to put a second copy, so every reader of a string has to be given the same text"),
            RefusalReason::PartlyReplaced { left, total, first } => {
                push_dec(&mut out, *left as u64);
                push_str(&mut out, " of ");
                push_dec(&mut out, *total as u64);
                push_str(&mut out, " references to this string were left as Japanese (first at 0x");
                push_hex(&mut out, *first as u64, 4);
                push_str(&mut out, "). Recycling frees its bytes, so either every reference to it is replaced or none is");
            },
            RefusalReason::RunsPast { run, next } => {
                push_str(&mut out, "the run at 0x");
                push_hex(&mut out, *run as u64, 4);
                push_str(&mut out, " reaches past the string at 0x");
                push_hex(&mut out, *next as u64, 4);
                push_str(&mut out, ", so those bytes are not ours to reuse");
            },
            RefusalReason::TooLong { segment, from, to, room_words, need_words } => {
                if *segment {
                    push_str(&mut out, "segment");
                } else {
                    push_str(&mut out, "string");
                }
                push_str(&mut out, " 0x");
                push_hex(&mut out, *from as u64, 4);
                push_str(&mut out, "-0x");
                push_hex(&mut out, *to as u64, 4);
                push_str(&mut out, " holds ");
                push_dec(&mut out, *room_words as u64);
                push_str(&mut out, " words and the replacement needs ");
                push_dec(&mut out, *need_words as u64);
                push_str(&mut out, ": ");
                push_dec(&mut out, (if *need_words >= *room_words { *need_words - *room_words } else { 0 }) as u64);
                push_str(&mut out, " too many. This file has no arena, so a string can be no longer than the Japanese it replaces");
                if *segment {
                    push_str(&mut out, " plus its neighbours in the segment");
                }
            },
        }
        string_of(out.as_slice())
    }
}

pub struct Packed {
    pub bytes: Vec<u8>,
    pub placements: Vec<String>,
}

/// The position of the last of the first `n` strings that is reference `at`
/// naming `offset`.
pub open spec fn last_ref(strings: Seq<StringRef>, at: usize, offset: usize, n: int) -> Option<int>
    decreases n,
{
    if n <= 0 {
        None
    } else if strings[n - 1].at == at && strings[n - 1].offset == offset {
        Some(n - 1)
    } else {
        last_ref(strings, at, offset, n - 1)
    }
}

/// The position of the last string the plan holds for reference `at` naming
/// `offset`, as a map keyed by that pair would keep.
pub open spec fn ref_index(strings: Seq<StringRef>, at: usize, offset: usize) -> Option<int> {
    last_ref(strings, at, offset, strings.len() as int)
}

pub fn find_ref(strings: &[StringRef], at: usize, offset: usize) -> (r: Option<usize>)
    ensures
        r matches Some(i) ==> ref_index(strings@, at, offset) == Some(i as int) && i < strings@.len(),
        r is None ==> ref_index(strings@, at, offset) is None,
{
    let mut i = strings.len();
    while i > 0
        invariant
            i <= strings@.len(),
            last_ref(strings@, at, offset, strings@.len() as int) == last_ref(strings@, at, offset, i as int),
        decreases i,
    {
        if strings[i - 1].at == at && strings[i - 1].offset == offset {
            return Some(i - 1);
        }
        i = i - 1;
    }
    None
}

proof fn lemma_last_ref(strings: Seq<StringRef>, at: usize, offset: usize, n: int)
    requires
        n <= strings.len(),
    ensures
        last_ref(strings, at, offset, n) matches Some(i) ==> 0 <= i < n && strings[i].at == at && strings[i].offset
            == offset,
    decreases n,
{
    if n > 0 {
        lemma_last_ref(strings, at, offset, n - 1);
    }
}

/// `a` comes strictly before `b` in lexicographic order, a proper prefix
/// first. This is the order of the hex renderings the packer keys groups by,
/// since every code renders as exactly four hex digits.
pub open spec fn codes_before(a: Seq<u16>, b: Seq<u16>) -> bool
    decreases a.len(),
{
    if a.len() == 0 {
        b.len() > 0
    } else if b.len() == 0 {
        false
    } else if a[0] != b[0] {
        a[0] < b[0]
    } else {
        codes_before(a.drop_first(), b.drop_first())
    }
}

proof fn lemma_codes_before_irreflexive(a: Seq<u16>)
    ensures
        !codes_before(a, a),
    decreases a.len(),
{
    if a.len() > 0 {
        lemma_codes_before_irreflexive(a.drop_first());
    }
}

proof fn lemma_codes_before_total(a: Seq<u16>, b: Seq<u16>)
    ensures
        a == b || codes_before(a, b) || codes_before(b, a),
        !(codes_before(a, b) && codes_before(b, a)),
    decreases a.len(),
{
    if a.len() > 0 && b.len() > 0 && a[0] == b[0] {
        lemma_codes_before_total(a.drop_first(), b.drop_first());
        if a.drop_first() == b.drop_first() {
            assert(a =~= seq![a[0]] + a.drop_first());
            assert(b =~= seq![b[0]] + b.drop_first());
        }
    } else if a.len() == 0 && b.len() == 0 {
        assert(a =~= b);
    }
}

proof fn lemma_codes_before_trans(a: Seq<u16>, b: Seq<u16>, c: Seq<u16>)
    requires
        codes_before(a, b),
        codes_before(b, c),
    ensures
        codes_before(a, c),
    decreases a.len(),
{
    if a.len() > 0 && b.len() > 0 && c.len() > 0 && a[0] == b[0] && b[0] == c[0] {
        lemma_codes_before_trans(a.drop_first(), b.drop_first(), c.drop_first());
    }
}

fn codes_before_exec(a: &[u16], b: &[u16]) -> (r: bool)
    ensures
        r == codes_before(a@, b@),
{
    let mut i: usize = 0;
    assert(a@.skip(0) =~= a@);
    assert(b@.skip(0) =~= b@);
    while i < a.len() && i < b.len()
        invariant
            i <= a@.len(),
            i <= b@.len(),
            codes_before(a@, b@) == codes_before(a@.skip(i as int), b@.skip(i as int)),
        decreases a@.len() - i,
    {
        if a[i] != b[i] {
            return a[i] < b[i];
        }
        proof {
            assert(a@.skip(i as int).drop_first() =~= a@.skip(i + 1));
            assert(b@.skip(i as int).drop_first() =~= b@.skip(i + 1));
        }
        i = i + 1;
    }
    i >= a.len() && i < b.len()
}

fn same_codes(a: &[u16], b: &[u16]) -> (r: bool)
    ensures
        r == (a@ == b@),
{
    if a.len() != b.len() {
        return false;
    }
    let mut i: usize = 0;
    while i < a.len()
        invariant
            i <= a@.len(),
            a@.len() == b@.len(),
            forall|j: int| 0 <= j < i ==> a@[j] == b@[j],
        decreases a@.len() - i,
    {
        if a[i] != b[i] {
            assert(a@[i as int] != b@[i as int]);
            return false;
        }
        i = i + 1;
    }
    assert(a@ =~= b@);
    true
}

/// The order of group keys: by offset, then by text.
pub open spec fn key_before(o1: usize, c1: Seq<u16>, o2: usize, c2: Seq<u16>) -> bool {
    o1 < o2 || (o1 == o2 && codes_before(c1, c2))
}

/// The replacements that give one string one text: one copy is written for
/// all of them.
pub struct Group {
    pub offset: usize,
    pub codes: Vec<u16>,
    /// positions in the replacement list, increasing
    pub members: Vec<usize>,
    /// for each member, the position in the plan's strings of the reference
    /// it names
    pub users: Vec<usize>,
}

pub open spec fn group_before(a: Group, b: Group) -> bool {
    key_before(a.offset, a.codes@, b.offset, b.codes@)
}

/// Replacement `m` gives the string at `offset` the text `codes`, and `u` is
/// the position of the reference it names.
pub open spec fn member_at_ok(strings: Seq<StringRef>, repl: Seq<Replacement>, offset: usize, codes: Seq<u16>, m: usize, u: usize) -> bool {
    &&& m < repl.len()
    &&& repl[m as int].offset == offset
    &&& repl[m as int].codes@ == codes
    &&& ref_index(strings, repl[m as int].at, offset) == Some(u as int)
}

/// Every member of `g` is a replacement of `g`'s string with `g`'s text, the
/// members increase, and each user is the reference its member names.
pub open spec fn members_ok(strings: Seq<StringRef>, repl: Seq<Replacement>, g: Group) -> bool {
    &&& g.members@.len() > 0
    &&& g.users@.len() == g.members@.len()
    &&& forall|k: int| 0 <= k < g.members@.len() ==> member_at_ok(strings, repl, g.offset, g.codes@, #[trigger] g.members@[k], g.users@[k])
    &&& forall|k1: int, k2: int| 0 <= k1 < k2 < g.members@.len() ==> g.members@[k1] < g.members@[k2]
}

/// Replacement `r` is a member of group `g`.
pub open spec fn in_group(gs: Seq<Group>, g: int, r: int, repl: Seq<Replacement>) -> bool {
    &&& 0 <= g < gs.len()
    &&& gs[g].offset == repl[r].offset
    &&& gs[g].codes@ == repl[r].codes@
    &&& gs[g].members@.contains(r as usize)
}

/// Replacement `r` is a member of some group.
pub open spec fn grouped(gs: Seq<Group>, r: int, repl: Seq<Replacement>) -> bool {
    exists|g: int| #[trigger] in_group(gs, g, r, repl)
}

/// `gs` groups `repl` by (offset, text): one group per distinct pair, in key
/// order, each holding every replacement with its pair.
pub open spec fn grouping(strings: Seq<StringRef>, repl: Seq<Replacement>, gs: Seq<Group>) -> bool {
    &&& forall|i: int, j: int| 0 <= i < j < gs.len() ==> group_before(#[trigger] gs[i], #[trigger] gs[j])
    &&& forall|r: int| 0 <= r < repl.len() ==> #[trigger] grouped(gs, r, repl)
    &&& forall|g: int| 0 <= g < gs.len() ==> members_ok(strings, repl, #[trigger] gs[g])
}

/// What holds of the groups after the first `r` replacements.
pub open spec fn groups_inv(strings: Seq<StringRef>, repl: Seq<Replacement>, gs: Seq<Group>, r: int) -> bool {
    &&& forall|i: int, j: int| 0 <= i < j < gs.len() ==> group_before(#[trigger] gs[i], #[trigger] gs[j])
    &&& forall|q: int| 0 <= q < r ==> #[trigger] grouped(gs, q, repl)
    &&& forall|g: int| 0 <= g < gs.len() ==> members_ok(strings, repl, #[trigger] gs[g])
    &&& forall|g: int, k: int| 0 <= g < gs.len() && 0 <= k < gs[g].members@.len() ==> #[trigger] gs[g].members@[k] < r
}

proof fn lemma_push_member(
    strings: Seq<StringRef>,
    repl: Seq<Replacement>,
    old_gs: Seq<Group>,
    g: int,
    r: usize,
    user: usize,
    grp: Group,
)
    requires
        groups_inv(strings, repl, old_gs, r as int),
        0 <= g < old_gs.len(),
        r < repl.len(),
        old_gs[g].offset == repl[r as int].offset,
        old_gs[g].codes@ == repl[r as int].codes@,
        ref_index(strings, repl[r as int].at, repl[r as int].offset) == Some(user as int),
        grp.offset == old_gs[g].offset,
        grp.codes@ == old_gs[g].codes@,
        grp.members@ == old_gs[g].members@.push(r),
        grp.users@ == old_gs[g].users@.push(user),
    ensures
        groups_inv(strings, repl, old_gs.update(g, grp), r + 1),
{
    let gs = old_gs.update(g, grp);
    let old_grp = old_gs[g];
    assert forall|i: int, j: int| 0 <= i < j < gs.len() implies group_before(#[trigger] gs[i], #[trigger] gs[j]) by {
        assert(group_before(old_gs[i], old_gs[j]));
    }
    assert(members_ok(strings, repl, old_grp));
    assert(members_ok(strings, repl, grp)) by {
        assert forall|k: int| 0 <= k < grp.members@.len() implies member_at_ok(strings, repl, grp.offset, grp.codes@, #[trigger] grp.members@[k], grp.users@[k]) by {
            if k < old_grp.members@.len() {
                assert(grp.members@[k] == old_grp.members@[k]);
                assert(grp.users@[k] == old_grp.users@[k]);
                assert(member_at_ok(strings, repl, old_grp.offset, old_grp.codes@, old_grp.members@[k], old_grp.users@[k]));
            } else {
                assert(grp.members@[k] == r);
                assert(grp.users@[k] == user);
            }
        }
        assert forall|k1: int, k2: int| 0 <= k1 < k2 < grp.members@.len() implies grp.members@[k1] < grp.members@[k2] by {
            assert(grp.members@[k1] == old_grp.members@[k1]);
            if k2 == old_grp.members@.len() {
                assert(old_gs[g].members@[k1] < r);
                assert(grp.members@[k2] == r);
            } else {
                assert(grp.members@[k2] == old_grp.members@[k2]);
            }
        }
    }
    assert forall|h: int| 0 <= h < gs.len() implies members_ok(strings, repl, #[trigger] gs[h]) by {
        if h != g {
            assert(gs[h] == old_gs[h]);
        }
    }
    assert forall|q: int| 0 <= q < r + 1 implies #[trigger] grouped(gs, q, repl) by {
        if q == r {
            assert(grp.members@[grp.members@.len() - 1] == r);
            assert(in_group(gs, g, q, repl));
        } else {
            assert(grouped(old_gs, q, repl));
            let h = choose|h: int| #[trigger] in_group(old_gs, h, q, repl);
            if h == g {
                let k = choose|k: int| 0 <= k < old_grp.members@.len() && old_grp.members@[k] == q as usize;
                assert(grp.members@[k] == q as usize);
            }
            assert(in_group(gs, h, q, repl));
        }
    }
    assert forall|h: int, k: int| 0 <= h < gs.len() && 0 <= k < gs[h].members@.len() implies #[trigger] gs[h].members@[k] < r + 1 by {
        if h == g && k < old_grp.members@.len() {
            assert(gs[h].members@[k] == old_grp.members@[k]);
        } else if h != g {
            assert(gs[h] == old_gs[h]);
        }
    }
}

proof fn lemma_insert_group(
    strings: Seq<StringRef>,
    repl: Seq<Replacement>,
    old_gs: Seq<Group>,
    at: int,
    r: usize,
    grp: Group,
)
    requires
        groups_inv(strings, repl, old_gs, r as int),
        0 <= at <= old_gs.len(),
        r < repl.len(),
        forall|h: int| 0 <= h < at ==> !key_before(grp.offset, grp.codes@, (#[trigger] old_gs[h]).offset, old_gs[h].codes@),
        at < old_gs.len() ==> key_before(grp.offset, grp.codes@, old_gs[at].offset, old_gs[at].codes@),
        forall|h: int| 0 <= h < old_gs.len() ==> !((#[trigger] old_gs[h]).offset == grp.offset && old_gs[h].codes@ == grp.codes@),
        grp.offset == repl[r as int].offset,
        grp.codes@ == repl[r as int].codes@,
        grp.members@ == seq![r],
        grp.users@.len() == 1,
        ref_index(strings, repl[r as int].at, repl[r as int].offset) == Some(grp.users@[0] as int),
    ensures
        groups_inv(strings, repl, old_gs.insert(at, grp), r + 1),
{
    let gs = old_gs.insert(at, grp);
    assert forall|h: int| 0 <= h < at implies group_before(#[trigger] old_gs[h], grp) by {
        lemma_codes_before_total(old_gs[h].codes@, grp.codes@);
    }
    if at < old_gs.len() {
        assert forall|h: int| at <= h < old_gs.len() implies group_before(grp, #[trigger] old_gs[h]) by {
            if h > at {
                assert(group_before(old_gs[at], old_gs[h]));
                if grp.offset == old_gs[at].offset && old_gs[at].offset == old_gs[h].offset {
                    lemma_codes_before_trans(grp.codes@, old_gs[at].codes@, old_gs[h].codes@);
                }
            }
        }
    }
    assert forall|i: int, j: int| 0 <= i < j < gs.len() implies group_before(#[trigger] gs[i], #[trigger] gs[j]) by {
        if j < at {
            assert(group_before(old_gs[i], old_gs[j]));
        } else if j == at {
            assert(group_before(old_gs[i], grp));
        } else if i < at {
            assert(group_before(old_gs[i], old_gs[j - 1]));
        } else if i == at {
            assert(group_before(grp, old_gs[j - 1]));
        } else {
            assert(group_before(old_gs[i - 1], old_gs[j - 1]));
        }
    }
    assert(members_ok(strings, repl, grp)) by {
        assert(grp.members@[0] == r);
        assert(member_at_ok(strings, repl, grp.offset, grp.codes@, grp.members@[0], grp.users@[0]));
    }
    assert forall|h: int| 0 <= h < gs.len() implies members_ok(strings, repl, #[trigger] gs[h]) by {
        if h < at {
            assert(gs[h] == old_gs[h]);
        } else if h > at {
            assert(gs[h] == old_gs[h - 1]);
        }
    }
    assert forall|q: int| 0 <= q < r + 1 implies #[trigger] grouped(gs, q, repl) by {
        if q == r {
            assert(grp.members@[0] == r);
            assert(in_group(gs, at, q, repl));
        } else {
            assert(grouped(old_gs, q, repl));
            let h = choose|h: int| #[trigger] in_group(old_gs, h, q, repl);
            if h < at {
                assert(in_group(gs, h, q, repl));
            } else {
                assert(gs[h + 1] == old_gs[h]);
                assert(in_group(gs, h + 1, q, repl));
            }
        }
    }
    assert forall|h: int, k: int| 0 <= h < gs.len() && 0 <= k < gs[h].members@.len() implies #[trigger] gs[h].members@[k] < r + 1 by {
        if h < at {
            assert(gs[h] == old_gs[h]);
        } else if h > at {
            assert(gs[h] == old_gs[h - 1]);
        } else {
            assert(gs[h].members@ == seq![r as usize]);
        }
    }
}

/// A copy of `codes`.
fn copy_codes(codes: &[u16]) -> (out: Vec<u16>)
    ensures
        out@ == codes@,
{
    let mut out: Vec<u16> = Vec::new();
    let mut k: usize = 0;
    while k < codes.len()
        invariant
            k <= codes@.len(),
            out@ == codes@.take(k as int),
        decreases codes@.len() - k,
    {
        out.push(codes[k]);
        proof {
            assert(codes@.take(k + 1) =~= codes@.take(k as int).push(codes@[k as int]));
        }
        k = k + 1;
    }
    assert(codes@.take(k as int) =~= codes@);
    out
}

/// Group `repl` by (offset, text), each replacement's reference resolved.
fn group_replacements(strings: &[StringRef], repl: &[Replacement]) -> (gs: Vec<Group>)
    requires
        forall|r: int| 0 <= r < repl@.len() ==> ref_index(strings@, (#[trigger] repl@[r]).at, repl@[r].offset) is Some,
    ensures
        grouping(strings@, repl@, gs@),
{
    let mut gs: Vec<Group> = Vec::new();
    let mut r: usize = 0;
    while r < repl.len()
        invariant
            r <= repl@.len(),
            forall|q: int| 0 <= q < repl@.len() ==> ref_index(strings@, (#[trigger] repl@[q]).at, repl@[q].offset) is Some,
            groups_inv(strings@, repl@, gs@, r as int),
        decreases repl@.len() - r,
    {
        let off = repl[r].offset;
        let user = match find_ref(strings, repl[r].at, off) {
            Some(u) => u,
            None => {
                assert(ref_index(strings@, repl@[r as int].at, repl@[r as int].offset) is Some);
                0
            },
        };
        // an existing group with this key?
        let mut g: usize = 0;
        let mut found = false;
        while !found && g < gs.len()
            invariant
                g <= gs@.len(),
                r < repl@.len(),
                found ==> g < gs@.len() && gs@[g as int].offset == off && gs@[g as int].codes@ == repl@[r as int].codes@,
                !found ==> forall|h: int| 0 <= h < g ==> !((#[trigger] gs@[h]).offset == off && gs@[h].codes@ == repl@[r as int].codes@),
            decreases gs@.len() - g + (if found { 0int } else { 1 }),
        {
            if gs[g].offset == off && same_codes(gs[g].codes.as_slice(), repl[r].codes.as_slice()) {
                found = true;
            } else {
                g = g + 1;
            }
        }
        let ghost old_gs = gs@;
        if found {
            let mut grp = gs.remove(g);
            grp.members.push(r);
            grp.users.push(user);
            proof {
                lemma_push_member(strings@, repl@, old_gs, g as int, r, user, grp);
            }
            gs.insert(g, grp);
            assert(gs@ =~= old_gs.update(g as int, grp));
        } else {
            // the first group whose key comes after this one
            let mut at: usize = 0;
            let mut stop = false;
            while !stop && at < gs.len()
                invariant
                    at <= gs@.len(),
                    r < repl@.len(),
                    stop ==> at < gs@.len() && key_before(off, repl@[r as int].codes@, gs@[at as int].offset, gs@[at as int].codes@),
                    forall|h: int| 0 <= h < at ==> !key_before(off, repl@[r as int].codes@, (#[trigger] gs@[h]).offset, gs@[h].codes@),
                decreases gs@.len() - at + (if stop { 0int } else { 1 }),
            {
                if off < gs[at].offset || (off == gs[at].offset && codes_before_exec(repl[r].codes.as_slice(), gs[at].codes.as_slice())) {
                    stop = true;
                } else {
                    at = at + 1;
                }
            }
            let codes = copy_codes(repl[r].codes.as_slice());
            let mut members: Vec<usize> = Vec::new();
            members.push(r);
            let mut users: Vec<usize> = Vec::new();
            users.push(user);
            let grp = Group { offset: off, codes, members, users };
            proof {
                assert(members@ =~= seq![r]);
                lemma_insert_group(strings@, repl@, old_gs, at as int, r, grp);
            }
            gs.insert(at, grp);
        }
        r = r + 1;
    }
    gs
}


/// What a refusal says: the reference it belongs to and its text.
pub open spec fn refusal_view(x: Refusal) -> (Option<(usize, usize)>, Seq<char>) {
    (x.key, refusal_text(x.why))
}

pub open spec fn refusal_views(xs: Seq<Refusal>) -> Seq<(Option<(usize, usize)>, Seq<char>)> {
    xs.map_values(|x: Refusal| refusal_view(x))
}

/// Why the replacement `r` cannot be written at all, if it cannot.
pub open spec fn ref_refusal(strings: Seq<StringRef>, dir_words: usize, r: Replacement) -> Option<RefusalReason> {
    match ref_index(strings, r.at, r.offset) {
        None => Some(RefusalReason::NoString { at: r.at, offset: r.offset }),
        Some(i) => if r.offset % 2 != 0 {
            Some(RefusalReason::OddOffset { offset: r.offset })
        } else if strings[i].slot is None {
            Some(RefusalReason::Unwritable { dir_end: (dir_words * 2) as usize })
        } else {
            None
        },
    }
}

/// The refusals of the replacements that name no writable string, in order.
pub open spec fn validation_refusals(strings: Seq<StringRef>, dir_words: usize, repl: Seq<Replacement>) -> Seq<Refusal>
    decreases repl.len(),
{
    if repl.len() == 0 {
        Seq::empty()
    } else {
        let r = repl.last();
        validation_refusals(strings, dir_words, repl.drop_last()) + match ref_refusal(strings, dir_words, r) {
            Some(why) => seq![Refusal { key: Some((r.at, r.offset)), why }],
            None => Seq::empty(),
        }
    }
}

proof fn lemma_no_validation_refusals(strings: Seq<StringRef>, dir_words: usize, repl: Seq<Replacement>, r: int)
    requires
        validation_refusals(strings, dir_words, repl).len() == 0,
        0 <= r < repl.len(),
    ensures
        ref_refusal(strings, dir_words, repl[r]) is None,
    decreases repl.len(),
{
    if r < repl.len() - 1 {
        assert(repl.drop_last()[r] == repl[r]);
        lemma_no_validation_refusals(strings, dir_words, repl.drop_last(), r);
    }
}

/// Refuse every replacement whose reference names no string, names one at an
/// odd offset, or has no slot that could be rewritten.
fn validate(strings: &[StringRef], dir_words: usize, repl: &[Replacement]) -> (errs: Vec<Refusal>)
    requires
        dir_words <= 0x8000,
    ensures
        errs@ == validation_refusals(strings@, dir_words, repl@),
{
    let mut errs: Vec<Refusal> = Vec::new();
    let mut r: usize = 0;
    while r < repl.len()
        invariant
            r <= repl@.len(),
            dir_words <= 0x8000,
            errs@ == validation_refusals(strings@, dir_words, repl@.take(r as int)),
        decreases repl@.len() - r,
    {
        let at = repl[r].at;
        let off = repl[r].offset;
        let why = match find_ref(strings, at, off) {
            None => Some(RefusalReason::NoString { at, offset: off }),
            Some(i) => if off % 2 != 0 {
                Some(RefusalReason::OddOffset { offset: off })
            } else if strings[i].slot.is_none() {
                Some(RefusalReason::Unwritable { dir_end: dir_words * 2 })
            } else {
                None
            },
        };
        proof {
            assert(repl@.take(r + 1).drop_last() =~= repl@.take(r as int));
            assert(repl@.take(r + 1).last() == repl@[r as int]);
        }
        match why {
            Some(why) => {
                errs.push(Refusal { key: Some((at, off)), why });
            },
            None => {
                assert(errs@ =~= errs@ + Seq::<Refusal>::empty());
            },
        }
        r = r + 1;
    }
    assert(repl@.take(r as int) =~= repl@);
    errs
}

/// The codes of the string at `off`, or none when it does not terminate.
pub open spec fn orig_codes(buf: Seq<u8>, off: usize) -> Seq<u16> {
    match spec_read_codes(buf, off as int, usize::MAX as int) {
        Some(c) => c,
        None => Seq::empty(),
    }
}

/// Some user of `g` is the name table.
pub open spec fn names_a_name(strings: Seq<StringRef>, g: Group) -> bool {
    exists|k: int| 0 <= k < g.users@.len() && strings[g.users@[k] as int].kind == RefKind::Table(11)
}

/// Some user of `g` is an entry of a table found by decoding.
pub open spec fn in_walked_table(strings: Seq<StringRef>, g: Group) -> bool {
    exists|k: int| 0 <= k < g.users@.len() && (strings[g.users@[k] as int].kind is Table || strings[g.users@[k] as int].kind is ObjText)
}

/// The glyph cap a group's text is held to.
pub open spec fn group_cap(buf: Seq<u8>, strings: Seq<StringRef>, g: Group) -> Option<usize> {
    if names_a_name(strings, g) && orig_codes(buf, g.offset).len() <= NAME_CAP {
        Some(NAME_CAP)
    } else {
        None
    }
}

/// The group's text passes every limit, and does not blank a table entry.
pub open spec fn group_ok(buf: Seq<u8>, strings: Seq<StringRef>, g: Group) -> bool {
    &&& spec_check_kind(g.codes@, orig_codes(buf, g.offset), group_cap(buf, strings, g)) == 0
    &&& !(g.codes@.len() == 0 && in_walked_table(strings, g))
}

/// The text every user of a refused group is refused with.
pub open spec fn group_refusal_text(buf: Seq<u8>, strings: Seq<StringRef>, g: Group) -> Seq<char> {
    let orig = orig_codes(buf, g.offset);
    let cap = group_cap(buf, strings, g);
    if spec_check_kind(g.codes@, orig, cap) != 0 {
        check_text(g.codes@, orig, cap)
    } else {
        refusal_text(RefusalReason::BlankTableEntry)
    }
}

/// One refusal per user of `g`, keyed by the user's reference.
pub open spec fn user_views(strings: Seq<StringRef>, g: Group, text: Seq<char>) -> Seq<(Option<(usize, usize)>, Seq<char>)> {
    g.users@.map_values(|u: usize| (Some((strings[u as int].at, g.offset)), text))
}

/// The refusals of the groups whose text breaks a limit, in group order.
pub open spec fn check_views(buf: Seq<u8>, strings: Seq<StringRef>, gs: Seq<Group>) -> Seq<(Option<(usize, usize)>, Seq<char>)>
    decreases gs.len(),
{
    if gs.len() == 0 {
        Seq::empty()
    } else {
        let g = gs.last();
        check_views(buf, strings, gs.drop_last()) + if group_ok(buf, strings, g) {
            Seq::empty()
        } else {
            user_views(strings, g, group_refusal_text(buf, strings, g))
        }
    }
}

proof fn lemma_no_check_views(buf: Seq<u8>, strings: Seq<StringRef>, gs: Seq<Group>, j: int)
    requires
        check_views(buf, strings, gs).len() == 0,
        0 <= j < gs.len(),
        forall|g: int| 0 <= g < gs.len() ==> (#[trigger] gs[g]).users@.len() > 0,
    ensures
        group_ok(buf, strings, gs[j]),
    decreases gs.len(),
{
    if j < gs.len() - 1 {
        assert(gs.drop_last()[j] == gs[j]);
        lemma_no_check_views(buf, strings, gs.drop_last(), j);
    }
}

/// Push one refusal with `why` for every user of `g`.
fn refuse_users(errs: &mut Vec<Refusal>, strings: &[StringRef], g: &Group, why: &RefusalReason)
    requires
        forall|k: int| 0 <= k < g.users@.len() ==> (#[trigger] g.users@[k]) < strings@.len(),
    ensures
        refusal_views(final(errs)@) == refusal_views(old(errs)@) + user_views(strings@, *g, refusal_text(*why)),
{
    let ghost start = errs@;
    let mut k: usize = 0;
    while k < g.users.len()
        invariant
            k <= g.users@.len(),
            forall|q: int| 0 <= q < g.users@.len() ==> (#[trigger] g.users@[q]) < strings@.len(),
            refusal_views(errs@) == refusal_views(start) + user_views(strings@, *g, refusal_text(*why)).take(k as int),
        decreases g.users@.len() - k,
    {
        let u = g.users[k];
        let w = clone_reason(why);
        let ghost before = errs@;
        errs.push(Refusal { key: Some((strings[u].at, g.offset)), why: w });
        proof {
            assert(refusal_views(errs@) =~= refusal_views(before).push(refusal_view(errs@.last())));
            assert(user_views(strings@, *g, refusal_text(*why)).take(k + 1) =~= user_views(strings@, *g, refusal_text(*why)).take(k as int).push(user_views(strings@, *g, refusal_text(*why))[k as int]));
        }
        k = k + 1;
    }
    assert(user_views(strings@, *g, refusal_text(*why)).take(k as int) =~= user_views(strings@, *g, refusal_text(*why)));
}


/// The reference `ref_index` finds is one of the plan's strings, and names
/// the pair it was asked for.
pub proof fn lemma_ref_index(strings: Seq<StringRef>, at: usize, offset: usize)
    ensures
        ref_index(strings, at, offset) matches Some(i) ==> 0 <= i < strings.len() && strings[i].at == at
            && strings[i].offset == offset,
{
    lemma_last_ref(strings, at, offset, strings.len() as int);
}

fn clone_check_error(e: &CheckError) -> (c: CheckError)
    ensures
        check_error_text(c) == check_error_text(*e),
{
    match e {
        CheckError::TooMany { codes } => CheckError::TooMany { codes: *codes },
        CheckError::TerminatorCode => CheckError::TerminatorCode,
        CheckError::NumericWidth { code, width } => CheckError::NumericWidth { code: *code, width: *width },
        CheckError::PadWidth { code, width } => CheckError::PadWidth { code: *code, width: *width },
        CheckError::VariadicChanged { was, now } => CheckError::VariadicChanged {
            was: copy_codes(was.as_slice()),
            now: copy_codes(now.as_slice()),
        },
        CheckError::OverCap { glyphs, cap } => CheckError::OverCap { glyphs: *glyphs, cap: *cap },
    }
}

/// A copy of a refusal reason, saying the same thing.
pub fn clone_reason(r: &RefusalReason) -> (c: RefusalReason)
    ensures
        refusal_text(c) == refusal_text(*r),
{
    match r {
        RefusalReason::NoString { at, offset } => RefusalReason::NoString { at: *at, offset: *offset },
        RefusalReason::OddOffset { offset } => RefusalReason::OddOffset { offset: *offset },
        RefusalReason::Unwritable { dir_end } => RefusalReason::Unwritable { dir_end: *dir_end },
        RefusalReason::Check(e) => RefusalReason::Check(clone_check_error(e)),
        RefusalReason::BlankTableEntry => RefusalReason::BlankTableEntry,
        RefusalReason::OddCursor { cursor } => RefusalReason::OddCursor { cursor: *cursor },
        RefusalReason::CursorBelowScript { cursor, script_end } => RefusalReason::CursorBelowScript {
            cursor: *cursor,
            script_end: *script_end,
        },
        RefusalReason::DirEntryPastCursor { entry, value } => RefusalReason::DirEntryPastCursor {
            entry: *entry,
            value: *value,
        },
        RefusalReason::ArenaFull { start, headroom } => RefusalReason::ArenaFull { start: *start, headroom: *headroom },
        RefusalReason::SlotConflict { slot } => RefusalReason::SlotConflict { slot: *slot },
        RefusalReason::CursorTooLarge { cursor } => RefusalReason::CursorTooLarge { cursor: *cursor },
        RefusalReason::TwoReplacements => RefusalReason::TwoReplacements,
        RefusalReason::PartlyReplaced { left, total, first } => RefusalReason::PartlyReplaced {
            left: *left,
            total: *total,
            first: *first,
        },
        RefusalReason::RunsPast { run, next } => RefusalReason::RunsPast { run: *run, next: *next },
        RefusalReason::TooLong { segment, from, to, room_words, need_words } => RefusalReason::TooLong {
            segment: *segment,
            from: *from,
            to: *to,
            room_words: *room_words,
            need_words: *need_words,
        },
    }
}

/// Every user of every group is one of the plan's strings.
pub open spec fn users_in(strings: Seq<StringRef>, gs: Seq<Group>) -> bool {
    forall|g: int, k: int| 0 <= g < gs.len() && 0 <= k < gs[g].users@.len() ==> (#[trigger] gs[g].users@[k]) < strings.len()
}

proof fn lemma_grouping_users_in(strings: Seq<StringRef>, repl: Seq<Replacement>, gs: Seq<Group>)
    requires
        grouping(strings, repl, gs),
    ensures
        users_in(strings, gs),
        forall|g: int| 0 <= g < gs.len() ==> (#[trigger] gs[g]).users@.len() > 0,
{
    assert forall|g: int, k: int| 0 <= g < gs.len() && 0 <= k < gs[g].users@.len() implies (#[trigger] gs[g].users@[k]) < strings.len() by {
        assert(members_ok(strings, repl, gs[g]));
        assert(member_at_ok(strings, repl, gs[g].offset, gs[g].codes@, gs[g].members@[k], gs[g].users@[k]));
        lemma_ref_index(strings, repl[gs[g].members@[k] as int].at, gs[g].offset);
    }
    assert forall|g: int| 0 <= g < gs.len() implies (#[trigger] gs[g]).users@.len() > 0 by {
        assert(members_ok(strings, repl, gs[g]));
    }
}

/// Hold every group's text to the limits, refusing each user of a group that
/// breaks one.
fn check_groups(buf: &[u8], strings: &[StringRef], gs: &[Group]) -> (errs: Vec<Refusal>)
    requires
        users_in(strings@, gs@),
    ensures
        refusal_views(errs@) == check_views(buf@, strings@, gs@),
{
    let mut errs: Vec<Refusal> = Vec::new();
    let mut j: usize = 0;
    while j < gs.len()
        invariant
            j <= gs@.len(),
            users_in(strings@, gs@),
            refusal_views(errs@) == check_views(buf@, strings@, gs@.take(j as int)),
        decreases gs@.len() - j,
    {
        let g = &gs[j];
        proof {
            assert(gs@.take(j + 1).drop_last() =~= gs@.take(j as int));
            assert(gs@.take(j + 1).last() == *g);
            assert(forall|k: int| 0 <= k < g.users@.len() ==> (#[trigger] g.users@[k]) < strings@.len()) by {
                assert(forall|k: int| 0 <= k < g.users@.len() ==> gs@[j as int].users@[k] == g.users@[k]);
            }
        }
        let orig = match read_codes(buf, g.offset, usize::MAX) {
            Some(c) => c,
            None => Vec::new(),
        };
        assert(orig@ == orig_codes(buf@, g.offset));
        let mut kinds: Vec<RefKind> = Vec::new();
        let mut walked = false;
        let mut k: usize = 0;
        while k < g.users.len()
            invariant
                k <= g.users@.len(),
                forall|q: int| 0 <= q < g.users@.len() ==> (#[trigger] g.users@[q]) < strings@.len(),
                kinds@.len() == k,
                forall|q: int| 0 <= q < k ==> kinds@[q] == strings@[g.users@[q] as int].kind,
                walked == exists|q: int| 0 <= q < k && (strings@[g.users@[q] as int].kind is Table || strings@[g.users@[q] as int].kind is ObjText),
            decreases g.users@.len() - k,
        {
            let kind = strings[g.users[k]].kind;
            if kind.is_walked_table() {
                walked = true;
            }
            kinds.push(kind);
            k = k + 1;
        }
        let cap = Plan::cap(kinds.as_slice(), orig.len());
        proof {
            if names_a_name(strings@, *g) {
                let q = choose|q: int| 0 <= q < g.users@.len() && strings@[g.users@[q] as int].kind == RefKind::Table(11);
                assert(kinds@[q] == RefKind::Table(11));
            }
            if exists|q: int| 0 <= q < kinds@.len() && kinds@[q] == RefKind::Table(11) {
                let q = choose|q: int| 0 <= q < kinds@.len() && kinds@[q] == RefKind::Table(11);
                assert(strings@[g.users@[q] as int].kind == RefKind::Table(11));
            }
            assert(cap == group_cap(buf@, strings@, *g));
            assert(walked == in_walked_table(strings@, *g));
        }
        let ghost before = errs@;
        match check(g.codes.as_slice(), orig.as_slice(), cap) {
            Err(e) => {
                let why = RefusalReason::Check(e);
                refuse_users(&mut errs, strings, g, &why);
            },
            Ok(()) => {
                if g.codes.len() == 0 && walked {
                    let why = RefusalReason::BlankTableEntry;
                    refuse_users(&mut errs, strings, g, &why);
                } else {
                    assert(refusal_views(errs@) =~= refusal_views(errs@) + Seq::<(Option<(usize, usize)>, Seq<char>)>::empty());
                }
            },
        }
        j = j + 1;
    }
    assert(gs@.take(j as int) =~= gs@);
    errs
}


/// The refusals of the directory entries at or past the insertion point,
/// among entries `1 .. n`.
pub open spec fn dir_refusals(buf: Seq<u8>, at0: usize, n: int) -> Seq<Refusal>
    decreases n,
{
    if n <= 1 {
        Seq::empty()
    } else {
        dir_refusals(buf, at0, n - 1) + match spec_u16_at(buf, 2 * (n - 1)) {
            Some(v) => if v >= at0 {
                seq![Refusal { key: None, why: RefusalReason::DirEntryPastCursor { entry: (n - 1) as usize, value: v as usize } }]
            } else {
                Seq::empty()
            },
            None => Seq::empty(),
        }
    }
}

/// Why the record region cannot be slid to make room, if it cannot: an odd
/// cursor, a cursor inside the script, or a directory entry that points at or
/// past it.
pub open spec fn cursor_refusals(buf: Seq<u8>, p: Plan) -> Seq<Refusal> {
    let at0 = p.record_cursor;
    (if at0 % 2 != 0 {
        seq![Refusal { key: None, why: RefusalReason::OddCursor { cursor: at0 } }]
    } else {
        Seq::empty()
    }) + (if at0 < p.script_end {
        seq![Refusal { key: None, why: RefusalReason::CursorBelowScript { cursor: at0, script_end: p.script_end } }]
    } else {
        Seq::empty()
    }) + dir_refusals(buf, at0, p.dir_words as int)
}

fn cursor_checks(buf: &[u8], p: &Plan) -> (errs: Vec<Refusal>)
    requires
        p.dir_words <= 0x8000,
    ensures
        errs@ == cursor_refusals(buf@, *p),
{
    let at0 = p.record_cursor;
    let mut errs: Vec<Refusal> = Vec::new();
    if at0 % 2 != 0 {
        errs.push(Refusal { key: None, why: RefusalReason::OddCursor { cursor: at0 } });
    }
    if at0 < p.script_end {
        errs.push(Refusal { key: None, why: RefusalReason::CursorBelowScript { cursor: at0, script_end: p.script_end } });
    }
    let ghost head = errs@;
    proof {
        assert(head == (if at0 % 2 != 0 {
            seq![Refusal { key: None, why: RefusalReason::OddCursor { cursor: at0 } }]
        } else {
            Seq::empty()
        }) + (if at0 < p.script_end {
            seq![Refusal { key: None, why: RefusalReason::CursorBelowScript { cursor: at0, script_end: p.script_end } }]
        } else {
            Seq::empty()
        }));
    }
    let mut t: usize = 1;
    while t < p.dir_words
        invariant
            1 <= t,
            t <= p.dir_words || t == 1,
            p.dir_words <= 0x8000,
            errs@ == head + dir_refusals(buf@, at0, t as int),
        decreases p.dir_words - t,
    {
        match u16at(buf, t * 2) {
            Some(v) => {
                if v as usize >= at0 {
                    errs.push(Refusal { key: None, why: RefusalReason::DirEntryPastCursor { entry: t, value: v as usize } });
                }
            },
            None => {},
        }
        proof {
            assert(dir_refusals(buf@, at0, t + 1) == dir_refusals(buf@, at0, t as int) + match spec_u16_at(buf@, 2 * t) {
                Some(v) => if v >= at0 {
                    seq![Refusal { key: None, why: RefusalReason::DirEntryPastCursor { entry: t, value: v as usize } }]
                } else {
                    Seq::<Refusal>::empty()
                },
                None => Seq::<Refusal>::empty(),
            });
        }
        t = t + 1;
    }
    proof {
        if p.dir_words <= 1 {
            assert(dir_refusals(buf@, at0, p.dir_words as int) == Seq::<Refusal>::empty());
            assert(dir_refusals(buf@, at0, t as int) == Seq::<Refusal>::empty());
        }
    }
    errs
}

/// The bytes the arena holds for `gs`: each group's string, in order.
pub open spec fn blob_of(gs: Seq<Group>) -> Seq<u8>
    decreases gs.len(),
{
    if gs.len() == 0 {
        Seq::empty()
    } else {
        blob_of(gs.drop_last()) + string_bytes(gs.last().codes@)
    }
}

/// Where the string of group `j` starts when the arena begins at `at0`.
pub open spec fn start_of(at0: int, gs: Seq<Group>, j: int) -> int {
    at0 + blob_of(gs.take(j)).len()
}

/// The first group, from `j` on, that would start at or past the reach.
pub open spec fn placed_from(at0: int, gs: Seq<Group>, j: int) -> int
    decreases gs.len() - j,
{
    if j < 0 || j >= gs.len() || start_of(at0, gs, j) >= REACH {
        j
    } else {
        placed_from(at0, gs, j + 1)
    }
}

/// How many groups, from the first, fit below the reach.
pub open spec fn placed(at0: int, gs: Seq<Group>) -> int {
    placed_from(at0, gs, 0)
}

/// The refusals of the groups that do not fit: each user, with where its
/// string would have started.
pub open spec fn full_views(strings: Seq<StringRef>, gs: Seq<Group>, start: int, headroom: int) -> Seq<(Option<(usize, usize)>, Seq<char>)>
    decreases gs.len(),
{
    if gs.len() == 0 {
        Seq::empty()
    } else {
        full_views(strings, gs.drop_last(), start, headroom) + user_views(
            strings,
            gs.last(),
            refusal_text(RefusalReason::ArenaFull { start: start as usize, headroom: headroom as usize }),
        )
    }
}

/// How many words the string at `off` took, terminator included, or 0.
pub open spec fn was_words(buf: Seq<u8>, off: usize) -> nat {
    match spec_read_codes(buf, off as int, usize::MAX as int) {
        Some(c) => c.len() + 1,
        None => 0,
    }
}

/// One line of the placement report.
pub open spec fn placement_text(from: usize, to: usize, was: nat, now: nat, users: nat) -> Seq<char> {
    "0x"@ + hex(from as nat, 4) + " -> 0x"@ + hex(to as nat, 4) + "  "@ + decimal(was) + "w -> "@ + decimal(now)
        + "w x"@ + decimal(users)
}

fn placement_line(from: usize, to: usize, was: usize, now: usize, users: usize) -> (s: String)
    ensures
        s@ == placement_text(from, to, was as nat, now as nat, users as nat),
{
    let mut out: Vec<char> = Vec::new();
    push_str(&mut out, "0x");
    push_hex(&mut out, from as u64, 4);
    push_str(&mut out, " -> 0x");
    push_hex(&mut out, to as u64, 4);
    push_str(&mut out, "  ");
    push_dec(&mut out, was as u64);
    push_str(&mut out, "w -> ");
    push_dec(&mut out, now as u64);
    push_str(&mut out, "w x");
    push_dec(&mut out, users as u64);
    string_of(out.as_slice())
}

/// The placement report of the first `n` groups, placed from `at0`.
pub open spec fn arena_placements(buf: Seq<u8>, at0: int, gs: Seq<Group>, n: int) -> Seq<Seq<char>>
    decreases n,
{
    if n <= 0 {
        Seq::empty()
    } else {
        arena_placements(buf, at0, gs, n - 1).push(
            placement_text(
                gs[n - 1].offset,
                start_of(at0, gs, n - 1) as usize,
                was_words(buf, gs[n - 1].offset),
                gs[n - 1].codes@.len() + 1,
                gs[n - 1].users@.len(),
            ),
        )
    }
}


/// Every group's text is within the expansion cap.
pub open spec fn codes_capped(gs: Seq<Group>) -> bool {
    forall|j: int| 0 <= j < gs.len() ==> (#[trigger] gs[j]).codes@.len() <= EXPANSION_CAP
}

proof fn lemma_blob_step(gs: Seq<Group>, j: int)
    requires
        0 <= j < gs.len(),
    ensures
        blob_of(gs.take(j + 1)) == blob_of(gs.take(j)) + string_bytes(gs[j].codes@),
{
    assert(gs.take(j + 1).drop_last() =~= gs.take(j));
    assert(gs.take(j + 1).last() == gs[j]);
}

/// The length of a string's bytes.
proof fn lemma_string_bytes_len(codes: Seq<u16>)
    ensures
        string_bytes(codes).len() == 2 * codes.len() + 2,
{
    lemma_be16_seq_len(codes);
}

/// How many words the string at `off` took, terminator included, or 0.
fn words_at(buf: &[u8], off: usize) -> (n: usize)
    ensures
        n == was_words(buf@, off),
{
    match read_codes(buf, off, usize::MAX) {
        Some(c) => c.len() + 1,
        None => 0,
    }
}

/// Lay the groups' strings out from `at0`, in order, for as long as each one
/// starts below the reach; refuse every user of the rest.
fn lay_out(buf: &[u8], strings: &[StringRef], at0: usize, gs: &[Group]) -> (r: (Vec<u8>, Vec<usize>, Vec<String>, Vec<Refusal>))
    requires
        at0 < REACH,
        users_in(strings@, gs@),
        codes_capped(gs@),
    ensures
        r.0@ == blob_of(gs@.take(placed(at0 as int, gs@))),
        r.1@.len() == placed(at0 as int, gs@),
        forall|j: int| 0 <= j < r.1@.len() ==> r.1@[j] == start_of(at0 as int, gs@, j),
        forall|j: int| 0 <= j < r.1@.len() ==> #[trigger] r.1@[j] < REACH,
        r.2@.map_values(|x: String| x@) == arena_placements(buf@, at0 as int, gs@, placed(at0 as int, gs@)),
        refusal_views(r.3@) == full_views(
            strings@,
            gs@.skip(placed(at0 as int, gs@)),
            start_of(at0 as int, gs@, placed(at0 as int, gs@)),
            REACH - at0,
        ),
        0 <= placed(at0 as int, gs@) <= gs@.len(),
        placed(at0 as int, gs@) < gs@.len() ==> start_of(at0 as int, gs@, placed(at0 as int, gs@)) >= REACH,
        r.0@.len() < REACH + 2 * EXPANSION_CAP + 2,
{
    let mut blob: Vec<u8> = Vec::new();
    let mut starts: Vec<usize> = Vec::new();
    let mut placements: Vec<String> = Vec::new();
    let mut j: usize = 0;
    proof {
        assert(gs@.take(0) =~= Seq::<Group>::empty());
    }
    while j < gs.len() && at0 + blob.len() < REACH
        invariant
            j <= gs@.len(),
            at0 < REACH,
            codes_capped(gs@),
            blob@ == blob_of(gs@.take(j as int)),
            blob@.len() < REACH + 2 * EXPANSION_CAP + 2,
            placed(at0 as int, gs@) == placed_from(at0 as int, gs@, j as int),
            starts@.len() == j,
            forall|i: int| 0 <= i < j ==> starts@[i] == start_of(at0 as int, gs@, i),
            forall|i: int| 0 <= i < j ==> #[trigger] starts@[i] < REACH,
            placements@.map_values(|x: String| x@) == arena_placements(buf@, at0 as int, gs@, j as int),
        decreases gs@.len() - j,
    {
        let g = &gs[j];
        let start = at0 + blob.len();
        let bytes = codes_to_bytes(g.codes.as_slice());
        let was = words_at(buf, g.offset);
        let line = placement_line(g.offset, start, was, g.codes.len() + 1, g.users.len());
        proof {
            assert(start_of(at0 as int, gs@, j as int) < REACH);
            lemma_blob_step(gs@, j as int);
            assert(placed_from(at0 as int, gs@, j as int) == placed_from(at0 as int, gs@, j + 1));
            assert(g.codes@.len() <= EXPANSION_CAP);
        }
        let ghost prev = placements@;
        starts.push(start);
        placements.push(line);
        let mut k: usize = 0;
        let ghost before = blob@;
        while k < bytes.len()
            invariant
                k <= bytes@.len(),
                blob@ == before + bytes@.take(k as int),
            decreases bytes@.len() - k,
        {
            blob.push(bytes[k]);
            proof {
                assert(bytes@.take(k + 1) =~= bytes@.take(k as int).push(bytes@[k as int]));
            }
            k = k + 1;
        }
        proof {
            assert(bytes@.take(k as int) =~= bytes@);
            assert(placements@.map_values(|x: String| x@) =~= prev.map_values(|x: String| x@).push(line@));
        }
        j = j + 1;
    }
    proof {
        assert(placed_from(at0 as int, gs@, j as int) == j);
    }
    let ghost p = j as int;
    let mut errs: Vec<Refusal> = Vec::new();
    let full_at = at0 + blob.len();
    let why = RefusalReason::ArenaFull { start: full_at, headroom: REACH - at0 };
    proof {
        assert(gs@.subrange(p, p) =~= Seq::<Group>::empty());
    }
    while j < gs.len()
        invariant
            0 <= p <= j <= gs@.len(),
            users_in(strings@, gs@),
            why == (RefusalReason::ArenaFull { start: full_at, headroom: (REACH - at0) as usize }),
            refusal_views(errs@) == full_views(strings@, gs@.subrange(p, j as int), full_at as int, REACH - at0),
        decreases gs@.len() - j,
    {
        let g = &gs[j];
        proof {
            assert(forall|k: int| 0 <= k < g.users@.len() ==> (#[trigger] g.users@[k]) < strings@.len()) by {
                assert(forall|k: int| 0 <= k < g.users@.len() ==> gs@[j as int].users@[k] == g.users@[k]);
            }
            assert(gs@.subrange(p, j + 1).drop_last() =~= gs@.subrange(p, j as int));
            assert(gs@.subrange(p, j + 1).last() == *g);
        }
        refuse_users(&mut errs, strings, g, &why);
        j = j + 1;
    }
    proof {
        assert(gs@.subrange(p, j as int) =~= gs@.skip(p));
    }
    (blob, starts, placements, errs)
}


/// The halfword a user rewrites.
pub open spec fn slot_of(strings: Seq<StringRef>, u: usize) -> usize {
    strings[u as int].slot.unwrap()
}

/// Some user of `g` rewrites `sl`.
pub open spec fn group_uses(strings: Seq<StringRef>, g: Group, sl: usize) -> bool {
    exists|m: int| 0 <= m < g.users@.len() && slot_of(strings, g.users@[m]) == sl
}

/// Some group of `gs` rewrites `sl`.
pub open spec fn slot_used(strings: Seq<StringRef>, gs: Seq<Group>, sl: usize) -> bool {
    exists|i: int| 0 <= i < gs.len() && #[trigger] group_uses(strings, gs[i], sl)
}

/// Group `g` is the first of `gs` to rewrite `sl`.
pub open spec fn first_use(strings: Seq<StringRef>, gs: Seq<Group>, sl: usize, g: int) -> bool {
    &&& 0 <= g < gs.len()
    &&& group_uses(strings, gs[g], sl)
    &&& forall|i: int| 0 <= i < g ==> !#[trigger] group_uses(strings, gs[i], sl)
}

/// The refusals of users in `us` (of a group at `offset`) whose slot a group
/// of `before` already rewrites to another offset.
pub open spec fn user_conflicts(strings: Seq<StringRef>, before: Seq<Group>, offset: usize, us: Seq<usize>) -> Seq<(Option<(usize, usize)>, Seq<char>)>
    decreases us.len(),
{
    if us.len() == 0 {
        Seq::empty()
    } else {
        let u = us.last();
        user_conflicts(strings, before, offset, us.drop_last()) + if slot_used(strings, before, slot_of(strings, u)) {
            seq![(Some((strings[u as int].at, offset)), refusal_text(RefusalReason::SlotConflict { slot: slot_of(strings, u) }))]
        } else {
            Seq::empty()
        }
    }
}

/// The refusals of every user whose slot an earlier group rewrites.
pub open spec fn conflict_views(strings: Seq<StringRef>, gs: Seq<Group>) -> Seq<(Option<(usize, usize)>, Seq<char>)>
    decreases gs.len(),
{
    if gs.len() == 0 {
        Seq::empty()
    } else {
        conflict_views(strings, gs.drop_last()) + user_conflicts(strings, gs.drop_last(), gs.last().offset, gs.last().users@)
    }
}

proof fn lemma_no_user_conflicts(strings: Seq<StringRef>, before: Seq<Group>, offset: usize, us: Seq<usize>, k: int)
    requires
        user_conflicts(strings, before, offset, us).len() == 0,
        0 <= k < us.len(),
    ensures
        !slot_used(strings, before, slot_of(strings, us[k])),
    decreases us.len(),
{
    if k < us.len() - 1 {
        assert(us.drop_last()[k] == us[k]);
        lemma_no_user_conflicts(strings, before, offset, us.drop_last(), k);
    }
}

/// Without conflicts, every group is the first to rewrite each of its slots.
proof fn lemma_no_conflicts(strings: Seq<StringRef>, gs: Seq<Group>, j: int, k: int)
    requires
        conflict_views(strings, gs).len() == 0,
        0 <= j < gs.len(),
        0 <= k < gs[j].users@.len(),
    ensures
        first_use(strings, gs, slot_of(strings, gs[j].users@[k]), j),
    decreases gs.len(),
{
    let sl = slot_of(strings, gs[j].users@[k]);
    if j < gs.len() - 1 {
        assert(gs.drop_last()[j] == gs[j]);
        lemma_no_conflicts(strings, gs.drop_last(), j, k);
        assert forall|i: int| 0 <= i < j implies !#[trigger] group_uses(strings, gs[i], sl) by {
            assert(gs.drop_last()[i] == gs[i]);
        }
    } else {
        lemma_no_user_conflicts(strings, gs.drop_last(), gs.last().offset, gs.last().users@, k);
        assert forall|i: int| 0 <= i < j implies !#[trigger] group_uses(strings, gs[i], sl) by {
            assert(gs.drop_last()[i] == gs[i]);
            if group_uses(strings, gs[i], sl) {
                assert(group_uses(strings, gs.drop_last()[i], sl));
            }
        }
    }
}

/// Starts strictly increase along the groups.
proof fn lemma_start_increases(at0: int, gs: Seq<Group>, i: int, j: int)
    requires
        0 <= i < j <= gs.len(),
    ensures
        start_of(at0, gs, i) + 2 <= start_of(at0, gs, j),
    decreases j - i,
{
    lemma_blob_step(gs, j - 1);
    lemma_string_bytes_len(gs[j - 1].codes@);
    if i < j - 1 {
        lemma_start_increases(at0, gs, i, j - 1);
    }
}

/// Every user of the groups has a slot.
pub open spec fn users_have_slots(strings: Seq<StringRef>, gs: Seq<Group>) -> bool {
    forall|g: int, k: int| 0 <= g < gs.len() && 0 <= k < gs[g].users@.len() ==> (#[trigger] strings[gs[g].users@[k] as int]).slot is Some
}

/// The entry holds a slot and the start of the first group, no later than
/// `j`, to rewrite it.
pub open spec fn entry_ok(strings: Seq<StringRef>, gs: Seq<Group>, starts: Seq<usize>, e: (usize, usize), j: int) -> bool {
    exists|g: int| 0 <= g <= j && #[trigger] first_use(strings, gs, e.0, g) && e.1 == starts[g]
}

/// The slot table built so far: slots are unique, each holds the start of the
/// first group to rewrite it, and every slot processed so far is in it.
pub open spec fn slots_inv(strings: Seq<StringRef>, gs: Seq<Group>, starts: Seq<usize>, entries: Seq<(usize, usize)>, j: int, k: int) -> bool {
    &&& forall|a: int, b: int| 0 <= a < b < entries.len() ==> (#[trigger] entries[a]).0 != (#[trigger] entries[b]).0
    &&& forall|a: int| 0 <= a < entries.len() ==> #[trigger] entry_ok(strings, gs, starts, entries[a], j)
    &&& forall|g: int, m: int| 0 <= g < j && 0 <= m < gs[g].users@.len() ==> has_slot(entries, slot_of(strings, #[trigger] gs[g].users@[m]))
    &&& forall|m: int| 0 <= m < k ==> has_slot(entries, slot_of(strings, #[trigger] gs[j].users@[m]))
}

/// Some entry holds `sl`.
pub open spec fn has_slot(entries: Seq<(usize, usize)>, sl: usize) -> bool {
    exists|a: int| 0 <= a < entries.len() && #[trigger] entries[a].0 == sl
}


proof fn lemma_insert_entry(
    strings: Seq<StringRef>,
    gs: Seq<Group>,
    starts: Seq<usize>,
    entries: Seq<(usize, usize)>,
    pos: int,
    j: int,
    k: int,
)
    requires
        slots_inv(strings, gs, starts, entries, j, k),
        0 <= pos <= entries.len(),
        0 <= j < gs.len(),
        0 <= k < gs[j].users@.len(),
        starts.len() == gs.len(),
        !has_slot(entries, slot_of(strings, gs[j].users@[k])),
        !slot_used(strings, gs.take(j), slot_of(strings, gs[j].users@[k])),
    ensures
        slots_inv(
            strings,
            gs,
            starts,
            entries.insert(pos, (slot_of(strings, gs[j].users@[k]), starts[j])),
            j,
            k + 1,
        ),
{
    let sl = slot_of(strings, gs[j].users@[k]);
    let e = (sl, starts[j]);
    let new = entries.insert(pos, e);
    assert forall|b: int| 0 <= b < new.len() implies (b == pos && new[b] == e) || (b < pos && new[b] == entries[b]) || (b
        > pos && new[b] == entries[b - 1]) by {}
    assert(first_use(strings, gs, sl, j)) by {
        assert(group_uses(strings, gs[j], sl));
        assert forall|i: int| 0 <= i < j implies !#[trigger] group_uses(strings, gs[i], sl) by {
            if group_uses(strings, gs[i], sl) {
                assert(gs.take(j)[i] == gs[i]);
                assert(group_uses(strings, gs.take(j)[i], sl));
            }
        }
    }
    assert(first_use(strings, gs, e.0, j));
    assert(entry_ok(strings, gs, starts, e, j));
    assert forall|a: int, b: int| 0 <= a < b < new.len() implies (#[trigger] new[a]).0 != (#[trigger] new[b]).0 by {
        if a == pos {
            assert(has_slot(entries, new[b].0));
        } else if b == pos {
            assert(has_slot(entries, new[a].0));
        }
    }
    assert forall|a: int| 0 <= a < new.len() implies #[trigger] entry_ok(strings, gs, starts, new[a], j) by {
        if a < pos {
            assert(entry_ok(strings, gs, starts, entries[a], j));
        } else if a > pos {
            assert(entry_ok(strings, gs, starts, entries[a - 1], j));
        }
    }
    assert forall|g: int, m: int| 0 <= g < j && 0 <= m < gs[g].users@.len() implies has_slot(new, slot_of(strings, #[trigger] gs[g].users@[m])) by {
        let x = slot_of(strings, gs[g].users@[m]);
        assert(has_slot(entries, x));
        let a = choose|a: int| 0 <= a < entries.len() && #[trigger] entries[a].0 == x;
        if a < pos {
            assert(new[a].0 == x);
        } else {
            assert(new[a + 1].0 == x);
        }
    }
    assert forall|m: int| 0 <= m < k + 1 implies has_slot(new, slot_of(strings, #[trigger] gs[j].users@[m])) by {
        let x = slot_of(strings, gs[j].users@[m]);
        if m == k {
            assert(new[pos].0 == x);
        } else {
            assert(has_slot(entries, x));
            let a = choose|a: int| 0 <= a < entries.len() && #[trigger] entries[a].0 == x;
            if a < pos {
                assert(new[a].0 == x);
            } else {
                assert(new[a + 1].0 == x);
            }
        }
    }
}

/// The one word each reference uses to name its string and the offset it has
/// to hold, for the first `n` groups placed at `starts`; and a refusal for each
/// reference whose word an earlier group already claims for another offset.
fn slotmap(strings: &[StringRef], gs: &[Group], starts: &[usize], n: usize) -> (r: (Vec<(usize, usize)>, Vec<Refusal>))
    requires
        n <= gs@.len(),
        starts@.len() == n,
        forall|i: int, j: int| 0 <= i < j < n ==> starts@[i] < starts@[j],
        users_in(strings@, gs@),
        users_have_slots(strings@, gs@),
    ensures
        slots_inv(strings@, gs@.take(n as int), starts@, r.0@, n as int, 0),
        refusal_views(r.1@) == conflict_views(strings@, gs@.take(n as int)),
{
    let ghost gt = gs@.take(n as int);
    let mut entries: Vec<(usize, usize)> = Vec::new();
    let mut errs: Vec<Refusal> = Vec::new();
    let mut j: usize = 0;
    proof {
        assert(gt.take(0) =~= Seq::<Group>::empty());
    }
    while j < n
        invariant
            j <= n,
            n <= gs@.len(),
            gt == gs@.take(n as int),
            starts@.len() == n,
            forall|i: int, q: int| 0 <= i < q < n ==> starts@[i] < starts@[q],
            users_in(strings@, gs@),
            users_have_slots(strings@, gs@),
            slots_inv(strings@, gt, starts@, entries@, j as int, 0),
            refusal_views(errs@) == conflict_views(strings@, gt.take(j as int)),
        decreases n - j,
    {
        let g = &gs[j];
        let new = starts[j];
        proof {
            assert(gt[j as int] == *g);
            assert(users_in(strings@, gs@));
        }
        let ghost head = refusal_views(errs@);
        let mut k: usize = 0;
        proof {
            assert(g.users@.take(0) =~= Seq::<usize>::empty());
            assert(head == head + user_conflicts(strings@, gt.take(j as int), g.offset, g.users@.take(0)));
        }
        while k < g.users.len()
            invariant
                k <= g.users@.len(),
                j < n,
                n <= gs@.len(),
                gt == gs@.take(n as int),
                gt[j as int] == *g,
                gs@[j as int] == *g,
                new == starts@[j as int],
                starts@.len() == n,
                forall|i: int, q: int| 0 <= i < q < n ==> starts@[i] < starts@[q],
                users_in(strings@, gs@),
                users_have_slots(strings@, gs@),
                slots_inv(strings@, gt, starts@, entries@, j as int, k as int),
                refusal_views(errs@) == head + user_conflicts(strings@, gt.take(j as int), g.offset, g.users@.take(k as int)),
            decreases g.users@.len() - k,
        {
            let u = g.users[k];
            proof {
                assert(g.users@[k as int] == gs@[j as int].users@[k as int]);
                assert(u < strings@.len());
                assert(strings@[u as int].slot is Some);
            }
            let sl = match strings[u].slot {
                Some(x) => x,
                None => 0,
            };
            assert(sl == slot_of(strings@, gt[j as int].users@[k as int]));
            let mut a: usize = 0;
            let mut found = false;
            while !found && a < entries.len()
                invariant
                    a <= entries@.len(),
                    found ==> a < entries@.len() && entries@[a as int].0 == sl,
                    !found ==> forall|b: int| 0 <= b < a ==> (#[trigger] entries@[b]).0 != sl,
                decreases entries@.len() - a + (if found { 0int } else { 1 }),
            {
                if entries[a].0 == sl {
                    found = true;
                } else {
                    a = a + 1;
                }
            }
            let ghost before = errs@;
            let ghost uc = user_conflicts(strings@, gt.take(j as int), g.offset, g.users@.take(k + 1));
            proof {
                assert(g.users@.take(k + 1).drop_last() =~= g.users@.take(k as int));
                assert(g.users@.take(k + 1).last() == u);
            }
            if found {
                proof {
                    assert(entry_ok(strings@, gt, starts@, entries@[a as int], j as int));
                }
                let ghost g0 = choose|g0: int| 0 <= g0 <= j && #[trigger] first_use(strings@, gt, entries@[a as int].0, g0)
                    && entries@[a as int].1 == starts@[g0];
                if entries[a].1 != new {
                    proof {
                        assert(g0 != j);
                        assert(gt.take(j as int)[g0] == gt[g0]);
                        assert(group_uses(strings@, gt.take(j as int)[g0], sl));
                        assert(slot_used(strings@, gt.take(j as int), sl));
                    }
                    errs.push(Refusal { key: Some((strings[u].at, g.offset)), why: RefusalReason::SlotConflict { slot: sl } });
                    proof {
                        assert(refusal_views(errs@) =~= refusal_views(before).push(refusal_view(errs@.last())));
                    }
                } else {
                    proof {
                        if g0 < j {
                            assert(starts@[g0] < starts@[j as int]);
                        }
                        assert(g0 == j);
                        assert forall|i: int| 0 <= i < gt.take(j as int).len() implies !#[trigger] group_uses(strings@, gt.take(j as int)[i], sl) by {
                            assert(gt.take(j as int)[i] == gt[i]);
                        }
                        assert(!slot_used(strings@, gt.take(j as int), sl));
                        assert(refusal_views(errs@) =~= refusal_views(errs@) + Seq::<(Option<(usize, usize)>, Seq<char>)>::empty());
                    }
                }
                proof {
                    assert(has_slot(entries@, sl));
                    assert forall|m: int| 0 <= m < k + 1 implies has_slot(entries@, slot_of(strings@, #[trigger] gt[j as int].users@[m])) by {
                        if m == k {
                            assert(entries@[a as int].0 == sl);
                        }
                    }
                }
            } else {
                proof {
                    assert(!has_slot(entries@, sl));
                    if slot_used(strings@, gt.take(j as int), sl) {
                        let i = choose|i: int| 0 <= i < gt.take(j as int).len() && #[trigger] group_uses(strings@, gt.take(j as int)[i], sl);
                        let m = choose|m: int| 0 <= m < gt.take(j as int)[i].users@.len() && slot_of(strings@, gt.take(j as int)[i].users@[m]) == sl;
                        assert(gt.take(j as int)[i] == gt[i]);
                        assert(has_slot(entries@, slot_of(strings@, gt[i].users@[m])));
                    }
                    assert(refusal_views(errs@) =~= refusal_views(errs@) + Seq::<(Option<(usize, usize)>, Seq<char>)>::empty());
                }
                let mut pos: usize = 0;
                while pos < entries.len() && entries[pos].0 < sl
                    invariant
                        pos <= entries@.len(),
                    decreases entries@.len() - pos,
                {
                    pos = pos + 1;
                }
                proof {
                    lemma_insert_entry(strings@, gt, starts@, entries@, pos as int, j as int, k as int);
                }
                entries.insert(pos, (sl, new));
            }
            k = k + 1;
        }
        proof {
            assert(g.users@.take(k as int) =~= g.users@);
            assert(gt.take(j + 1).drop_last() =~= gt.take(j as int));
            assert(gt.take(j + 1).last() == *g);
            assert forall|q: int, m: int| 0 <= q < j + 1 && 0 <= m < gt[q].users@.len() implies has_slot(entries@, slot_of(strings@, #[trigger] gt[q].users@[m])) by {
                if q == j {
                    assert(has_slot(entries@, slot_of(strings@, gt[j as int].users@[m])));
                }
            }
            assert forall|a: int| 0 <= a < entries@.len() implies #[trigger] entry_ok(strings@, gt, starts@, entries@[a], j + 1) by {
                assert(entry_ok(strings@, gt, starts@, entries@[a], j as int));
            }
        }
        j = j + 1;
    }
    proof {
        assert(gt.take(j as int) =~= gt);
    }
    (entries, errs)
}


/// Byte `i` lies in the halfword some entry rewrites.
pub open spec fn covered(entries: Seq<(usize, usize)>, i: int) -> bool {
    exists|a: int| 0 <= a < entries.len() && (#[trigger] entries[a]).0 <= i < entries[a].0 + 2
}

/// No other entry's halfword overlaps entry `a`'s.
pub open spec fn lone(entries: Seq<(usize, usize)>, a: int) -> bool {
    forall|b: int| 0 <= b < entries.len() && b != a ==> (#[trigger] entries[b]).0 + 2 <= entries[a].0 || entries[a].0 + 2 <= entries[b].0
}

/// Write each entry's value as a halfword at its slot, in order.
fn apply_slots(out: &mut Vec<u8>, entries: &[(usize, usize)])
    requires
        forall|a: int| 0 <= a < entries@.len() ==> (#[trigger] entries@[a]).0 + 2 <= old(out)@.len(),
    ensures
        final(out)@.len() == old(out)@.len(),
        forall|i: int| 0 <= i < old(out)@.len() && !covered(entries@, i) ==> final(out)@[i] == old(out)@[i],
        forall|a: int| 0 <= a < entries@.len() && lone(entries@, a) ==> spec_u16_at(final(out)@, (#[trigger] entries@[a]).0 as int)
            == Some(entries@[a].1 as u16),
{
    let ghost start = out@;
    let mut t: usize = 0;
    while t < entries.len()
        invariant
            t <= entries@.len(),
            out@.len() == start.len(),
            forall|a: int| 0 <= a < entries@.len() ==> (#[trigger] entries@[a]).0 + 2 <= start.len(),
            forall|i: int| 0 <= i < start.len() && !covered(entries@.take(t as int), i) ==> out@[i] == start[i],
            forall|a: int| 0 <= a < t && lone(entries@, a) ==> spec_u16_at(out@, (#[trigger] entries@[a]).0 as int) == Some(
                entries@[a].1 as u16,
            ),
        decreases entries@.len() - t,
    {
        let (sl, v) = entries[t];
        let ghost prev = out@;
        set_be16(out, sl, v as u16);
        proof {
            lemma_be16_roundtrip(v as u16);
            assert forall|i: int| 0 <= i < start.len() && !covered(entries@.take(t + 1), i) implies out@[i] == start[i] by {
                assert(!(sl <= i < sl + 2)) by {
                    if sl <= i < sl + 2 {
                        assert(entries@.take(t + 1)[t as int] == entries@[t as int]);
                    }
                }
                if covered(entries@.take(t as int), i) {
                    let a = choose|a: int| 0 <= a < entries@.take(t as int).len() && (#[trigger] entries@.take(t as int)[a]).0 <= i < entries@.take(t as int)[a].0 + 2;
                    assert(entries@.take(t + 1)[a] == entries@.take(t as int)[a]);
                }
            }
            assert forall|a: int| 0 <= a < t + 1 && lone(entries@, a) implies spec_u16_at(out@, (#[trigger] entries@[a]).0 as int) == Some(
                entries@[a].1 as u16,
            ) by {
                if a < t {
                    let x = entries@[a].0 as int;
                    assert(entries@[t as int].0 + 2 <= x || x + 2 <= entries@[t as int].0);
                    assert(out@[x] == prev[x]);
                    assert(out@[x + 1] == prev[x + 1]);
                }
            }
        }
        t = t + 1;
    }
    proof {
        assert(entries@.take(t as int) =~= entries@);
    }
}

/// The zero bytes that round `n` up to a whole number of aligned blocks.
pub open spec fn pad_of(n: int) -> int {
    (ALIGN as int - n % (ALIGN as int)) % (ALIGN as int)
}

/// The file with the arena inserted at `at0`: what comes before it, the
/// strings, their padding, and everything from `at0` on, slid down.
pub open spec fn arena_base(buf: Seq<u8>, at0: int, blob: Seq<u8>) -> Seq<u8> {
    buf.take(at0) + blob + Seq::new(pad_of(blob.len() as int) as nat, |i: int| 0u8) + buf.skip(at0)
}

/// Byte `i` lies in the halfword some user of `gs` rewrites.
pub open spec fn slot_written(strings: Seq<StringRef>, gs: Seq<Group>, i: int) -> bool {
    exists|g: int, m: int|
        0 <= g < gs.len() && 0 <= m < gs[g].users@.len() && slot_of(strings, #[trigger] gs[g].users@[m]) <= i < slot_of(
            strings,
            gs[g].users@[m],
        ) + 2
}

/// No other user's halfword overlaps the one at `sl`.
pub open spec fn lone_slot(strings: Seq<StringRef>, gs: Seq<Group>, sl: int) -> bool {
    forall|g: int, m: int|
        0 <= g < gs.len() && 0 <= m < gs[g].users@.len() ==> slot_of(strings, #[trigger] gs[g].users@[m]) == sl || slot_of(
            strings,
            gs[g].users@[m],
        ) + 2 <= sl || sl + 2 <= slot_of(strings, gs[g].users@[m])
}

/// Every slot a user of `gs` rewrites lies past the record cursor's halfword.
pub open spec fn slots_clear_of_cursor(strings: Seq<StringRef>, gs: Seq<Group>) -> bool {
    forall|g: int, m: int| 0 <= g < gs.len() && 0 <= m < gs[g].users@.len() ==> slot_of(strings, #[trigger] gs[g].users@[m]) >= 2
}

/// What the arena writer produces: the file with the arena inserted at the
/// record cursor, the cursor's halfword bumped past it, and every user's slot
/// rewritten to its group's start.
pub open spec fn arena_output(buf: Seq<u8>, at0: int, strings: Seq<StringRef>, gs: Seq<Group>, out: Seq<u8>) -> bool {
    let base = arena_base(buf, at0, blob_of(gs));
    let cursor = at0 + blob_of(gs).len() + pad_of(blob_of(gs).len() as int);
    &&& out.len() == base.len()
    &&& forall|i: int| 2 <= i < out.len() && !slot_written(strings, gs, i) ==> out[i] == base[i]
    &&& forall|g: int, m: int|
        0 <= g < gs.len() && 0 <= m < gs[g].users@.len() && lone_slot(strings, gs, slot_of(strings, gs[g].users@[m]) as int) ==> spec_u16_at(
            out,
            slot_of(strings, #[trigger] gs[g].users@[m]) as int,
        ) == Some(start_of(at0, gs, g) as u16)
    &&& slots_clear_of_cursor(strings, gs) ==> spec_u16_at(out, 0) == Some(cursor as u16)
}


/// Every user's slot is a halfword inside the file.
pub open spec fn slots_in(strings: Seq<StringRef>, gs: Seq<Group>, len: int) -> bool {
    forall|g: int, m: int| 0 <= g < gs.len() && 0 <= m < gs[g].users@.len() ==> slot_of(strings, #[trigger] gs[g].users@[m]) + 2 <= len
}

/// Every group has at least one user.
pub open spec fn groups_nonempty(gs: Seq<Group>) -> bool {
    forall|g: int| 0 <= g < gs.len() ==> (#[trigger] gs[g]).users@.len() > 0
}

/// What the arena writer returns: the first refusals it meets, in the order
/// it checks, or the file with the arena inserted.
pub open spec fn arena_result(buf: Seq<u8>, p: Plan, gs: Seq<Group>, r: Result<Packed, Vec<Refusal>>) -> bool {
    let at0 = p.record_cursor as int;
    let strings = p.strings@;
    let n = placed(at0, gs);
    let cursor = at0 + blob_of(gs).len() + pad_of(blob_of(gs).len() as int);
    if cursor_refusals(buf, p).len() > 0 {
        r matches Err(e) && e@ == cursor_refusals(buf, p)
    } else if n < gs.len() || conflict_views(strings, gs.take(n)).len() > 0 {
        r matches Err(e) && refusal_views(e@) == full_views(strings, gs.skip(n), start_of(at0, gs, n), REACH - at0)
            + conflict_views(strings, gs.take(n))
    } else if cursor > 0xffff {
        r matches Err(e) && e@ == seq![Refusal { key: None, why: RefusalReason::CursorTooLarge { cursor: cursor as usize } }]
    } else {
        r matches Ok(pk) && arena_output(buf, at0, strings, gs, pk.bytes@) && pk.placements@.map_values(|x: String| x@)
            == arena_placements(buf, at0, gs, gs.len() as int)
    }
}

/// Append `src[lo..hi]`.
fn append_range(out: &mut Vec<u8>, src: &[u8], lo: usize, hi: usize)
    requires
        lo <= hi <= src@.len(),
    ensures
        final(out)@ == old(out)@ + src@.subrange(lo as int, hi as int),
{
    let ghost start = out@;
    let mut i: usize = lo;
    while i < hi
        invariant
            lo <= i <= hi,
            hi <= src@.len(),
            out@ == start + src@.subrange(lo as int, i as int),
        decreases hi - i,
    {
        out.push(src[i]);
        proof {
            assert(src@.subrange(lo as int, i + 1) =~= src@.subrange(lo as int, i as int).push(src@[i as int]));
        }
        i = i + 1;
    }
}

proof fn lemma_full_views_nonempty(strings: Seq<StringRef>, gs: Seq<Group>, start: int, headroom: int)
    requires
        gs.len() > 0,
        groups_nonempty(gs),
    ensures
        full_views(strings, gs, start, headroom).len() > 0,
{
    assert(gs.last().users@.len() > 0);
}

proof fn lemma_full_views_empty(strings: Seq<StringRef>, gs: Seq<Group>, start: int, headroom: int)
    requires
        gs.len() == 0,
    ensures
        full_views(strings, gs, start, headroom) == Seq::<(Option<(usize, usize)>, Seq<char>)>::empty(),
{
}

/// Append the new text at the record cursor, sliding the archives down.
/// Nothing that already exists moves but what the cursor slides, and nothing
/// is overwritten but the cursor and the slots that name a replaced string.
fn arena(buf: &[u8], p: &Plan, gs: &[Group]) -> (r: Result<Packed, Vec<Refusal>>)
    requires
        p.record_cursor < REACH,
        p.record_cursor <= buf@.len(),
        p.dir_words <= 0x8000,
        users_in(p.strings@, gs@),
        users_have_slots(p.strings@, gs@),
        slots_in(p.strings@, gs@, buf@.len() as int),
        codes_capped(gs@),
        groups_nonempty(gs@),
        gs@.len() > 0,
    ensures
        arena_result(buf@, *p, gs@, r),
{
    let at0 = p.record_cursor;
    let strings = p.strings.as_slice();
    let errs0 = cursor_checks(buf, p);
    if errs0.len() > 0 {
        return Err(errs0);
    }
    let (mut blob, starts, placements, mut errs) = lay_out(buf, strings, at0, gs);
    let n = starts.len();
    let ghost gsv = gs@;
    proof {
        assert forall|i: int, j: int| 0 <= i < j < n implies starts@[i] < starts@[j] by {
            lemma_start_increases(at0 as int, gsv, i, j);
        }
    }
    let (entries, cerrs) = slotmap(strings, gs, starts.as_slice(), n);
    let ghost head = refusal_views(errs@);
    let mut c: usize = 0;
    while c < cerrs.len()
        invariant
            c <= cerrs@.len(),
            refusal_views(errs@) == head + refusal_views(cerrs@).take(c as int),
        decreases cerrs@.len() - c,
    {
        let ghost before = errs@;
        errs.push(Refusal { key: cerrs[c].key, why: clone_reason(&cerrs[c].why) });
        proof {
            assert(refusal_views(errs@) =~= refusal_views(before).push(refusal_view(errs@.last())));
            assert(refusal_views(cerrs@).take(c + 1) =~= refusal_views(cerrs@).take(c as int).push(refusal_views(cerrs@)[c as int]));
        }
        c = c + 1;
    }
    proof {
        assert(refusal_views(cerrs@).take(c as int) =~= refusal_views(cerrs@));
    }
    if errs.len() > 0 {
        proof {
            if n == gsv.len() {
                assert(gsv.skip(n as int) =~= Seq::<Group>::empty());
                lemma_full_views_empty(strings@, gsv.skip(n as int), start_of(at0 as int, gsv, n as int), REACH - at0);
                assert(refusal_views(errs@).len() == errs@.len());
            }
        }
        return Err(errs);
    }
    proof {
        if n < gsv.len() {
            lemma_full_views_nonempty(strings@, gsv.skip(n as int), start_of(at0 as int, gsv, n as int), REACH - at0);
            assert(refusal_views(errs@).len() == errs@.len());
        }
        assert(n == gsv.len());
        assert(gsv.take(n as int) =~= gsv);
        assert(refusal_views(cerrs@).len() == cerrs@.len());
        lemma_start_increases(at0 as int, gsv, 0, n as int);
        assert(gsv.take(0) =~= Seq::<Group>::empty());
        assert(blob@.len() >= 2);
    }
    let pad = (ALIGN - blob.len() % ALIGN) % ALIGN;
    let mut z: usize = 0;
    let ghost bare = blob@;
    while z < pad
        invariant
            z <= pad,
            blob@ == bare + Seq::new(z as nat, |i: int| 0u8),
        decreases pad - z,
    {
        blob.push(0u8);
        proof {
            assert(Seq::new((z + 1) as nat, |i: int| 0u8) =~= Seq::new(z as nat, |i: int| 0u8).push(0u8));
        }
        z = z + 1;
    }
    let new_cursor = at0 + blob.len();
    if new_cursor > 0xffff {
        let mut e: Vec<Refusal> = Vec::new();
        e.push(Refusal { key: None, why: RefusalReason::CursorTooLarge { cursor: new_cursor } });
        proof {
            assert(e@ =~= seq![Refusal { key: None, why: RefusalReason::CursorTooLarge { cursor: new_cursor } }]);
        }
        return Err(e);
    }
    let mut out: Vec<u8> = Vec::new();
    append_range(&mut out, buf, 0, at0);
    let blen = blob.len();
    append_range(&mut out, blob.as_slice(), 0, blen);
    append_range(&mut out, buf, at0, buf.len());
    let ghost base = out@;
    proof {
        assert(blob@.subrange(0, blen as int) =~= blob@);
        assert(buf@.subrange(0, at0 as int) =~= buf@.take(at0 as int));
        assert(buf@.subrange(at0 as int, buf@.len() as int) =~= buf@.skip(at0 as int));
        assert(base =~= arena_base(buf@, at0 as int, blob_of(gsv)));
    }
    set_be16(&mut out, 0, new_cursor as u16);
    let ghost cur = out@;
    proof {
        lemma_be16_roundtrip(new_cursor as u16);
        assert forall|a: int| 0 <= a < entries@.len() implies (#[trigger] entries@[a]).0 + 2 <= cur.len() && entries@[a].1 <= 0xffff by {
            assert(entry_ok(strings@, gsv.take(n as int), starts@, entries@[a], n as int));
            let g = choose|g: int| 0 <= g <= n && #[trigger] first_use(strings@, gsv.take(n as int), entries@[a].0, g)
                && entries@[a].1 == starts@[g];
            let m = choose|m: int| 0 <= m < gsv[g].users@.len() && slot_of(strings@, gsv[g].users@[m]) == entries@[a].0;
            assert(slot_of(strings@, gsv[g].users@[m]) + 2 <= buf@.len());
        }
    }
    apply_slots(&mut out, entries.as_slice());
    proof {
        let es = entries@;
        // every entry is some user's slot, holding its first group's start
        assert forall|a: int| 0 <= a < es.len() implies exists|g: int, m: int|
            0 <= g < gsv.len() && 0 <= m < gsv[g].users@.len() && #[trigger] es[a].0 == slot_of(strings@, gsv[g].users@[m]) by {
            assert(entry_ok(strings@, gsv, starts@, es[a], n as int));
            let g = choose|g: int| 0 <= g <= n && #[trigger] first_use(strings@, gsv, es[a].0, g) && es[a].1 == starts@[g];
            let m = choose|m: int| 0 <= m < gsv[g].users@.len() && slot_of(strings@, gsv[g].users@[m]) == es[a].0;
        }
        assert forall|i: int| 2 <= i < out@.len() && !slot_written(strings@, gsv, i) implies out@[i] == base[i] by {
            if covered(es, i) {
                let a = choose|a: int| 0 <= a < es.len() && (#[trigger] es[a]).0 <= i < es[a].0 + 2;
                let (g, m) = choose|g: int, m: int|
                    0 <= g < gsv.len() && 0 <= m < gsv[g].users@.len() && #[trigger] es[a].0 == slot_of(strings@, gsv[g].users@[m]);
                assert(slot_of(strings@, gsv[g].users@[m]) <= i < slot_of(strings@, gsv[g].users@[m]) + 2);
            }
            assert(!covered(es, i));
            assert(out@[i] == cur[i]);
            assert(cur[i] == base[i]);
        }
        assert forall|g: int, m: int|
            0 <= g < gsv.len() && 0 <= m < gsv[g].users@.len() && lone_slot(strings@, gsv, slot_of(strings@, gsv[g].users@[m]) as int) implies spec_u16_at(
            out@,
            slot_of(strings@, #[trigger] gsv[g].users@[m]) as int,
        ) == Some(start_of(at0 as int, gsv, g) as u16) by {
            let sl = slot_of(strings@, gsv[g].users@[m]);
            assert(has_slot(es, slot_of(strings@, gsv.take(n as int)[g].users@[m])));
            let a = choose|a: int| 0 <= a < es.len() && #[trigger] es[a].0 == sl;
            assert(lone(es, a)) by {
                assert forall|b: int| 0 <= b < es.len() && b != a implies (#[trigger] es[b]).0 + 2 <= es[a].0 || es[a].0 + 2 <= es[b].0 by {
                    let (g2, m2) = choose|g2: int, m2: int|
                        0 <= g2 < gsv.len() && 0 <= m2 < gsv[g2].users@.len() && #[trigger] es[b].0 == slot_of(strings@, gsv[g2].users@[m2]);
                    assert(slot_of(strings@, gsv[g2].users@[m2]) == sl || slot_of(strings@, gsv[g2].users@[m2]) + 2 <= sl || sl + 2 <= slot_of(strings@, gsv[g2].users@[m2]));
                }
            }
            assert(entry_ok(strings@, gsv, starts@, es[a], n as int));
            let g0 = choose|g0: int| 0 <= g0 <= n && #[trigger] first_use(strings@, gsv, es[a].0, g0) && es[a].1 == starts@[g0];
            lemma_no_conflicts(strings@, gsv, g, m);
            if g0 < g {
                assert(!group_uses(strings@, gsv[g0], sl));
            } else if g < g0 {
                assert(group_uses(strings@, gsv[g], sl));
            }
            assert(g0 == g);
            assert(starts@[g] == start_of(at0 as int, gsv, g));
        }
        if slots_clear_of_cursor(strings@, gsv) {
            assert(!covered(es, 0)) by {
                if covered(es, 0) {
                    let a = choose|a: int| 0 <= a < es.len() && (#[trigger] es[a]).0 <= 0 < es[a].0 + 2;
                    let (g, m) = choose|g: int, m: int|
                        0 <= g < gsv.len() && 0 <= m < gsv[g].users@.len() && #[trigger] es[a].0 == slot_of(strings@, gsv[g].users@[m]);
                }
            }
            assert(!covered(es, 1)) by {
                if covered(es, 1) {
                    let a = choose|a: int| 0 <= a < es.len() && (#[trigger] es[a]).0 <= 1 < es[a].0 + 2;
                    let (g, m) = choose|g: int, m: int|
                        0 <= g < gsv.len() && 0 <= m < gsv[g].users@.len() && #[trigger] es[a].0 == slot_of(strings@, gsv[g].users@[m]);
                }
            }
        }
        assert(arena_output(buf@, at0 as int, strings@, gsv, out@));
    }
    Ok(Packed { bytes: out, placements })
}


/// The position of the last of the first `n` strings at `off`.
pub open spec fn last_at(strings: Seq<StringRef>, off: usize, n: int) -> Option<int>
    decreases n,
{
    if n <= 0 {
        None
    } else if strings[n - 1].offset == off {
        Some(n - 1)
    } else {
        last_at(strings, off, n - 1)
    }
}

/// Where the string at `off` ends, as the last reference to it records; 0
/// when no reference names it.
pub open spec fn ext_of(strings: Seq<StringRef>, off: usize) -> usize {
    match last_at(strings, off, strings.len() as int) {
        Some(i) => strings[i].end,
        None => 0,
    }
}

proof fn lemma_last_at(strings: Seq<StringRef>, off: usize, n: int)
    requires
        n <= strings.len(),
    ensures
        last_at(strings, off, n) matches Some(i) ==> 0 <= i < n && strings[i].offset == off,
        last_at(strings, off, n) is None ==> forall|i: int| 0 <= i < n ==> strings[i].offset != off,
    decreases n,
{
    if n > 0 {
        lemma_last_at(strings, off, n - 1);
    }
}

fn ext_exec(strings: &[StringRef], off: usize) -> (e: usize)
    ensures
        e == ext_of(strings@, off),
{
    let mut i = strings.len();
    while i > 0
        invariant
            i <= strings@.len(),
            last_at(strings@, off, strings@.len() as int) == last_at(strings@, off, i as int),
        decreases i,
    {
        if strings[i - 1].offset == off {
            return strings[i - 1].end;
        }
        i = i - 1;
    }
    0
}

/// The replaced strings' own bytes, coalesced: with `share`, a string that
/// starts where the previous one ends joins its segment; without, every
/// string is a segment of its own.
pub open spec fn segs_of(strings: Seq<StringRef>, want: Seq<usize>, share: bool) -> Seq<Seq<usize>>
    decreases want.len(),
{
    if want.len() == 0 {
        Seq::empty()
    } else {
        let prev = segs_of(strings, want.drop_last(), share);
        let off = want.last();
        if share && prev.len() > 0 && ext_of(strings, prev.last().last()) == off {
            prev.update(prev.len() - 1, prev.last().push(off))
        } else {
            prev.push(seq![off])
        }
    }
}

proof fn lemma_segs_unshared(strings: Seq<StringRef>, want: Seq<usize>)
    ensures
        segs_of(strings, want, false) == want.map_values(|o: usize| seq![o]),
    decreases want.len(),
{
    if want.len() > 0 {
        lemma_segs_unshared(strings, want.drop_last());
        assert(want.map_values(|o: usize| seq![o]) =~= want.drop_last().map_values(|o: usize| seq![o]).push(seq![want.last()]));
    } else {
        assert(want.map_values(|o: usize| seq![o]) =~= Seq::<Seq<usize>>::empty());
    }
}

/// Coalesce the replaced offsets into the segments their bytes form.
pub fn segments(strings: &[StringRef], want: &[usize], share: bool) -> (segs: Vec<Vec<usize>>)
    ensures
        segs@.map_values(|v: Vec<usize>| v@) == segs_of(strings@, want@, share),
{
    let mut segs: Vec<Vec<usize>> = Vec::new();
    let mut i: usize = 0;
    while i < want.len()
        invariant
            i <= want@.len(),
            segs@.map_values(|v: Vec<usize>| v@) == segs_of(strings@, want@.take(i as int), share),
            forall|q: int| 0 <= q < segs@.len() ==> (#[trigger] segs@[q])@.len() > 0,
        decreases want@.len() - i,
    {
        let off = want[i];
        proof {
            assert(want@.take(i + 1).drop_last() =~= want@.take(i as int));
            assert(want@.take(i + 1).last() == off);
        }
        let ghost prev = segs@.map_values(|v: Vec<usize>| v@);
        let joined = if share && segs.len() > 0 {
            let last = &segs[segs.len() - 1];
            ext_exec(strings, last[last.len() - 1]) == off
        } else {
            false
        };
        if joined {
            let mut last = segs.pop().unwrap();
            let ghost lv = last@;
            last.push(off);
            segs.push(last);
            proof {
                assert(segs@.map_values(|v: Vec<usize>| v@) =~= prev.update(prev.len() - 1, lv.push(off)));
            }
        } else {
            let mut seg: Vec<usize> = Vec::new();
            seg.push(off);
            segs.push(seg);
            proof {
                assert(seg@ =~= seq![off]);
                assert(segs@.map_values(|v: Vec<usize>| v@) =~= prev.push(seq![off]));
            }
        }
        i = i + 1;
    }
    proof {
        assert(want@.take(i as int) =~= want@);
    }
    segs
}


/// Some group at `off` has a user that is reference `at`.
pub open spec fn replaced_at(strings: Seq<StringRef>, gs: Seq<Group>, off: usize, at: usize) -> bool {
    exists|j: int, k: int|
        0 <= j < gs.len() && 0 <= k < gs[j].users@.len() && gs[j].offset == off && strings[(#[trigger] gs[j].users@[k]) as int].at
            == at
}

/// Recycling can take these groups: each string gets one text, every
/// reference to a replaced string is replaced, no other string starts inside
/// a replaced one, each text fits the bytes of the string it replaces, and no
/// slot has to name two strings.
pub open spec fn recycle_accepts(strings: Seq<StringRef>, gs: Seq<Group>) -> bool {
    &&& forall|j: int| 0 < j < gs.len() ==> gs[j - 1].offset != (#[trigger] gs[j]).offset
    &&& forall|j: int, i: int|
        0 <= j < gs.len() && 0 <= i < strings.len() && (#[trigger] strings[i]).offset == (#[trigger] gs[j]).offset ==> replaced_at(
            strings,
            gs,
            gs[j].offset,
            strings[i].at,
        )
    &&& forall|j: int, i: int|
        0 <= j < gs.len() && 0 <= i < strings.len() ==> !((#[trigger] gs[j]).offset < (#[trigger] strings[i]).offset
            < ext_of(strings, gs[j].offset))
    &&& forall|j: int| 0 <= j < gs.len() ==> (#[trigger] gs[j]).offset + 2 * gs[j].codes@.len() + 2 <= ext_of(strings, gs[j].offset)
    &&& conflict_views(strings, gs).len() == 0
}

/// `n` halfwords of terminator: what the unused tail of a recycled string
/// reads as, an empty string.
pub open spec fn slack(n: int) -> Seq<u8> {
    Seq::new((2 * n) as nat, |i: int| if i % 2 == 0 { 0xF8u8 } else { 0u8 })
}

/// What a recycled string's bytes become: the new text, then terminators up
/// to the end of the old one.
pub open spec fn refill(codes: Seq<u16>, room: int) -> Seq<u8> {
    string_bytes(codes) + slack((room - 2 * codes.len() - 2) / 2)
}

/// Byte `i` lies in the string group `j` replaces.
pub open spec fn in_run(strings: Seq<StringRef>, gs: Seq<Group>, j: int, i: int) -> bool {
    gs[j].offset <= i < ext_of(strings, gs[j].offset)
}

/// What recycling produces: the file, its length unchanged, with each
/// replaced string's bytes refilled and every user's slot naming it.
pub open spec fn recycle_output(buf: Seq<u8>, strings: Seq<StringRef>, gs: Seq<Group>, out: Seq<u8>) -> bool {
    &&& out.len() == buf.len()
    &&& forall|i: int|
        0 <= i < out.len() && !slot_written(strings, gs, i) && (forall|j: int| 0 <= j < gs.len() ==> !#[trigger] in_run(strings, gs, j, i))
            ==> out[i] == buf[i]
    &&& forall|j: int, i: int|
        0 <= j < gs.len() && #[trigger] in_run(strings, gs, j, i) && !slot_written(strings, gs, i) ==> out[i] == refill(
            gs[j].codes@,
            ext_of(strings, gs[j].offset) - gs[j].offset,
        )[i - gs[j].offset]
    &&& forall|g: int, m: int|
        0 <= g < gs.len() && 0 <= m < gs[g].users@.len() && lone_slot(strings, gs, slot_of(strings, gs[g].users@[m]) as int) ==> spec_u16_at(
            out,
            slot_of(strings, #[trigger] gs[g].users@[m]) as int,
        ) == Some(gs[g].offset as u16)
}

/// Every string lies inside the file and spans whole halfwords.
pub open spec fn runs_fit(strings: Seq<StringRef>, len: int) -> bool {
    forall|i: int| 0 <= i < strings.len() ==> (#[trigger] strings[i]).offset <= strings[i].end <= len && (strings[i].end
        - strings[i].offset) % 2 == 0
}

/// Every user of a group is a reference to the group's string.
pub open spec fn users_at_offset(strings: Seq<StringRef>, gs: Seq<Group>) -> bool {
    forall|g: int, k: int| 0 <= g < gs.len() && 0 <= k < gs[g].users@.len() ==> strings[(#[trigger] gs[g].users@[k]) as int].offset
        == gs[g].offset
}

/// The groups are in strictly increasing key order.
pub open spec fn groups_sorted(gs: Seq<Group>) -> bool {
    forall|i: int, j: int| 0 <= i < j < gs.len() ==> group_before(#[trigger] gs[i], #[trigger] gs[j])
}

fn copy_usizes(v: &[usize]) -> (out: Vec<usize>)
    ensures
        out@ == v@,
{
    let mut out: Vec<usize> = Vec::new();
    let mut k: usize = 0;
    while k < v.len()
        invariant
            k <= v@.len(),
            out@ == v@.take(k as int),
        decreases v@.len() - k,
    {
        out.push(v[k]);
        proof {
            assert(v@.take(k + 1) =~= v@.take(k as int).push(v@[k as int]));
        }
        k = k + 1;
    }
    assert(v@.take(k as int) =~= v@);
    out
}

fn clone_group(g: &Group) -> (c: Group)
    ensures
        c.offset == g.offset,
        c.codes@ == g.codes@,
        c.members@ == g.members@,
        c.users@ == g.users@,
{
    Group {
        offset: g.offset,
        codes: copy_codes(g.codes.as_slice()),
        members: copy_usizes(g.members.as_slice()),
        users: copy_usizes(g.users.as_slice()),
    }
}

/// The warning for a string that shrinks below what command 0x0B18 writes.
pub open spec fn b18_warning(off: usize, was: nat, now: nat) -> Seq<char> {
    "warn 0x"@ + hex(off as nat, 4) + ": was "@ + decimal(was) + " words, now "@ + decimal(now)
        + ". If this is the string command 0x0B18 writes into, it needs 34 and will overrun"@
}

fn b18_line(off: usize, was: usize, now: usize) -> (s: String)
    ensures
        s@ == b18_warning(off, was as nat, now as nat),
{
    let mut out: Vec<char> = Vec::new();
    push_str(&mut out, "warn 0x");
    push_hex(&mut out, off as u64, 4);
    push_str(&mut out, ": was ");
    push_dec(&mut out, was as u64);
    push_str(&mut out, " words, now ");
    push_dec(&mut out, now as u64);
    push_str(&mut out, ". If this is the string command 0x0B18 writes into, it needs 34 and will overrun");
    string_of(out.as_slice())
}


fn replaced_exec(strings: &[StringRef], gs: &[Group], off: usize, at: usize) -> (r: bool)
    requires
        users_in(strings@, gs@),
    ensures
        r == replaced_at(strings@, gs@, off, at),
{
    let mut j: usize = 0;
    while j < gs.len()
        invariant
            j <= gs@.len(),
            users_in(strings@, gs@),
            forall|j2: int, k: int|
                0 <= j2 < j && 0 <= k < gs@[j2].users@.len() && gs@[j2].offset == off ==> strings@[(#[trigger] gs@[j2].users@[k]) as int].at != at,
        decreases gs@.len() - j,
    {
        if gs[j].offset == off {
            let mut k: usize = 0;
            while k < gs[j].users.len()
                invariant
                    j < gs@.len(),
                    k <= gs@[j as int].users@.len(),
                    users_in(strings@, gs@),
                    gs@[j as int].offset == off,
                    forall|k2: int| 0 <= k2 < k ==> strings@[(#[trigger] gs@[j as int].users@[k2]) as int].at != at,
                decreases gs@[j as int].users@.len() - k,
            {
                let u = gs[j].users[k];
                if strings[u].at == at {
                    return true;
                }
                k = k + 1;
            }
        }
        j = j + 1;
    }
    false
}

/// Group `j`'s offset has every reference replaced, and no other string
/// starts inside its bytes.
pub open spec fn offset_clear(strings: Seq<StringRef>, gs: Seq<Group>, j: int) -> bool {
    &&& forall|i: int| 0 <= i < strings.len() && (#[trigger] strings[i]).offset == gs[j].offset ==> replaced_at(
        strings,
        gs,
        gs[j].offset,
        strings[i].at,
    )
    &&& forall|i: int| 0 <= i < strings.len() ==> !(gs[j].offset < (#[trigger] strings[i]).offset < ext_of(strings, gs[j].offset))
}

/// Group `j` is the first with its offset.
pub open spec fn first_at(gs: Seq<Group>, j: int) -> bool {
    j == 0 || gs[j - 1].offset != gs[j].offset
}

/// The references of `strings` to the string at `off`, in order.
pub open spec fn at_offset(strings: Seq<StringRef>, off: usize) -> Seq<StringRef> {
    strings.filter(at_pred(off))
}

/// A reference to the string at `off`.
pub open spec fn at_pred(off: usize) -> spec_fn(StringRef) -> bool {
    |s: StringRef| s.offset == off
}

/// A reference to the string at `off` that no group replaces.
pub open spec fn loose_pred(strings: Seq<StringRef>, gs: Seq<Group>, off: usize) -> spec_fn(StringRef) -> bool {
    |s: StringRef| s.offset == off && !replaced_at(strings, gs, off, s.at)
}

/// A reference to a string starting inside the run at `off`.
pub open spec fn inside_pred(strings: Seq<StringRef>, off: usize) -> spec_fn(StringRef) -> bool {
    |s: StringRef| off < s.offset && s.offset < ext_of(strings, off)
}

/// The references to the string at `off` that no group replaces, in order.
pub open spec fn loose_at(strings: Seq<StringRef>, gs: Seq<Group>, off: usize) -> Seq<StringRef> {
    strings.filter(loose_pred(strings, gs, off))
}

/// The references to strings that start inside the run at `off`, in order.
pub open spec fn inside_run(strings: Seq<StringRef>, off: usize) -> Seq<StringRef> {
    strings.filter(inside_pred(strings, off))
}

/// Why recycling refuses the string at `off`: some of its references are
/// left as they were (keyed by the first of those), and another string
/// starts inside its bytes (keyed by its first reference).
pub open spec fn offset_refusals(strings: Seq<StringRef>, gs: Seq<Group>, off: usize) -> Seq<(Option<(usize, usize)>, Seq<char>)> {
    let loose = loose_at(strings, gs, off);
    let inside = inside_run(strings, off);
    let first_ref = if at_offset(strings, off).len() > 0 { at_offset(strings, off)[0].at } else { 0 };
    (if loose.len() > 0 {
        seq![(Some((loose[0].at, off)), refusal_text(RefusalReason::PartlyReplaced {
            left: loose.len() as usize,
            total: at_offset(strings, off).len() as usize,
            first: loose[0].at,
        }))]
    } else {
        Seq::empty()
    }) + (if inside.len() > 0 {
        seq![(Some((first_ref, off)), refusal_text(RefusalReason::RunsPast { run: off, next: inside[0].offset }))]
    } else {
        Seq::empty()
    })
}

/// A second text for an offset, for groups `1..n`: keyed by the later
/// group's first reference.
pub open spec fn two_texts(strings: Seq<StringRef>, gs: Seq<Group>, n: int) -> Seq<(Option<(usize, usize)>, Seq<char>)>
    decreases n,
{
    if n <= 1 || n > gs.len() {
        Seq::empty()
    } else {
        two_texts(strings, gs, n - 1) + (if gs[n - 2].offset == gs[n - 1].offset {
            seq![(Some((strings[gs[n - 1].users@[0] as int].at, gs[n - 1].offset)), refusal_text(RefusalReason::TwoReplacements))]
        } else {
            Seq::empty()
        })
    }
}

/// The refusals of each offset among groups `0..n`, once per offset.
pub open spec fn offsets_refused(strings: Seq<StringRef>, gs: Seq<Group>, n: int) -> Seq<(Option<(usize, usize)>, Seq<char>)>
    decreases n,
{
    if n <= 0 || n > gs.len() {
        Seq::empty()
    } else {
        offsets_refused(strings, gs, n - 1) + (if first_at(gs, n - 1) {
            offset_refusals(strings, gs, gs[n - 1].offset)
        } else {
            Seq::empty()
        })
    }
}

/// What the screen before recycling refuses, in order: every second text
/// for an offset, then each offset's loose references and overrun.
pub open spec fn screen_refusals(strings: Seq<StringRef>, gs: Seq<Group>) -> Seq<(Option<(usize, usize)>, Seq<char>)> {
    two_texts(strings, gs, gs.len() as int) + offsets_refused(strings, gs, gs.len() as int)
}

/// Group `g`'s text, terminator included, fits the bytes of the string it
/// replaces.
pub open spec fn fits_room(strings: Seq<StringRef>, g: Group) -> bool {
    g.codes@.len() * 2 + 2 <= ext_of(strings, g.offset) - g.offset
}

/// Why group `g`'s text does not fit.
pub open spec fn too_long_why(strings: Seq<StringRef>, g: Group) -> RefusalReason {
    RefusalReason::TooLong {
        segment: false,
        from: g.offset,
        to: ext_of(strings, g.offset),
        room_words: ((ext_of(strings, g.offset) - g.offset) / 2) as usize,
        need_words: ((g.codes@.len() * 2 + 2) / 2) as usize,
    }
}

/// The refusal of reference `s` to group `g`'s string, whose text is too long.
pub open spec fn too_long_ref(strings: Seq<StringRef>, g: Group, s: StringRef) -> (Option<(usize, usize)>, Seq<char>) {
    (Some((s.at, g.offset)), refusal_text(too_long_why(strings, g)))
}

/// The text of group `g` is too long: one refusal per reference to its string.
pub open spec fn too_long_refusals(strings: Seq<StringRef>, g: Group) -> Seq<(Option<(usize, usize)>, Seq<char>)> {
    at_offset(strings, g.offset).map_values(|s: StringRef| too_long_ref(strings, g, s))
}

/// The too-long refusals of groups `0..n`, in order.
pub open spec fn long_refusals(strings: Seq<StringRef>, gs: Seq<Group>, n: int) -> Seq<(Option<(usize, usize)>, Seq<char>)>
    decreases n,
{
    if n <= 0 || n > gs.len() {
        Seq::empty()
    } else {
        long_refusals(strings, gs, n - 1) + (if fits_room(strings, gs[n - 1]) {
            Seq::empty()
        } else {
            too_long_refusals(strings, gs[n - 1])
        })
    }
}

/// The groups whose text fits.
pub open spec fn fitting(strings: Seq<StringRef>, gs: Seq<Group>) -> Seq<Group> {
    gs.filter(fits_pred(strings))
}

/// A group whose text fits.
pub open spec fn fits_pred(strings: Seq<StringRef>) -> spec_fn(Group) -> bool {
    |g: Group| fits_room(strings, g)
}

/// What recycling refuses, in order: the screen's refusals when it refuses
/// anything; else every too-long text, then the slot conflicts among the
/// groups that fit.
pub open spec fn recycle_refusals(strings: Seq<StringRef>, gs: Seq<Group>) -> Seq<(Option<(usize, usize)>, Seq<char>)> {
    if screen_refusals(strings, gs).len() > 0 {
        screen_refusals(strings, gs)
    } else {
        long_refusals(strings, gs, gs.len() as int) + conflict_views(strings, fitting(strings, gs))
    }
}

/// What conflicts depend on of a group: its offset and its references.
pub open spec fn group_keys(gs: Seq<Group>) -> Seq<(usize, Seq<usize>)> {
    gs.map_values(|g: Group| (g.offset, g.users@))
}

proof fn lemma_user_conflicts_keys(strings: Seq<StringRef>, a: Seq<Group>, b: Seq<Group>, offset: usize, us: Seq<usize>)
    requires
        group_keys(a) == group_keys(b),
    ensures
        user_conflicts(strings, a, offset, us) == user_conflicts(strings, b, offset, us),
    decreases us.len(),
{
    if us.len() > 0 {
        lemma_user_conflicts_keys(strings, a, b, offset, us.drop_last());
        let sl = slot_of(strings, us.last());
        assert(a.len() == group_keys(a).len());
        assert forall|i: int| 0 <= i < a.len() implies group_uses(strings, a[i], sl) == group_uses(strings, b[i], sl) by {
            assert(group_keys(a)[i] == group_keys(b)[i]);
            assert(a[i].users@ == b[i].users@);
        }
        if slot_used(strings, a, sl) {
            let i = choose|i: int| 0 <= i < a.len() && #[trigger] group_uses(strings, a[i], sl);
            assert(group_uses(strings, b[i], sl));
        }
        if slot_used(strings, b, sl) {
            let i = choose|i: int| 0 <= i < b.len() && #[trigger] group_uses(strings, b[i], sl);
            assert(group_uses(strings, a[i], sl));
        }
    }
}

/// Conflicts depend on the groups' offsets and references alone.
proof fn lemma_conflicts_keys(strings: Seq<StringRef>, a: Seq<Group>, b: Seq<Group>)
    requires
        group_keys(a) == group_keys(b),
    ensures
        conflict_views(strings, a) == conflict_views(strings, b),
    decreases a.len(),
{
    assert(a.len() == group_keys(a).len() && b.len() == group_keys(b).len());
    if a.len() > 0 {
        assert forall|i: int| 0 <= i < a.len() - 1 implies group_keys(a.drop_last())[i] == group_keys(b.drop_last())[i] by {
            assert(group_keys(a)[i] == group_keys(b)[i]);
            assert(a.drop_last()[i] == a[i] && b.drop_last()[i] == b[i]);
        }
        assert(group_keys(a.drop_last()) =~= group_keys(b.drop_last()));
        lemma_conflicts_keys(strings, a.drop_last(), b.drop_last());
        assert(group_keys(a)[a.len() - 1] == group_keys(b)[b.len() - 1]);
        lemma_user_conflicts_keys(strings, a.drop_last(), b.drop_last(), a.last().offset, a.last().users@);
    }
}

/// The references to `off`: how many, how many are left unreplaced, the
/// first of those, and the first reference at all.
fn count_loose(strings: &[StringRef], gs: &[Group], off: usize) -> (r: (usize, usize, usize, usize))
    requires
        users_in(strings@, gs@),
    ensures
        r.0 == loose_at(strings@, gs@, off).len(),
        r.1 == at_offset(strings@, off).len(),
        r.0 > 0 ==> r.2 == loose_at(strings@, gs@, off)[0].at,
        r.1 > 0 ==> r.3 == at_offset(strings@, off)[0].at,
{
    let ghost lp = loose_pred(strings@, gs@, off);
    let ghost ap = at_pred(off);
    let mut total: usize = 0;
    let mut left: usize = 0;
    let mut first: usize = 0;
    let mut first_ref: usize = 0;
    let mut i: usize = 0;
    proof {
        assert(strings@.take(0) =~= Seq::<StringRef>::empty());
    }
    while i < strings.len()
        invariant
            i <= strings@.len(),
            users_in(strings@, gs@),
            lp == loose_pred(strings@, gs@, off),
            ap == at_pred(off),
            left == strings@.take(i as int).filter(lp).len(),
            total == strings@.take(i as int).filter(ap).len(),
            left > 0 ==> first == strings@.take(i as int).filter(lp)[0].at,
            total > 0 ==> first_ref == strings@.take(i as int).filter(ap)[0].at,
            total <= i,
            left <= i,
        decreases strings@.len() - i,
    {
        let ghost pre = strings@.take(i as int);
        proof {
            assert(strings@.take(i + 1) =~= pre.push(strings@[i as int]));
            pre.lemma_filter_push(strings@[i as int], lp);
            pre.lemma_filter_push(strings@[i as int], ap);
        }
        if strings[i].offset == off {
            if total == 0 {
                first_ref = strings[i].at;
            }
            total = total + 1;
            if !replaced_exec(strings, gs, off, strings[i].at) {
                if left == 0 {
                    first = strings[i].at;
                }
                left = left + 1;
            }
        }
        i = i + 1;
    }
    proof {
        assert(strings@.take(strings@.len() as int) =~= strings@);
    }
    (left, total, first, first_ref)
}

/// The offset of the first string that starts inside the run at `off`.
fn first_inside(strings: &[StringRef], off: usize) -> (r: Option<usize>)
    ensures
        r is None <==> inside_run(strings@, off).len() == 0,
        r matches Some(n) ==> n == inside_run(strings@, off)[0].offset,
{
    let top = ext_exec(strings, off);
    let ghost ip = inside_pred(strings@, off);
    let mut i: usize = 0;
    proof {
        assert(strings@.take(0) =~= Seq::<StringRef>::empty());
    }
    while i < strings.len()
        invariant
            i <= strings@.len(),
            top == ext_of(strings@, off),
            ip == inside_pred(strings@, off),
            strings@.take(i as int).filter(ip).len() == 0,
        decreases strings@.len() - i,
    {
        let ghost pre = strings@.take(i as int);
        proof {
            assert(strings@.take(i + 1) =~= pre.push(strings@[i as int]));
            pre.lemma_filter_push(strings@[i as int], ip);
            assert(pre.filter(ip) =~= Seq::<StringRef>::empty());
        }
        if off < strings[i].offset && strings[i].offset < top {
            proof {
                let rest = strings@.skip(i + 1);
                assert(strings@ =~= strings@.take(i + 1) + rest);
                Seq::filter_distributes_over_add(strings@.take(i + 1), rest, ip);
                assert(ip(strings@[i as int]));
                assert(pre.filter(ip).push(strings@[i as int]) =~= seq![strings@[i as int]]);
                assert(strings@.take(i + 1).filter(ip) =~= seq![strings@[i as int]]);
            }
            return Some(strings[i].offset);
        }
        i = i + 1;
    }
    proof {
        assert(strings@.take(strings@.len() as int) =~= strings@);
    }
    None
}

/// A filter is empty exactly when nothing passes it.
proof fn lemma_filter_none<A>(s: Seq<A>, p: spec_fn(A) -> bool)
    ensures
        s.filter(p).len() == 0 <==> forall|i: int| 0 <= i < s.len() ==> !p(#[trigger] s[i]),
    decreases s.len(),
{
    if s.len() > 0 {
        let d = s.drop_last();
        lemma_filter_none(d, p);
        assert(s =~= d.push(s.last()));
        d.lemma_filter_push(s.last(), p);
        if s.filter(p).len() == 0 {
            assert forall|i: int| 0 <= i < s.len() implies !p(#[trigger] s[i]) by {
                if i < d.len() {
                    assert(s[i] == d[i]);
                }
            }
        }
        if forall|i: int| 0 <= i < s.len() ==> !p(#[trigger] s[i]) {
            assert(!p(s[s.len() - 1]));
            assert forall|i: int| 0 <= i < d.len() implies !p(#[trigger] d[i]) by {
                assert(s[i] == d[i]);
            }
        }
    }
}

/// Refuse a second text for one offset, a string some of whose references
/// are left as they were, and a string whose bytes run into another's.
fn recycle_screen(strings: &[StringRef], gs: &[Group]) -> (errs: Vec<Refusal>)
    requires
        users_in(strings@, gs@),
        groups_nonempty(gs@),
        users_at_offset(strings@, gs@),
    ensures
        errs@.len() == 0 <==> (forall|j: int| 0 < j < gs@.len() ==> gs@[j - 1].offset != (#[trigger] gs@[j]).offset)
            && (forall|j: int| 0 <= j < gs@.len() ==> #[trigger] offset_clear(strings@, gs@, j)),
        refusal_views(errs@) == screen_refusals(strings@, gs@),
{
    let mut errs: Vec<Refusal> = Vec::new();
    let mut j: usize = 1;
    proof {
        assert(refusal_views(errs@) =~= two_texts(strings@, gs@, 1));
    }
    while j < gs.len()
        invariant
            1 <= j,
            j <= gs@.len() || gs@.len() == 0,
            users_in(strings@, gs@),
            groups_nonempty(gs@),
            errs@.len() == 0 <==> (forall|q: int| 0 < q < j && q < gs@.len() ==> gs@[q - 1].offset != (#[trigger] gs@[q]).offset),
            refusal_views(errs@) == two_texts(strings@, gs@, j as int),
        decreases gs@.len() - j,
    {
        let ghost before = refusal_views(errs@);
        if gs[j - 1].offset == gs[j].offset {
            let u = gs[j].users[0];
            proof {
                assert(gs@[j as int].users@.len() > 0);
                assert(u < strings@.len());
            }
            let x = Refusal { key: Some((strings[u].at, gs[j].offset)), why: RefusalReason::TwoReplacements };
            errs.push(x);
            proof {
                assert(refusal_views(errs@) =~= before.push(refusal_view(x)));
                assert(before.push(refusal_view(x)) =~= before + seq![refusal_view(x)]);
            }
        } else {
            proof {
                assert(before =~= before + Seq::<(Option<(usize, usize)>, Seq<char>)>::empty());
            }
        }
        j = j + 1;
    }
    let ghost two = errs@.len();
    let ghost tv = refusal_views(errs@);
    proof {
        if gs@.len() == 0 {
            assert(two_texts(strings@, gs@, 1) == two_texts(strings@, gs@, 0));
        }
        assert(tv == two_texts(strings@, gs@, gs@.len() as int));
        assert(tv + offsets_refused(strings@, gs@, 0) =~= tv);
    }
    let mut j: usize = 0;
    while j < gs.len()
        invariant
            j <= gs@.len(),
            users_in(strings@, gs@),
            groups_nonempty(gs@),
            users_at_offset(strings@, gs@),
            errs@.len() >= two,
            errs@.len() == two <==> (forall|q: int| 0 <= q < j ==> first_at(gs@, q) ==> #[trigger] offset_clear(strings@, gs@, q)),
            refusal_views(errs@) == tv + offsets_refused(strings@, gs@, j as int),
        decreases gs@.len() - j,
    {
        let ghost before = refusal_views(errs@);
        if j == 0 || gs[j - 1].offset != gs[j].offset {
            let off = gs[j].offset;
            let ghost n0 = errs@.len();
            let (left, total, first, first_ref) = count_loose(strings, gs, off);
            proof {
                lemma_filter_none(strings@, loose_pred(strings@, gs@, off));
                lemma_filter_none(strings@, inside_pred(strings@, off));
                let u = gs@[j as int].users@[0];
                assert(strings@[u as int].offset == off);
                lemma_filter_none(strings@, at_pred(off));
                assert(at_pred(off)(strings@[u as int]));
                assert(total > 0);
            }
            let mut x1: Option<Refusal> = None;
            if left > 0 {
                let x = Refusal { key: Some((first, off)), why: RefusalReason::PartlyReplaced { left, total, first } };
                x1 = Some(Refusal { key: x.key, why: clone_reason(&x.why) });
                errs.push(x);
            }
            let ghost mid = refusal_views(errs@);
            match first_inside(strings, off) {
                Some(next) => {
                    let x = Refusal { key: Some((first_ref, off)), why: RefusalReason::RunsPast { run: off, next } };
                    errs.push(x);
                    proof {
                        assert(refusal_views(errs@) =~= mid.push(refusal_view(x)));
                    }
                },
                None => {},
            }
            proof {
                assert(refusal_views(errs@) =~= before + offset_refusals(strings@, gs@, off));
                assert((errs@.len() == n0) == offset_clear(strings@, gs@, j as int));
            }
        } else {
            proof {
                assert(before =~= before + Seq::<(Option<(usize, usize)>, Seq<char>)>::empty());
            }
        }
        j = j + 1;
    }
    proof {
        if errs@.len() == 0 {
            assert forall|q: int| 0 <= q < gs@.len() implies #[trigger] offset_clear(strings@, gs@, q) by {
                if q > 0 {
                    assert(gs@[q - 1].offset != gs@[q].offset);
                }
                assert(first_at(gs@, q));
            }
        }
        if (forall|q: int| 0 < q < gs@.len() ==> gs@[q - 1].offset != (#[trigger] gs@[q]).offset) && (forall|q: int|
            0 <= q < gs@.len() ==> #[trigger] offset_clear(strings@, gs@, q)) {
            assert(errs@.len() == two);
        }
    }
    errs
}

/// Overwrite `[off, top)` with `codes`, its terminator, and terminators for
/// the rest.
fn write_run(out: &mut Vec<u8>, off: usize, top: usize, codes: &[u16])
    requires
        off + 2 * codes@.len() + 2 <= top <= old(out)@.len(),
        (top - off) % 2 == 0,
    ensures
        final(out)@.len() == old(out)@.len(),
        forall|i: int| 0 <= i < old(out)@.len() && !(off <= i < top) ==> final(out)@[i] == old(out)@[i],
        forall|i: int| off <= i < top ==> final(out)@[i] == refill(codes@, top - off)[i - off],
{
    let bytes = codes_to_bytes(codes);
    let ghost start = out@;
    let ghost want = refill(codes@, top - off);
    proof {
        lemma_string_bytes_len(codes@);
        assert(want.len() == top - off);
    }
    let mut t: usize = 0;
    while t < bytes.len()
        invariant
            t <= bytes@.len(),
            bytes@ == string_bytes(codes@),
            bytes@.len() == 2 * codes@.len() + 2,
            off + bytes@.len() <= top <= start.len(),
            want == refill(codes@, top - off),
            want.len() == top - off,
            out@.len() == start.len(),
            forall|i: int| 0 <= i < start.len() && !(off <= i < off + t) ==> out@[i] == start[i],
            forall|i: int| off <= i < off + t ==> out@[i] == want[i - off],
        decreases bytes@.len() - t,
    {
        out.set(off + t, bytes[t]);
        t = t + 1;
    }
    let mut cur: usize = off + bytes.len();
    while cur < top
        invariant
            off + bytes@.len() <= cur <= top <= start.len(),
            (cur - off) % 2 == 0,
            (top - off) % 2 == 0,
            bytes@.len() == 2 * codes@.len() + 2,
            want == refill(codes@, top - off),
            want.len() == top - off,
            out@.len() == start.len(),
            forall|i: int| 0 <= i < start.len() && !(off <= i < cur) ==> out@[i] == start[i],
            forall|i: int| off <= i < cur ==> out@[i] == want[i - off],
        decreases top - cur,
    {
        out.set(cur, 0xF8u8);
        out.set(cur + 1, 0u8);
        proof {
            let n = bytes@.len() as int;
            assert(want[cur - off] == slack((top - off - n) / 2)[cur - off - n]);
            assert(want[cur + 1 - off] == slack((top - off - n) / 2)[cur + 1 - off - n]);
        }
        cur = cur + 2;
    }
}

proof fn lemma_recycle_output(
    buf: Seq<u8>,
    strs: Seq<StringRef>,
    gsv: Seq<Group>,
    starts: Seq<usize>,
    es: Seq<(usize, usize)>,
    written: Seq<u8>,
    out: Seq<u8>,
)
    requires
        slots_inv(strs, gsv, starts, es, gsv.len() as int, 0),
        conflict_views(strs, gsv).len() == 0,
        starts.len() == gsv.len(),
        forall|q: int| 0 <= q < gsv.len() ==> starts[q] == gsv[q].offset,
        written.len() == buf.len(),
        forall|i: int| 0 <= i < written.len() && (forall|q: int| 0 <= q < gsv.len() ==> !#[trigger] in_run(strs, gsv, q, i)) ==> written[i] == buf[i],
        forall|q: int, i: int| 0 <= q < gsv.len() && #[trigger] in_run(strs, gsv, q, i) ==> written[i] == refill(
            gsv[q].codes@,
            ext_of(strs, gsv[q].offset) - gsv[q].offset,
        )[i - gsv[q].offset],
        out.len() == written.len(),
        forall|q: int| 0 <= q < gsv.len() ==> ext_of(strs, (#[trigger] gsv[q]).offset) <= buf.len(),
        forall|i: int| 0 <= i < written.len() && !covered(es, i) ==> out[i] == written[i],
        forall|a: int| 0 <= a < es.len() && lone(es, a) ==> spec_u16_at(out, (#[trigger] es[a]).0 as int) == Some(es[a].1 as u16),
    ensures
        recycle_output(buf, strs, gsv, out),
{
    let n = gsv.len() as int;
    assert forall|a: int| 0 <= a < es.len() implies exists|g: int, m: int|
        0 <= g < gsv.len() && 0 <= m < gsv[g].users@.len() && #[trigger] es[a].0 == slot_of(strs, gsv[g].users@[m]) by {
        assert(entry_ok(strs, gsv, starts, es[a], n));
        let g = choose|g: int| 0 <= g <= n && #[trigger] first_use(strs, gsv, es[a].0, g) && es[a].1 == starts[g];
        let m = choose|m: int| 0 <= m < gsv[g].users@.len() && slot_of(strs, gsv[g].users@[m]) == es[a].0;
    }
    assert forall|i: int| 0 <= i < out.len() && !slot_written(strs, gsv, i) implies !covered(es, i) by {
        if covered(es, i) {
            let a = choose|a: int| 0 <= a < es.len() && (#[trigger] es[a]).0 <= i < es[a].0 + 2;
            let (g, m) = choose|g: int, m: int|
                0 <= g < gsv.len() && 0 <= m < gsv[g].users@.len() && #[trigger] es[a].0 == slot_of(strs, gsv[g].users@[m]);
            assert(slot_of(strs, gsv[g].users@[m]) <= i < slot_of(strs, gsv[g].users@[m]) + 2);
        }
    }
    assert forall|i: int|
        0 <= i < out.len() && !slot_written(strs, gsv, i) && (forall|j: int| 0 <= j < gsv.len() ==> !#[trigger] in_run(strs, gsv, j, i))
            implies out[i] == buf[i] by {
        assert(!covered(es, i));
    }
    assert forall|j: int, i: int|
        0 <= j < gsv.len() && #[trigger] in_run(strs, gsv, j, i) && !slot_written(strs, gsv, i) implies out[i] == refill(
            gsv[j].codes@,
            ext_of(strs, gsv[j].offset) - gsv[j].offset,
        )[i - gsv[j].offset] by {
        assert(!covered(es, i));
    }
    assert forall|g: int, m: int|
        0 <= g < gsv.len() && 0 <= m < gsv[g].users@.len() && lone_slot(strs, gsv, slot_of(strs, gsv[g].users@[m]) as int) implies spec_u16_at(
        out,
        slot_of(strs, #[trigger] gsv[g].users@[m]) as int,
    ) == Some(gsv[g].offset as u16) by {
        let sl = slot_of(strs, gsv[g].users@[m]);
        assert(gsv.take(n)[g] == gsv[g]);
        assert(gsv.take(n) =~= gsv);
        assert(has_slot(es, sl));
        let a = choose|a: int| 0 <= a < es.len() && #[trigger] es[a].0 == sl;
        assert(lone(es, a)) by {
            assert forall|b: int| 0 <= b < es.len() && b != a implies (#[trigger] es[b]).0 + 2 <= es[a].0 || es[a].0 + 2 <= es[b].0 by {
                let (g2, m2) = choose|g2: int, m2: int|
                    0 <= g2 < gsv.len() && 0 <= m2 < gsv[g2].users@.len() && #[trigger] es[b].0 == slot_of(strs, gsv[g2].users@[m2]);
                assert(slot_of(strs, gsv[g2].users@[m2]) == sl || slot_of(strs, gsv[g2].users@[m2]) + 2 <= sl || sl + 2 <= slot_of(strs, gsv[g2].users@[m2]));
            }
        }
        assert(entry_ok(strs, gsv, starts, es[a], n));
        let g0 = choose|g0: int| 0 <= g0 <= n && #[trigger] first_use(strs, gsv, es[a].0, g0) && es[a].1 == starts[g0];
        lemma_no_conflicts(strs, gsv, g, m);
        if g0 < g {
            assert(!group_uses(strs, gsv[g0], sl));
        } else if g < g0 {
            assert(group_uses(strs, gsv[g], sl));
        }
        assert(g0 == g);
    }
}

/// Rewrite in place, reusing only the bytes the replaced Japanese occupies:
/// the file neither grows nor moves, and the archives are untouched.
#[verifier::spinoff_prover]
#[verifier::rlimit(40)]
fn recycle(buf: &[u8], p: &Plan, gs: &[Group]) -> (r: Result<Packed, Vec<Refusal>>)
    requires
        users_in(p.strings@, gs@),
        users_have_slots(p.strings@, gs@),
        slots_in(p.strings@, gs@, buf@.len() as int),
        codes_capped(gs@),
        groups_nonempty(gs@),
        groups_sorted(gs@),
        users_at_offset(p.strings@, gs@),
        runs_fit(p.strings@, buf@.len() as int),
    ensures
        r is Ok <==> recycle_accepts(p.strings@, gs@),
        r matches Ok(pk) ==> recycle_output(buf@, p.strings@, gs@, pk.bytes@),
        r matches Err(e) ==> e@.len() > 0,
        r matches Err(e) ==> refusal_views(e@) == recycle_refusals(p.strings@, gs@),
{
    let strings = p.strings.as_slice();
    let errs0 = recycle_screen(strings, gs);
    if errs0.len() > 0 {
        return Err(errs0);
    }
    proof {
        assert(refusal_views(errs0@).len() == 0);
    }
    let ghost gsv = gs@;
    // one group per offset, in increasing offset order
    proof {
        assert forall|i: int, j: int| 0 <= i < j < gsv.len() implies gsv[i].offset < gsv[j].offset by {
            assert(group_before(gsv[j - 1], gsv[j]));
            if i < j - 1 {
                assert(group_before(gsv[i], gsv[j - 1]));
            }
        }
    }
    let mut want: Vec<usize> = Vec::new();
    let mut j: usize = 0;
    while j < gs.len()
        invariant
            j <= gsv.len(),
            gsv == gs@,
            want@.len() == j,
            forall|q: int| 0 <= q < j ==> want@[q] == gsv[q].offset,
        decreases gsv.len() - j,
    {
        want.push(gs[j].offset);
        j = j + 1;
    }
    let segs = segments(strings, want.as_slice(), false);
    proof {
        lemma_segs_unshared(strings@, want@);
        assert(segs@.map_values(|v: Vec<usize>| v@).len() == segs@.len());
        assert(want@.map_values(|o: usize| seq![o]).len() == want@.len());
        assert(segs@.len() == gsv.len());
    }
    let mut out: Vec<u8> = Vec::new();
    append_range(&mut out, buf, 0, buf.len());
    proof {
        assert(buf@.subrange(0, buf@.len() as int) =~= buf@);
    }
    let mut errs: Vec<Refusal> = Vec::new();
    let mut placements: Vec<String> = Vec::new();
    let mut placed: Vec<Group> = Vec::new();
    let mut starts: Vec<usize> = Vec::new();
    let mut any_long = false;
    let mut j: usize = 0;
    let ghost fp = fits_pred(p.strings@);
    proof {
        assert(gsv.take(0) =~= Seq::<Group>::empty());
        assert(fitting(p.strings@, gsv.take(0)) =~= Seq::<Group>::empty());
        assert(group_keys(placed@) =~= group_keys(fitting(p.strings@, gsv.take(0))));
        assert(refusal_views(errs@) =~= long_refusals(p.strings@, gsv, 0));
    }
    while j < segs.len()
        invariant
            fp == fits_pred(p.strings@),
            refusal_views(errs@) == long_refusals(p.strings@, gsv, j as int),
            group_keys(placed@) == group_keys(fitting(p.strings@, gsv.take(j as int))),
            !any_long ==> fitting(p.strings@, gsv.take(j as int)) == gsv.take(j as int),
            j <= gsv.len(),
            gsv == gs@,
            segs@.len() == gsv.len(),
            segs@.map_values(|v: Vec<usize>| v@) == want@.map_values(|o: usize| seq![o]),
            want@.len() == gsv.len(),
            forall|q: int| 0 <= q < gsv.len() ==> want@[q] == gsv[q].offset,
            forall|i: int, q: int| 0 <= i < q < gsv.len() ==> gsv[i].offset < gsv[q].offset,
            forall|q: int| 0 <= q < gsv.len() ==> #[trigger] offset_clear(p.strings@, gsv, q),
            users_in(p.strings@, gsv),
            users_have_slots(p.strings@, gsv),
            users_at_offset(p.strings@, gsv),
            groups_nonempty(gsv),
            codes_capped(gsv),
            runs_fit(p.strings@, buf@.len() as int),
            out@.len() == buf@.len(),
            !any_long <==> (forall|q: int| 0 <= q < j ==> (#[trigger] gsv[q]).offset + 2 * gsv[q].codes@.len() + 2 <= ext_of(p.strings@, gsv[q].offset)),
            any_long ==> errs@.len() > 0,
            !any_long ==> starts@.len() == j && forall|q: int| 0 <= q < j ==> starts@[q] == gsv[q].offset,
            !any_long ==> forall|i: int| 0 <= i < out@.len() && (forall|q: int| 0 <= q < j ==> !#[trigger] in_run(p.strings@, gsv, q, i)) ==> out@[i] == buf@[i],
            !any_long ==> forall|q: int, i: int| 0 <= q < j && #[trigger] in_run(p.strings@, gsv, q, i) ==> out@[i] == refill(
                gsv[q].codes@,
                ext_of(p.strings@, gsv[q].offset) - gsv[q].offset,
            )[i - gsv[q].offset],
            starts@.len() == placed@.len(),
            forall|q: int| 0 <= q < starts@.len() ==> starts@[q] == (#[trigger] placed@[q]).offset,
            forall|a: int, b: int| 0 <= a < b < starts@.len() ==> starts@[a] < starts@[b],
            forall|q: int| 0 <= q < starts@.len() ==> j > 0 && starts@[q] <= gsv[j - 1].offset,
            users_in(p.strings@, placed@),
            users_have_slots(p.strings@, placed@),
            strings@ == p.strings@,
            !any_long ==> errs@.len() == 0,
        decreases gsv.len() - j,
    {
        let seg = &segs[j];
        proof {
            assert(segs@.map_values(|v: Vec<usize>| v@)[j as int] == seq![want@[j as int]]);
            assert(seg@ == seq![gsv[j as int].offset]);
        }
        let g = &gs[j];
        let off = seg[0];
        let top = ext_exec(strings, off);
        proof {
            let u = g.users@[0];
            assert(p.strings@[u as int].offset == off);
            lemma_last_at(p.strings@, off, p.strings@.len() as int);
            assert(last_at(p.strings@, off, p.strings@.len() as int) is Some);
            let li = last_at(p.strings@, off, p.strings@.len() as int).unwrap();
            assert(p.strings@[li].offset == off);
            assert(top == p.strings@[li].end);
            assert(off <= top <= buf@.len());
            assert((top - off) % 2 == 0);
        }
        let room = top - off;
        let need = g.codes.len() * 2 + 2;
        let ghost base = refusal_views(errs@);
        proof {
            assert(gsv.take(j + 1) =~= gsv.take(j as int).push(gsv[j as int]));
            gsv.take(j as int).lemma_filter_push(gsv[j as int], fp);
            assert(fp(gsv[j as int]) == (need <= room));
        }
        if need > room {
            let why = RefusalReason::TooLong {
                segment: seg.len() > 1,
                from: off,
                to: top,
                room_words: room / 2,
                need_words: need / 2,
            };
            let ghost g_j = gsv[j as int];
            proof {
                assert(refusal_text(why) == refusal_text(too_long_why(p.strings@, g_j)));
                assert(strings@.take(0) =~= Seq::<StringRef>::empty());
                assert(base + at_offset(strings@.take(0), off).map_values(|s: StringRef| too_long_ref(p.strings@, g_j, s)) =~= base);
            }
            let mut i: usize = 0;
            while i < strings.len()
                invariant
                    i <= strings@.len(),
                    strings@ == p.strings@,
                    off == g_j.offset,
                    refusal_text(why) == refusal_text(too_long_why(p.strings@, g_j)),
                    refusal_views(errs@) == base + at_offset(strings@.take(i as int), off).map_values(
                        |s: StringRef| too_long_ref(p.strings@, g_j, s),
                    ),
                decreases strings@.len() - i,
            {
                let ghost pre = strings@.take(i as int);
                let ghost v0 = refusal_views(errs@);
                proof {
                    assert(strings@.take(i + 1) =~= pre.push(strings@[i as int]));
                    pre.lemma_filter_push(strings@[i as int], at_pred(off));
                }
                if strings[i].offset == off {
                    let x = Refusal { key: Some((strings[i].at, off)), why: clone_reason(&why) };
                    errs.push(x);
                    proof {
                        assert(refusal_views(errs@) =~= v0.push(refusal_view(x)));
                        assert(refusal_view(x) == too_long_ref(p.strings@, g_j, strings@[i as int]));
                        assert(pre.filter(at_pred(off)).push(strings@[i as int]).map_values(|s: StringRef| too_long_ref(p.strings@, g_j, s))
                            =~= pre.filter(at_pred(off)).map_values(|s: StringRef| too_long_ref(p.strings@, g_j, s)).push(
                            too_long_ref(p.strings@, g_j, strings@[i as int])));
                    }
                }
                i = i + 1;
            }
            proof {
                // the group's own users are references to this string
                let u = g.users@[0];
                assert(p.strings@[u as int].offset == off);
                assert(strings@.take(strings@.len() as int) =~= strings@);
                lemma_filter_none(p.strings@, at_pred(off));
                assert(at_pred(off)(p.strings@[u as int]));
                assert(refusal_views(errs@) == base + too_long_refusals(p.strings@, g_j));
                assert(errs@.len() == refusal_views(errs@).len());
            }
            if errs.len() == 0 {
                // every group has a user, so a reference to `off` exists
                errs.push(Refusal { key: None, why: clone_reason(&why) });
            }
            any_long = true;
        } else {
            let ghost before = out@;
            write_run(&mut out, off, top, g.codes.as_slice());
            let was = words_at(buf, off);
            if was >= B18_WORDS && g.codes.len() + 1 < B18_WORDS {
                placements.push(b18_line(off, was, g.codes.len() + 1));
            }
            let mut total: usize = 0;
            let mut i: usize = 0;
            while i < strings.len()
                invariant
                    i <= strings@.len(),
                    total <= i,
                decreases strings@.len() - i,
            {
                if strings[i].offset == off {
                    total = total + 1;
                }
                i = i + 1;
            }
            placements.push(placement_line(off, off, was, g.codes.len() + 1, total));
            proof {
                if !any_long {
                    assert forall|i: int| 0 <= i < out@.len() && (forall|q: int| 0 <= q < j + 1 ==> !#[trigger] in_run(p.strings@, gsv, q, i)) implies out@[i] == buf@[i] by {
                        assert(!in_run(p.strings@, gsv, j as int, i));
                        assert(forall|q: int| 0 <= q < j ==> !#[trigger] in_run(p.strings@, gsv, q, i));
                    }
                    assert forall|q: int, i: int| 0 <= q < j + 1 && #[trigger] in_run(p.strings@, gsv, q, i) implies out@[i] == refill(
                        gsv[q].codes@,
                        ext_of(p.strings@, gsv[q].offset) - gsv[q].offset,
                    )[i - gsv[q].offset] by {
                        if q < j {
                            // runs of different offsets are disjoint
                            assert(offset_clear(p.strings@, gsv, q));
                            assert(offset_clear(p.strings@, gsv, j as int));
                            let u = gsv[j as int].users@[0];
                            assert(p.strings@[u as int].offset == gsv[j as int].offset);
                            assert(!(gsv[q].offset < p.strings@[u as int].offset < ext_of(p.strings@, gsv[q].offset)));
                            assert(!(off <= i < top));
                        }
                    }
                }
            }
            let c = clone_group(g);
            proof {
                assert forall|a: int| 0 <= a < starts@.len() implies starts@[a] < off by {
                    assert(starts@[a] <= gsv[j - 1].offset);
                }
            }
            placed.push(c);
            starts.push(off);
            proof {
                assert forall|q: int, k: int| 0 <= q < placed@.len() && 0 <= k < placed@[q].users@.len() implies (#[trigger] placed@[q].users@[k]) < p.strings@.len() by {
                    if q == placed@.len() - 1 {
                        assert(placed@[q].users@[k] == gsv[j as int].users@[k]);
                    }
                }
                assert forall|q: int, k: int| 0 <= q < placed@.len() && 0 <= k < placed@[q].users@.len() implies (#[trigger] p.strings@[placed@[q].users@[k] as int]).slot is Some by {
                    if q == placed@.len() - 1 {
                        assert(placed@[q].users@[k] == gsv[j as int].users@[k]);
                    }
                }
            }
        }
        proof {
            let pre = gsv.take(j as int);
            assert(long_refusals(p.strings@, gsv, j + 1) == long_refusals(p.strings@, gsv, j as int) + (if fits_room(p.strings@, gsv[j as int]) {
                Seq::<(Option<(usize, usize)>, Seq<char>)>::empty()
            } else {
                too_long_refusals(p.strings@, gsv[j as int])
            }));
            if need <= room {
                assert(refusal_views(errs@) =~= long_refusals(p.strings@, gsv, j as int) + Seq::<(Option<(usize, usize)>, Seq<char>)>::empty());
                assert(placed@.last().offset == gsv[j as int].offset && placed@.last().users@ == gsv[j as int].users@);
                assert(group_keys(placed@) =~= group_keys(fitting(p.strings@, pre)).push((gsv[j as int].offset, gsv[j as int].users@)));
                assert(group_keys(fitting(p.strings@, pre).push(gsv[j as int])) =~= group_keys(fitting(p.strings@, pre)).push((
                    gsv[j as int].offset,
                    gsv[j as int].users@,
                )));
            }
        }
        j = j + 1;
    }
    // the slots of the strings that were written
    let n = placed.len();
    let (entries, cerrs) = if !any_long {
        slotmap(strings, gs, starts.as_slice(), n)
    } else {
        slotmap(strings, placed.as_slice(), starts.as_slice(), n)
    };
    let mut c: usize = 0;
    let ghost e0 = errs@.len();
    let ghost lv = refusal_views(errs@);
    proof {
        assert(gsv.take(gsv.len() as int) =~= gsv);
        assert(placed@.take(placed@.len() as int) =~= placed@);
        assert(refusal_views(cerrs@) == conflict_views(p.strings@, fitting(p.strings@, gsv))) by {
            if !any_long {
                assert(gsv.take(n as int) =~= gsv);
            } else {
                lemma_conflicts_keys(p.strings@, placed@, fitting(p.strings@, gsv));
            }
        }
        assert(lv + refusal_views(cerrs@).take(0) =~= lv);
    }
    while c < cerrs.len()
        invariant
            c <= cerrs@.len(),
            errs@.len() == e0 + c,
            refusal_views(errs@) == lv + refusal_views(cerrs@).take(c as int),
        decreases cerrs@.len() - c,
    {
        let ghost v0 = refusal_views(errs@);
        let x = Refusal { key: cerrs[c].key, why: clone_reason(&cerrs[c].why) };
        errs.push(x);
        proof {
            assert(refusal_views(errs@) =~= v0.push(refusal_view(x)));
            assert(refusal_view(x) == refusal_views(cerrs@)[c as int]);
            assert(refusal_views(cerrs@).take(c + 1) =~= refusal_views(cerrs@).take(c as int).push(refusal_views(cerrs@)[c as int]));
        }
        c = c + 1;
    }
    proof {
        assert(refusal_views(cerrs@).take(cerrs@.len() as int) =~= refusal_views(cerrs@));
        assert(screen_refusals(p.strings@, gsv).len() == 0);
    }
    if errs.len() > 0 {
        proof {
            if !any_long {
                assert(gsv.take(n as int) =~= gsv);
                assert(refusal_views(cerrs@).len() == cerrs@.len());
                assert(cerrs@.len() > 0);
            }
        }
        return Err(errs);
    }
    proof {
        assert(!any_long);
        assert(n == gsv.len());
        assert(gsv.take(n as int) =~= gsv);
        assert(refusal_views(cerrs@).len() == cerrs@.len());
    }
    let ghost written = out@;
    proof {
        assert forall|a: int| 0 <= a < entries@.len() implies (#[trigger] entries@[a]).0 + 2 <= written.len() by {
            assert(entry_ok(p.strings@, gsv, starts@, entries@[a], n as int));
            let g = choose|g: int| 0 <= g <= n && #[trigger] first_use(p.strings@, gsv, entries@[a].0, g)
                && entries@[a].1 == starts@[g];
            let m = choose|m: int| 0 <= m < gsv[g].users@.len() && slot_of(p.strings@, gsv[g].users@[m]) == entries@[a].0;
            assert(slot_of(p.strings@, gsv[g].users@[m]) + 2 <= buf@.len());
            assert(p.strings@[gsv[g].users@[m] as int].offset == gsv[g].offset);
            let u = gsv[g].users@[m];
            assert(p.strings@[u as int].offset <= p.strings@[u as int].end <= buf@.len());
            assert(p.strings@[u as int].offset < 0x10000 || true);
        }
    }
    apply_slots(&mut out, entries.as_slice());
    proof {
        assert forall|q: int| 0 <= q < gsv.len() implies ext_of(p.strings@, (#[trigger] gsv[q]).offset) <= buf@.len() by {
            let u = gsv[q].users@[0];
            assert(p.strings@[u as int].offset == gsv[q].offset);
            lemma_last_at(p.strings@, gsv[q].offset, p.strings@.len() as int);
            let li = last_at(p.strings@, gsv[q].offset, p.strings@.len() as int).unwrap();
            assert(p.strings@[li].offset <= p.strings@[li].end <= buf@.len());
        }
        lemma_recycle_output(buf@, p.strings@, gsv, starts@, entries@, written, out@);
        assert forall|q: int, i: int|
            0 <= q < gsv.len() && 0 <= i < p.strings@.len() && (#[trigger] p.strings@[i]).offset == (#[trigger] gsv[q]).offset implies replaced_at(
            p.strings@,
            gsv,
            gsv[q].offset,
            p.strings@[i].at,
        ) by {
            assert(offset_clear(p.strings@, gsv, q));
        }
        assert forall|q: int, i: int|
            0 <= q < gsv.len() && 0 <= i < p.strings@.len() implies !((#[trigger] gsv[q]).offset < (#[trigger] p.strings@[i]).offset
            < ext_of(p.strings@, gsv[q].offset)) by {
            assert(offset_clear(p.strings@, gsv, q));
        }
        assert(conflict_views(p.strings@, gsv).len() == 0);
        assert(recycle_accepts(p.strings@, gsv));
    }
    Ok(Packed { bytes: out, placements })
}


/// The slot the reference of replacement `r` rewrites.
pub open spec fn repl_slot(strings: Seq<StringRef>, r: Replacement) -> usize {
    strings[ref_index(strings, r.at, r.offset).unwrap()].slot.unwrap()
}

/// The replaced references' slots sit where rewriting them disturbs nothing
/// else: past the record cursor's halfword, wholly before `below`, and any
/// two either the same halfword or apart.
pub open spec fn slots_tidy(strings: Seq<StringRef>, repl: Seq<Replacement>, below: int) -> bool {
    &&& forall|q: int| 0 <= q < repl.len() ==> 2 <= repl_slot(strings, #[trigger] repl[q]) && repl_slot(strings, repl[q]) + 2 <= below
    &&& forall|q1: int, q2: int|
        0 <= q1 < repl.len() && 0 <= q2 < repl.len() ==> repl_slot(strings, #[trigger] repl[q1]) == repl_slot(strings, #[trigger] repl[q2])
            || repl_slot(strings, repl[q1]) + 2 <= repl_slot(strings, repl[q2]) || repl_slot(strings, repl[q2]) + 2 <= repl_slot(
            strings,
            repl[q1],
        )
}

/// Reading reference `r` in `out` gives its new text: the halfword at its
/// slot names a string whose codes are the replacement's.
pub open spec fn reads_back(out: Seq<u8>, strings: Seq<StringRef>, r: Replacement) -> bool {
    &&& spec_u16_at(out, repl_slot(strings, r) as int) is Some
    &&& spec_read_codes(out, spec_u16_at(out, repl_slot(strings, r) as int).unwrap() as int, r.codes@.len() + 1 as int) == Some(r.codes@)
}

/// A string's bytes read back as its codes.
proof fn lemma_read_string_bytes(out: Seq<u8>, st: int, codes: Seq<u16>)
    requires
        0 <= st,
        st + 2 * codes.len() + 2 <= out.len(),
        forall|t: int| 0 <= t < 2 * codes.len() + 2 ==> out[st + t] == #[trigger] string_bytes(codes)[t],
        forall|i: int| 0 <= i < codes.len() ==> codes[i] < TERMINATOR,
    ensures
        spec_read_codes(out, st, codes.len() + 1 as int) == Some(codes),
{
    let n = codes.len() as int;
    lemma_string_bytes_len(codes);
    lemma_be16_seq_len(codes);
    assert forall|i: int| 0 <= i < n implies #[trigger] spec_u16_at(out, st + 2 * i) == Some(codes[i]) by {
        lemma_be16_seq_index(codes, i);
        assert(string_bytes(codes)[2 * i] == be16_seq(codes)[2 * i]);
        assert(string_bytes(codes)[2 * i + 1] == be16_seq(codes)[2 * i + 1]);
        assert(out[st + 2 * i] == string_bytes(codes)[2 * i]);
        assert(out[st + 2 * i + 1] == string_bytes(codes)[2 * i + 1]);
    }
    lemma_be16_roundtrip(TERMINATOR);
    assert(out[st + 2 * n] == string_bytes(codes)[2 * n]);
    assert(out[st + 2 * n + 1] == string_bytes(codes)[2 * n + 1]);
    assert(spec_u16_at(out, st + 2 * n) == Some(TERMINATOR));
    assert(term_at(out, st, n));
    assert forall|m: int| 0 <= m < n + 1 && term_at(out, st, m) implies m == n by {
        lemma_term_at_unique(out, st, n, m);
    }
    assert(run_codes(out, st, n) =~= codes);
}

/// The arena holds each group's string where that group starts.
proof fn lemma_blob_holds(gs: Seq<Group>, g: int, t: int)
    requires
        0 <= g < gs.len(),
        0 <= t < 2 * gs[g].codes@.len() + 2,
    ensures
        blob_of(gs.take(g)).len() + t < blob_of(gs).len(),
        blob_of(gs)[blob_of(gs.take(g)).len() + t] == string_bytes(gs[g].codes@)[t],
    decreases gs.len() - g,
{
    lemma_blob_step(gs, g);
    lemma_string_bytes_len(gs[g].codes@);
    lemma_blob_prefix(gs, g + 1, gs.len() as int);
    assert(gs.take(gs.len() as int) =~= gs);
    let i = blob_of(gs.take(g)).len() + t;
    assert(blob_of(gs.take(g + 1))[i] == string_bytes(gs[g].codes@)[t]);
    assert(blob_of(gs.take(gs.len() as int))[i] == blob_of(gs.take(g + 1))[i]);
}

/// An earlier prefix's bytes begin a later one's.
proof fn lemma_blob_prefix(gs: Seq<Group>, a: int, b: int)
    requires
        0 <= a <= b <= gs.len(),
    ensures
        blob_of(gs.take(a)).len() <= blob_of(gs.take(b)).len(),
        forall|i: int| 0 <= i < blob_of(gs.take(a)).len() ==> blob_of(gs.take(b))[i] == #[trigger] blob_of(gs.take(a))[i],
    decreases b - a,
{
    if a < b {
        lemma_blob_prefix(gs, a, b - 1);
        lemma_blob_step(gs, b - 1);
    }
}

/// The arena facts the read-back of one replacement rests on.
pub open spec fn arena_read_ready(buf: Seq<u8>, p: Plan, repl: Seq<Replacement>, gs: Seq<Group>, out: Seq<u8>) -> bool {
    &&& grouping(p.strings@, repl, gs)
    &&& forall|g: int| 0 <= g < gs.len() ==> group_ok(buf, p.strings@, #[trigger] gs[g])
    &&& p.record_cursor < REACH
    &&& placed(p.record_cursor as int, gs) == gs.len()
    &&& arena_output(buf, p.record_cursor as int, p.strings@, gs, out)
    &&& slots_tidy(p.strings@, repl, p.record_cursor as int)
    &&& p.record_cursor <= buf.len()
    &&& repl.len() <= usize::MAX
}

/// Each user's slot is the slot of some replacement.
proof fn lemma_user_slot(strings: Seq<StringRef>, repl: Seq<Replacement>, gs: Seq<Group>, g: int, k: int) -> (q: int)
    requires
        grouping(strings, repl, gs),
        0 <= g < gs.len(),
        0 <= k < gs[g].users@.len(),
    ensures
        0 <= q < repl.len(),
        slot_of(strings, gs[g].users@[k]) == repl_slot(strings, repl[q]),
{
    assert(members_ok(strings, repl, gs[g]));
    let m = gs[g].members@[k];
    assert(member_at_ok(strings, repl, gs[g].offset, gs[g].codes@, m, gs[g].users@[k]));
    m as int
}

#[verifier::spinoff_prover]
proof fn lemma_reads_back_one(buf: Seq<u8>, p: Plan, repl: Seq<Replacement>, gs: Seq<Group>, out: Seq<u8>, q: int)
    requires
        arena_read_ready(buf, p, repl, gs, out),
        0 <= q < repl.len(),
    ensures
        reads_back(out, p.strings@, repl[q]),
{
    let strings = p.strings@;
    let at0 = p.record_cursor as int;
    assert(grouped(gs, q, repl));
    let g = choose|g: int| #[trigger] in_group(gs, g, q, repl);
    let k = choose|k: int| 0 <= k < gs[g].members@.len() && gs[g].members@[k] == q as usize;
    assert(members_ok(strings, repl, gs[g]));
    assert(member_at_ok(strings, repl, gs[g].offset, gs[g].codes@, gs[g].members@[k], gs[g].users@[k]));
    let u = gs[g].users@[k];
    let sl = slot_of(strings, u);
    assert(sl == repl_slot(strings, repl[q]));
    assert(lone_slot(strings, gs, sl as int)) by {
        assert forall|g2: int, m2: int| 0 <= g2 < gs.len() && 0 <= m2 < gs[g2].users@.len() implies slot_of(strings, #[trigger] gs[g2].users@[m2]) == sl
            || slot_of(strings, gs[g2].users@[m2]) + 2 <= sl || sl + 2 <= slot_of(strings, gs[g2].users@[m2]) by {
            let q2 = lemma_user_slot(strings, repl, gs, g2, m2);
            assert(repl_slot(strings, repl[q]) == repl_slot(strings, repl[q2]) || repl_slot(strings, repl[q]) + 2 <= repl_slot(strings, repl[q2])
                || repl_slot(strings, repl[q2]) + 2 <= repl_slot(strings, repl[q]));
        }
    }
    assert(slots_clear_of_cursor(strings, gs)) by {
        assert forall|g2: int, m2: int| 0 <= g2 < gs.len() && 0 <= m2 < gs[g2].users@.len() implies slot_of(strings, #[trigger] gs[g2].users@[m2]) >= 2 by {
            let q2 = lemma_user_slot(strings, repl, gs, g2, m2);
            assert(2 <= repl_slot(strings, repl[q2]));
        }
    }
    let st = start_of(at0, gs, g);
    lemma_placed_below(at0, gs, 0, g);
    assert(spec_u16_at(out, sl as int) == Some(st as u16));
    assert((st as u16) as int == st);
    let codes = gs[g].codes@;
    assert(group_ok(buf, strings, gs[g]));
    lemma_string_bytes_len(codes);
    assert forall|t: int| 0 <= t < 2 * codes.len() + 2 implies out[st + t] == #[trigger] string_bytes(codes)[t] by {
        lemma_blob_holds(gs, g, t);
        let i = st + t;
        assert(!slot_written(strings, gs, i)) by {
            if slot_written(strings, gs, i) {
                let (g2, m2) = choose|g2: int, m2: int|
                    0 <= g2 < gs.len() && 0 <= m2 < gs[g2].users@.len() && slot_of(strings, #[trigger] gs[g2].users@[m2]) <= i < slot_of(
                        strings,
                        gs[g2].users@[m2],
                    ) + 2;
                let q2 = lemma_user_slot(strings, repl, gs, g2, m2);
                assert(repl_slot(strings, repl[q2]) + 2 <= at0);
            }
        }
        assert(out[i] == arena_base(buf, at0, blob_of(gs))[i]);
    }
    assert(st + 2 * codes.len() + 2 <= out.len()) by {
        lemma_blob_holds(gs, g, 2 * codes.len() + 1 as int);
    }
    lemma_read_string_bytes(out, st, codes);
    assert(codes == repl[q].codes@);
}

/// After the arena writer, every replaced reference names a string that reads
/// back as its replacement.
proof fn lemma_arena_reads_back(buf: Seq<u8>, p: Plan, repl: Seq<Replacement>, gs: Seq<Group>, out: Seq<u8>)
    requires
        arena_read_ready(buf, p, repl, gs, out),
    ensures
        forall|q: int| 0 <= q < repl.len() ==> reads_back(out, p.strings@, #[trigger] repl[q]),
{
    assert forall|q: int| 0 <= q < repl.len() implies reads_back(out, p.strings@, #[trigger] repl[q]) by {
        lemma_reads_back_one(buf, p, repl, gs, out, q);
    }
}

/// No more groups are placed than there are.
proof fn lemma_placed_le(at0: int, gs: Seq<Group>, j: int)
    requires
        0 <= j <= gs.len(),
    ensures
        j <= placed_from(at0, gs, j) <= gs.len(),
    decreases gs.len() - j,
{
    if j < gs.len() && start_of(at0, gs, j) < REACH {
        lemma_placed_le(at0, gs, j + 1);
    }
}

/// A group before the first that does not fit starts below the reach.
proof fn lemma_placed_below(at0: int, gs: Seq<Group>, j: int, g: int)
    requires
        0 <= j <= g < gs.len(),
        placed_from(at0, gs, j) == gs.len(),
    ensures
        start_of(at0, gs, g) < REACH,
    decreases g - j,
{
    if j < g {
        assert(start_of(at0, gs, j) < REACH);
        lemma_placed_below(at0, gs, j + 1, g);
    }
}

/// What `pack` needs of the plan it is given, all of which `plan` provides:
/// every string lies inside the file on whole halfwords, every slot is a
/// halfword inside the file, a cursor below the reach lies inside the file,
/// and the directory is no larger than a halfword offset can describe.
pub open spec fn packable(buf: Seq<u8>, p: Plan) -> bool {
    &&& runs_fit(p.strings@, buf.len() as int)
    &&& forall|i: int| 0 <= i < p.strings@.len() ==> ((#[trigger] p.strings@[i]).slot matches Some(sl) ==> sl + 2 <= buf.len())
    &&& p.record_cursor < REACH ==> p.record_cursor <= buf.len()
    &&& p.dir_words <= 0x8000
}

/// What `pack` returns for replacements grouped as `gs`: the file unchanged
/// when there is nothing to write; else the refusals of the first stage that
/// refuses anything (references, then texts); else what the arena writer
/// returns when the cursor is below the reach, and what recycling returns
/// when it is not.
pub open spec fn pack_result(buf: Seq<u8>, p: Plan, repl: Seq<Replacement>, gs: Seq<Group>, r: Result<Packed, Vec<Refusal>>) -> bool {
    let strings = p.strings@;
    if repl.len() == 0 {
        r matches Ok(pk) && pk.bytes@ == buf && pk.placements@.len() == 0
    } else if validation_refusals(strings, p.dir_words, repl).len() > 0 {
        r matches Err(e) && e@ == validation_refusals(strings, p.dir_words, repl)
    } else if check_views(buf, strings, gs).len() > 0 {
        r matches Err(e) && refusal_views(e@) == check_views(buf, strings, gs)
    } else if p.record_cursor < REACH {
        arena_result(buf, p, gs, r)
    } else {
        &&& (r is Ok <==> recycle_accepts(strings, gs))
        &&& (r matches Ok(pk) ==> recycle_output(buf, strings, gs, pk.bytes@))
        &&& (r matches Err(e) ==> e@.len() > 0)
        &&& (r matches Err(e) ==> refusal_views(e@) == recycle_refusals(strings, gs))
    }
}

/// Write the replacements into the file. `repl` is ordered by (reference,
/// offset), one entry per pair; the reference is the command address for a
/// direct reference and the slot address for a table one.
pub fn pack(buf: &[u8], p: &Plan, repl: &[Replacement]) -> (r: Result<Packed, Vec<Refusal>>)
    requires
        repl_sorted(repl@),
        p.dir_words <= 0x8000,
        repl@.len() > 0 && validation_refusals(p.strings@, p.dir_words, repl@).len() == 0 ==> packable(buf@, *p),
    ensures
        exists|gs: Seq<Group>|
            (repl@.len() > 0 && validation_refusals(p.strings@, p.dir_words, repl@).len() == 0 ==> grouping(p.strings@, repl@, gs))
                && #[trigger] pack_result(buf@, *p, repl@, gs, r),
        // appended in the arena, every replaced reference reads back as its replacement
        p.record_cursor < REACH && r is Ok && slots_tidy(p.strings@, repl@, p.record_cursor as int) ==> forall|q: int|
            0 <= q < repl@.len() ==> reads_back(r->Ok_0.bytes@, p.strings@, #[trigger] repl@[q]),
{
    if repl.len() == 0 {
        let mut bytes: Vec<u8> = Vec::new();
        append_range(&mut bytes, buf, 0, buf.len());
        let placements: Vec<String> = Vec::new();
        let pk = Packed { bytes, placements };
        proof {
            assert(buf@.subrange(0, buf@.len() as int) =~= buf@);
            assert(pack_result(buf@, *p, repl@, Seq::empty(), Ok(pk)));
        }
        return Ok(pk);
    }
    let strings = p.strings.as_slice();
    let errs = validate(strings, p.dir_words, repl);
    if errs.len() > 0 {
        proof {
            assert(pack_result(buf@, *p, repl@, Seq::empty(), Err(errs)));
        }
        return Err(errs);
    }
    proof {
        assert forall|q: int| 0 <= q < repl@.len() implies ref_index(strings@, (#[trigger] repl@[q]).at, repl@[q].offset) is Some by {
            lemma_no_validation_refusals(strings@, p.dir_words, repl@, q);
        }
    }
    let gs = group_replacements(strings, repl);
    let ghost gsv = gs@;
    proof {
        lemma_grouping_users_in(strings@, repl@, gsv);
    }
    let errs = check_groups(buf, strings, gs.as_slice());
    if errs.len() > 0 {
        proof {
            assert(refusal_views(errs@).len() == errs@.len());
            assert(pack_result(buf@, *p, repl@, gsv, Err(errs)));
        }
        return Err(errs);
    }
    proof {
        assert(refusal_views(errs@).len() == errs@.len());
        assert forall|g: int| 0 <= g < gsv.len() implies (#[trigger] gsv[g]).codes@.len() <= EXPANSION_CAP by {
            lemma_no_check_views(buf@, strings@, gsv, g);
        }
        assert forall|g: int, k: int| 0 <= g < gsv.len() && 0 <= k < gsv[g].users@.len() implies {
            &&& (#[trigger] strings@[gsv[g].users@[k] as int]).slot is Some
            &&& strings@[gsv[g].users@[k] as int].offset == gsv[g].offset
        } by {
            assert(members_ok(strings@, repl@, gsv[g]));
            let m = gsv[g].members@[k];
            assert(member_at_ok(strings@, repl@, gsv[g].offset, gsv[g].codes@, m, gsv[g].users@[k]));
            lemma_ref_index(strings@, repl@[m as int].at, gsv[g].offset);
            lemma_no_validation_refusals(strings@, p.dir_words, repl@, m as int);
        }
        assert forall|g: int, k: int| 0 <= g < gsv.len() && 0 <= k < gsv[g].users@.len() implies slot_of(strings@, #[trigger] gsv[g].users@[k]) + 2 <= buf@.len() by {
            assert(strings@[gsv[g].users@[k] as int].slot is Some);
        }
        assert(users_at_offset(strings@, gsv));
        assert(users_have_slots(strings@, gsv));
        assert(slots_in(strings@, gsv, buf@.len() as int));
        assert(groups_sorted(gsv));
        assert(gsv.len() > 0) by {
            assert(grouped(gsv, 0, repl@));
        }
    }
    let r = if p.record_cursor < REACH {
        arena(buf, p, gs.as_slice())
    } else {
        recycle(buf, p, gs.as_slice())
    };
    proof {
        assert(pack_result(buf@, *p, repl@, gsv, r));
        if p.record_cursor < REACH && r is Ok && slots_tidy(p.strings@, repl@, p.record_cursor as int) {
            assert forall|g: int| 0 <= g < gsv.len() implies group_ok(buf@, strings@, #[trigger] gsv[g]) by {
                lemma_no_check_views(buf@, strings@, gsv, g);
            }
            lemma_placed_le(p.record_cursor as int, gsv, 0);
            lemma_arena_reads_back(buf@, *p, repl@, gsv, r->Ok_0.bytes@);
        }
    }
    r
}


/// The plan of a file can be packed once its record cursor lies inside it.
pub proof fn lemma_plan_packable(buf: Seq<u8>, glyphs: Map<u16, String>, p: Plan)
    requires
        p.wf(buf, glyphs),
        p.record_cursor <= buf.len(),
    ensures
        packable(buf, p),
{
    assert forall|i: int| 0 <= i < p.strings@.len() implies (#[trigger] p.strings@[i]).offset <= p.strings@[i].end <= buf.len()
        && (p.strings@[i].end - p.strings@[i].offset) % 2 == 0 by {
        let s = p.strings@[i];
        assert(plan_ref_ok(buf, glyphs, s));
        let n = (s.end - s.offset - 2) / 2;
        assert(spec_u16_at(buf, s.offset + 2 * n) == Some(TERMINATOR));
    }
    assert forall|i: int| 0 <= i < p.strings@.len() implies ((#[trigger] p.strings@[i]).slot matches Some(sl) ==> sl + 2 <= buf.len()) by {
        assert(plan_ref_ok(buf, glyphs, p.strings@[i]));
    }
}

/// Some replacement is for reference `at` naming `off`.
pub open spec fn has_repl(repl: Seq<Replacement>, at: usize, off: usize) -> bool {
    exists|q: int| 0 <= q < repl.len() && (#[trigger] repl[q]).at == at && repl[q].offset == off
}

/// Replaced reference `s` may change byte `i`: its slot, or, when recycling,
/// its string's own bytes.
pub open spec fn marks(s: StringRef, repl: Seq<Replacement>, reused: bool, i: int) -> bool {
    &&& has_repl(repl, s.at, s.offset)
    &&& ((s.slot matches Some(sl) && (i == sl || i == sl + 1)) || (reused && s.offset <= i < s.end))
}

/// Byte `i` may differ below the insertion point: the cursor, or a byte some
/// replaced reference may change.
pub open spec fn allowed_at(strings: Seq<StringRef>, repl: Seq<Replacement>, reused: bool, i: int) -> bool {
    i == 0 || i == 1 || exists|k: int| 0 <= k < strings.len() && #[trigger] marks(strings[k], repl, reused, i)
}

pub open spec fn is_stray(buf: Seq<u8>, out: Seq<u8>, strings: Seq<StringRef>, repl: Seq<Replacement>, reused: bool, i: int) -> bool {
    buf[i] != out[i] && !allowed_at(strings, repl, reused, i)
}

/// How many of the first `n` bytes changed that should not have.
pub open spec fn stray_count(buf: Seq<u8>, out: Seq<u8>, strings: Seq<StringRef>, repl: Seq<Replacement>, reused: bool, n: int) -> nat
    decreases n,
{
    if n <= 0 {
        0
    } else {
        stray_count(buf, out, strings, repl, reused, n - 1) + if is_stray(buf, out, strings, repl, reused, n - 1) {
            1nat
        } else {
            0
        }
    }
}

/// The first of the first `n` bytes that changed and should not have, or -1.
pub open spec fn first_stray(buf: Seq<u8>, out: Seq<u8>, strings: Seq<StringRef>, repl: Seq<Replacement>, reused: bool, n: int) -> int
    decreases n,
{
    if n <= 0 {
        -1
    } else if first_stray(buf, out, strings, repl, reused, n - 1) >= 0 {
        first_stray(buf, out, strings, repl, reused, n - 1)
    } else if is_stray(buf, out, strings, repl, reused, n - 1) {
        n - 1
    } else {
        -1
    }
}

/// The position of the last of the first `n` strings whose reference is at
/// `at`.
pub open spec fn last_with_at(strings: Seq<StringRef>, at: usize, n: int) -> Option<int>
    decreases n,
{
    if n <= 0 {
        None
    } else if strings[n - 1].at == at {
        Some(n - 1)
    } else {
        last_with_at(strings, at, n - 1)
    }
}

/// What the walker reads for the reference at `at`, as the last of its
/// strings has it.
pub open spec fn seen_text(strings: Seq<StringRef>, at: usize) -> Option<Seq<char>> {
    match last_with_at(strings, at, strings.len() as int) {
        Some(i) => Some(strings[i].jp@),
        None => None,
    }
}

/// The first 40 characters of `s`.
pub open spec fn first40(s: Seq<char>) -> Seq<char> {
    if s.len() <= 40 { s } else { s.take(40) }
}

/// The complaint for each replacement that does not read back as its text.
pub open spec fn repl_report(repl: Seq<Replacement>, glyphs: Map<u16, String>, strings: Seq<StringRef>) -> Seq<Seq<char>>
    decreases repl.len(),
{
    if repl.len() == 0 {
        Seq::empty()
    } else {
        let r = repl.last();
        let want = spec_render(r.codes@, glyphs);
        repl_report(repl.drop_last(), glyphs, strings) + if seen_text(strings, r.at) == Some(want) {
            Seq::empty()
        } else {
            seq![
                "command 0x"@ + hex(r.at as nat, 4) + ": expected "@ + debug_quoted(first40(want)) + ", walker read "@
                    + debug_quoted(
                    first40(
                        match seen_text(strings, r.at) {
                            Some(t) => t,
                            None => "<nothing>"@,
                        },
                    ),
                ),
            ]
        }
    }
}

/// The complaint about bytes below the insertion point that changed and
/// should not have.
pub open spec fn stray_lines(buf: Seq<u8>, out: Seq<u8>, repl: Seq<Replacement>, a: Plan) -> Seq<Seq<char>> {
    let at0 = a.record_cursor as int;
    let reused = repl.len() > 0 && out.len() == buf.len();
    let lim = if at0 < buf.len() { at0 } else { buf.len() as int };
    let n = stray_count(buf, out, a.strings@, repl, reused, lim);
    if n > 0 {
        seq![decimal(n) + " bytes changed that should not have, first at 0x"@ + hex(first_stray(buf, out, a.strings@, repl, reused, lim) as nat, 4)]
    } else {
        Seq::empty()
    }
}

/// The complaint about the region from the record cursor on.
pub open spec fn slide_lines(buf: Seq<u8>, out: Seq<u8>, a: Plan) -> Seq<Seq<char>> {
    let at0 = a.record_cursor as int;
    if out.skip(at0 + (out.len() - buf.len())) != buf.skip(at0) {
        seq!["the region at and after the record cursor is not a verbatim slide"@]
    } else {
        Seq::empty()
    }
}

/// The complaints about the walks: the sentinel, the command count, and the
/// opcodes they stop at.
pub open spec fn walk_lines(a: Plan, b: Plan) -> Seq<Seq<char>> {
    (if a.stats.sentinel && !b.stats.sentinel {
        seq!["output never reaches the 0xFFFF sentinel"@]
    } else {
        Seq::empty()
    }) + (if a.stats.steps != b.stats.steps {
        seq!["command count changed: "@ + decimal(a.stats.steps as nat) + " -> "@ + decimal(b.stats.steps as nat)]
    } else {
        Seq::empty()
    }) + (if a.stats.unknown.entries() != b.stats.unknown.entries() {
        seq!["new dead ends: "@ + hex_map(b.stats.unknown.entries())]
    } else {
        Seq::empty()
    })
}

/// Everything `verify` finds wrong with `out`, given the plans `a` of the
/// input and `b` of the output.
pub open spec fn verify_report(buf: Seq<u8>, out: Seq<u8>, repl: Seq<Replacement>, glyphs: Map<u16, String>, a: Plan, b: Plan) -> Seq<Seq<char>> {
    stray_lines(buf, out, repl, a) + slide_lines(buf, out, a) + walk_lines(a, b) + repl_report(repl, glyphs, b.strings@)
}

fn has_repl_exec(repl: &[Replacement], at: usize, off: usize) -> (r: bool)
    ensures
        r == has_repl(repl@, at, off),
{
    let mut q: usize = 0;
    while q < repl.len()
        invariant
            q <= repl@.len(),
            forall|q2: int| 0 <= q2 < q ==> !((#[trigger] repl@[q2]).at == at && repl@[q2].offset == off),
        decreases repl@.len() - q,
    {
        if repl[q].at == at && repl[q].offset == off {
            return true;
        }
        q = q + 1;
    }
    false
}

/// Mark `[lo, hi)` clipped to the vector.
fn mark_range(v: &mut Vec<bool>, lo: usize, hi: usize)
    ensures
        final(v)@.len() == old(v)@.len(),
        forall|i: int| 0 <= i < old(v)@.len() ==> final(v)@[i] == (old(v)@[i] || (lo <= i < hi)),
{
    let ghost start = v@;
    let end = if hi < v.len() { hi } else { v.len() };
    if lo >= end {
        return;
    }
    let mut i = lo;
    while i < end
        invariant
            lo <= i <= end,
            end <= hi,
            end <= start.len(),
            v@.len() == start.len(),
            forall|k: int| 0 <= k < v@.len() ==> #[trigger] v@[k] == (start[k] || (lo <= k < i)),
        decreases end - i,
    {
        v.set(i, true);
        i = i + 1;
    }
}

/// How many bytes below `lim` changed that no replaced reference may change,
/// and the first of them.
fn count_strays(buf: &[u8], out: &[u8], repl: &[Replacement], strings: &Vec<StringRef>, reused: bool, lim: usize) -> (r: (usize, usize))
    requires
        lim <= buf@.len(),
        buf@.len() <= out@.len(),
    ensures
        r.0 == stray_count(buf@, out@, strings@, repl@, reused, lim as int),
        r.0 > 0 ==> r.1 == first_stray(buf@, out@, strings@, repl@, reused, lim as int),
{
    let mut marked: Vec<bool> = Vec::new();
    let mut i: usize = 0;
    while i < lim
        invariant
            i <= lim,
            marked@.len() == i,
            forall|k: int| 0 <= k < i ==> !marked@[k],
        decreases lim - i,
    {
        marked.push(false);
        i = i + 1;
    }
    let mut k: usize = 0;
    while k < strings.len()
        invariant
            k <= strings@.len(),
            marked@.len() == lim,
            forall|i2: int| 0 <= i2 < lim ==> marked@[i2] == exists|k2: int| 0 <= k2 < k && #[trigger] marks(strings@[k2], repl@, reused, i2),
        decreases strings@.len() - k,
    {
        let s = &strings[k];
        let ghost before = marked@;
        if has_repl_exec(repl, s.at, s.offset) {
            match s.slot {
                Some(sl) => {
                    if sl < usize::MAX - 1 {
                        mark_range(&mut marked, sl, sl + 2);
                    } else {
                        mark_range(&mut marked, sl, usize::MAX);
                    }
                },
                None => {},
            }
            if reused {
                mark_range(&mut marked, s.offset, s.end);
            }
        }
        proof {
            assert forall|i2: int| 0 <= i2 < lim implies marked@[i2] == exists|k2: int| 0 <= k2 < k + 1 && #[trigger] marks(strings@[k2], repl@, reused, i2) by {
                if marks(strings@[k as int], repl@, reused, i2) {
                    assert(marked@[i2]);
                }
                if marked@[i2] && !before[i2] {
                    assert(marks(strings@[k as int], repl@, reused, i2));
                }
            }
        }
        k = k + 1;
    }
    let mut count: usize = 0;
    let mut first: usize = 0;
    let mut found = false;
    let mut i: usize = 0;
    while i < lim
        invariant
            i <= lim,
            lim <= buf@.len(),
            buf@.len() <= out@.len(),
            marked@.len() == lim,
            forall|i2: int| 0 <= i2 < lim ==> marked@[i2] == exists|k2: int| 0 <= k2 < strings@.len() && #[trigger] marks(strings@[k2], repl@, reused, i2),
            count == stray_count(buf@, out@, strings@, repl@, reused, i as int),
            count <= i,
            found == (first_stray(buf@, out@, strings@, repl@, reused, i as int) >= 0),
            found ==> first == first_stray(buf@, out@, strings@, repl@, reused, i as int),
            !found ==> first_stray(buf@, out@, strings@, repl@, reused, i as int) == -1,
        decreases lim - i,
    {
        let stray = buf[i] != out[i] && !(i == 0 || i == 1 || marked[i]);
        proof {
            assert(stray == is_stray(buf@, out@, strings@, repl@, reused, i as int));
        }
        if stray {
            count = count + 1;
            if !found {
                found = true;
                first = i;
            }
        }
        i = i + 1;
    }
    proof {
        if count > 0 {
            lemma_first_stray(buf@, out@, strings@, repl@, reused, lim as int);
        }
    }
    (count, first)
}

/// Append a line.
fn push_line(bad: &mut Vec<String>, t: &[char])
    ensures
        final(bad)@.map_values(|x: String| x@) == old(bad)@.map_values(|x: String| x@).push(t@),
{
    let ghost before = bad@;
    bad.push(string_of(t));
    assert(bad@.map_values(|x: String| x@) =~= before.map_values(|x: String| x@).push(t@));
}

/// Everything from the record cursor on in `out` is what was there in `buf`,
/// slid down by the growth.
fn slid_verbatim(buf: &[u8], out: &[u8], at0: usize) -> (r: bool)
    requires
        out@.len() >= buf@.len(),
        at0 <= buf@.len(),
    ensures
        r == (out@.skip(at0 + (out@.len() - buf@.len())) == buf@.skip(at0 as int)),
{
    let d = out.len() - buf.len();
    let mut same = true;
    let mut j: usize = at0;
    while j < buf.len()
        invariant
            at0 <= j <= buf@.len(),
            d == out@.len() - buf@.len(),
            buf@.len() + d == out@.len(),
            out@.len() == out.len(),
            same == forall|k2: int| at0 <= k2 < j ==> out@[k2 + d] == buf@[k2],
        decreases buf@.len() - j,
    {
        if out[j + d] != buf[j] {
            same = false;
        }
        j = j + 1;
    }
    proof {
        let x = out@.skip(at0 + d);
        let y = buf@.skip(at0 as int);
        if same {
            assert(x =~= y);
        } else {
            let k2 = choose|k2: int| at0 <= k2 < j && out@[k2 + d] != buf@[k2];
            assert(x[k2 - at0] != y[k2 - at0]);
        }
    }
    same
}

/// Compare the plans of the input and the output the way the interpreter
/// would see them.
fn compare_plans(
    buf: &[u8],
    out: &[u8],
    repl: &[Replacement],
    glyphs: &HashMap<u16, String>,
    a: &Plan,
    b: &Plan,
) -> (bad: Vec<String>)
    requires
        out@.len() >= buf@.len(),
        a.record_cursor <= buf@.len(),
    ensures
        bad@.map_values(|x: String| x@) == verify_report(buf@, out@, repl@, glyphs@, *a, *b),
{
    let at0 = a.record_cursor;
    let reused = repl.len() > 0 && out.len() == buf.len();
    let lim = if at0 < buf.len() { at0 } else { buf.len() };
    let (count, first) = count_strays(buf, out, repl, &a.strings, reused, lim);
    let mut bad: Vec<String> = Vec::new();
    assert(bad@.map_values(|x: String| x@) =~= Seq::<Seq<char>>::empty());
    if count > 0 {
        let mut t: Vec<char> = Vec::new();
        push_dec(&mut t, count as u64);
        push_str(&mut t, " bytes changed that should not have, first at 0x");
        push_hex(&mut t, first as u64, 4);
        push_line(&mut bad, t.as_slice());
    }
    let ghost l1 = bad@.map_values(|x: String| x@);
    assert(l1 =~= stray_lines(buf@, out@, repl@, *a));
    if !slid_verbatim(buf, out, at0) {
        let t = chars_of("the region at and after the record cursor is not a verbatim slide");
        push_line(&mut bad, t.as_slice());
    }
    let ghost l2 = bad@.map_values(|x: String| x@);
    assert(l2 =~= l1 + slide_lines(buf@, out@, *a));
    if a.stats.sentinel && !b.stats.sentinel {
        let t = chars_of("output never reaches the 0xFFFF sentinel");
        push_line(&mut bad, t.as_slice());
    }
    if a.stats.steps != b.stats.steps {
        let mut t: Vec<char> = Vec::new();
        push_str(&mut t, "command count changed: ");
        push_dec(&mut t, a.stats.steps as u64);
        push_str(&mut t, " -> ");
        push_dec(&mut t, b.stats.steps as u64);
        push_line(&mut bad, t.as_slice());
    }
    match dead_ends(&a.stats.unknown, &b.stats.unknown) {
        Some(t) => {
            let c = chars_of(t.as_str());
            push_line(&mut bad, c.as_slice());
        },
        None => {},
    }
    let ghost l5 = bad@.map_values(|x: String| x@);
    assert(l5 =~= l2 + walk_lines(*a, *b));
    let rest = report_replacements(repl, glyphs, b.strings.as_slice());
    let mut q: usize = 0;
    while q < rest.len()
        invariant
            q <= rest@.len(),
            bad@.map_values(|x: String| x@) == l5 + rest@.map_values(|x: String| x@).take(q as int),
        decreases rest@.len() - q,
    {
        let c = chars_of(rest[q].as_str());
        push_line(&mut bad, c.as_slice());
        proof {
            assert(rest@.map_values(|x: String| x@).take(q + 1) =~= rest@.map_values(|x: String| x@).take(q as int).push(rest@[q as int]@));
        }
        q = q + 1;
    }
    proof {
        assert(rest@.map_values(|x: String| x@).take(q as int) =~= rest@.map_values(|x: String| x@));
        assert(bad@.map_values(|x: String| x@) =~= verify_report(buf@, out@, repl@, glyphs@, *a, *b));
    }
    bad
}

/// The complaint about new dead ends, when the walk of the output stops at
/// other opcodes than the walk of the input.
fn dead_ends(ua: &SortedMap<usize>, ub: &SortedMap<usize>) -> (r: Option<String>)
    ensures
        r is None <==> ua.entries() == ub.entries(),
        r matches Some(t) ==> t@ == "new dead ends: "@ + hex_map(ub.entries()),
{
    let mut same_unknown = ua.len() == ub.len();
    let mut e: usize = 0;
    while same_unknown && e < ua.len()
        invariant
            e <= ua.entries().len(),
            same_unknown ==> ua.entries().len() == ub.entries().len(),
            same_unknown ==> forall|k2: int| 0 <= k2 < e ==> ua.entries()[k2] == ub.entries()[k2],
            !same_unknown ==> ua.entries() != ub.entries(),
        decreases ua.entries().len() - e,
    {
        let x = *ua.at(e);
        let y = *ub.at(e);
        if x.0 != y.0 || x.1 != y.1 {
            same_unknown = false;
        }
        e = e + 1;
    }
    if same_unknown {
        assert(ua.entries() =~= ub.entries());
        return None;
    }
    let mut pairs: Vec<(u32, usize)> = Vec::new();
    let mut e: usize = 0;
    while e < ub.len()
        invariant
            e <= ub.entries().len(),
            pairs@ == ub.entries().take(e as int),
        decreases ub.entries().len() - e,
    {
        pairs.push(*ub.at(e));
        proof {
            assert(ub.entries().take(e + 1) =~= ub.entries().take(e as int).push(ub.entries()[e as int]));
        }
        e = e + 1;
    }
    assert(ub.entries().take(e as int) =~= ub.entries());
    let mut t: Vec<char> = Vec::new();
    push_str(&mut t, "new dead ends: ");
    push_hex_map(&mut t, pairs.as_slice());
    Some(string_of(t.as_slice()))
}

/// The complaint for each replacement that the walker of the output does not
/// read as its text.
fn report_replacements(repl: &[Replacement], glyphs: &HashMap<u16, String>, strings: &[StringRef]) -> (bad: Vec<String>)
    ensures
        bad@.map_values(|x: String| x@) == repl_report(repl@, glyphs@, strings@),
{
    let mut bad: Vec<String> = Vec::new();
    let mut q: usize = 0;
    while q < repl.len()
        invariant
            q <= repl@.len(),
            bad@.map_values(|x: String| x@) == repl_report(repl@.take(q as int), glyphs@, strings@),
        decreases repl@.len() - q,
    {
        let r = &repl[q];
        let want = render(r.codes.as_slice(), glyphs);
        let seen = seen_exec(strings, r.at);
        proof {
            assert(repl@.take(q + 1).drop_last() =~= repl@.take(q as int));
            assert(repl@.take(q + 1).last() == *r);
        }
        let ghost before = bad@;
        let ok = match seen {
            Some(k2) => same_text(strings[k2].jp.as_str(), want.as_str()),
            None => false,
        };
        if !ok {
            let w = chars_of(want.as_str());
            let wf = first_chars(w.as_slice(), 40);
            let read = match seen {
                Some(k2) => chars_of(strings[k2].jp.as_str()),
                None => chars_of("<nothing>"),
            };
            let rf = first_chars(read.as_slice(), 40);
            let mut t: Vec<char> = Vec::new();
            push_str(&mut t, "command 0x");
            push_hex(&mut t, r.at as u64, 4);
            push_str(&mut t, ": expected ");
            let qw = quote_debug(string_of(wf.as_slice()).as_str());
            append_chars(&mut t, chars_of(qw.as_str()).as_slice());
            push_str(&mut t, ", walker read ");
            let qr = quote_debug(string_of(rf.as_slice()).as_str());
            append_chars(&mut t, chars_of(qr.as_str()).as_slice());
            bad.push(string_of(t.as_slice()));
            proof {
                assert(bad@.map_values(|x: String| x@) =~= before.map_values(|x: String| x@).push(bad@.last()@));
            }
        } else {
            proof {
                assert(bad@.map_values(|x: String| x@) =~= before.map_values(|x: String| x@) + Seq::<Seq<char>>::empty());
            }
        }
        q = q + 1;
    }
    proof {
        assert(repl@.take(q as int) =~= repl@);
    }
    bad
}

proof fn lemma_first_stray(buf: Seq<u8>, out: Seq<u8>, strings: Seq<StringRef>, repl: Seq<Replacement>, reused: bool, n: int)
    requires
        stray_count(buf, out, strings, repl, reused, n) > 0,
    ensures
        first_stray(buf, out, strings, repl, reused, n) >= 0,
    decreases n,
{
    if n > 0 && stray_count(buf, out, strings, repl, reused, n - 1) > 0 {
        lemma_first_stray(buf, out, strings, repl, reused, n - 1);
    }
}

/// The position of the last string whose reference is at `at`.
fn seen_exec(strings: &[StringRef], at: usize) -> (r: Option<usize>)
    ensures
        r matches Some(i) ==> last_with_at(strings@, at, strings@.len() as int) == Some(i as int) && i < strings@.len(),
        r is None ==> last_with_at(strings@, at, strings@.len() as int) is None,
{
    let mut i = strings.len();
    while i > 0
        invariant
            i <= strings@.len(),
            last_with_at(strings@, at, strings@.len() as int) == last_with_at(strings@, at, i as int),
        decreases i,
    {
        if strings[i - 1].at == at {
            return Some(i - 1);
        }
        i = i - 1;
    }
    None
}

/// Whether two strings hold the same characters.
fn same_text(x: &str, y: &str) -> (r: bool)
    ensures
        r == (x@ == y@),
{
    let a = chars_of(x);
    let b = chars_of(y);
    if a.len() != b.len() {
        return false;
    }
    let mut i: usize = 0;
    while i < a.len()
        invariant
            i <= a@.len(),
            a@.len() == b@.len(),
            a@ == x@,
            b@ == y@,
            forall|k: int| 0 <= k < i ==> a@[k] == b@[k],
        decreases a@.len() - i,
    {
        if a[i] != b[i] {
            assert(a@[i as int] != b@[i as int]);
            return false;
        }
        i = i + 1;
    }
    assert(a@ =~= b@);
    true
}

/// The first `n` characters of `s`, or all of them.
fn first_chars(s: &[char], n: usize) -> (out: Vec<char>)
    ensures
        out@ == (if s@.len() <= n { s@ } else { s@.take(n as int) }),
{
    let mut out: Vec<char> = Vec::new();
    let mut i: usize = 0;
    while i < s.len() && i < n
        invariant
            i <= s@.len(),
            i <= n,
            out@ == s@.take(i as int),
        decreases s@.len() - i,
    {
        out.push(s[i]);
        proof {
            assert(s@.take(i + 1) =~= s@.take(i as int).push(s@[i as int]));
        }
        i = i + 1;
    }
    if s.len() <= n {
        assert(s@.take(i as int) =~= s@);
    }
    out
}

/// Re-walk the output the way the interpreter would and compare. It also
/// checks the design's central claim directly: below the insertion point the
/// only bytes that differ are the record cursor and the operand words that
/// name a replaced string, and everything from the insertion point on is slid
/// verbatim.
pub fn verify(buf: &[u8], out: &[u8], repl: &[Replacement], glyphs: &HashMap<u16, String>) -> (bad: Vec<String>)
    requires
        out@.len() >= buf@.len(),
        spec_w(buf@, 0, 0) <= buf@.len(),
    ensures
        exists|a: Plan, b: Plan|
            a.wf(buf@, glyphs@) && b.wf(out@, glyphs@) && planned(buf@, glyphs@, a) && planned(out@, glyphs@, b) && #[trigger] verify_report(
                buf@,
                out@,
                repl@,
                glyphs@,
                a,
                b,
            ) == bad@.map_values(|x: String| x@),
{
    let a = plan(buf, glyphs);
    let b = plan(out, glyphs);
    let bad = compare_plans(buf, out, repl, glyphs, &a, &b);
    proof {
        assert(verify_report(buf@, out@, repl@, glyphs@, a, b) == bad@.map_values(|x: String| x@));
        assert(planned(buf@, glyphs@, a) && planned(out@, glyphs@, b));
    }
    bad
}

} // verus!
