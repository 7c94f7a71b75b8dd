//! Big-endian halfwords and words, the only integer encoding either file
//! format uses.

use vstd::prelude::*;

verus! {

/// The halfword whose big-endian bytes are `hi`, `lo`.
pub open spec fn be16(hi: u8, lo: u8) -> u16 {
    (hi as int * 256 + lo as int) as u16
}

/// The word whose big-endian bytes are `b0` to `b3`.
pub open spec fn be32(b0: u8, b1: u8, b2: u8, b3: u8) -> u32 {
    (b0 as int * 0x100_0000 + b1 as int * 0x1_0000 + b2 as int * 0x100 + b3 as int) as u32
}

/// The halfword stored at byte `off` of `s`, when two bytes are there.
pub open spec fn spec_u16_at(s: Seq<u8>, off: int) -> Option<u16> {
    if 0 <= off && off + 2 <= s.len() {
        Some(be16(s[off], s[off + 1]))
    } else {
        None
    }
}

/// The word stored at byte `off` of `s`, when four bytes are there.
pub open spec fn spec_u32_at(s: Seq<u8>, off: int) -> Option<u32> {
    if 0 <= off && off + 4 <= s.len() {
        Some(be32(s[off], s[off + 1], s[off + 2], s[off + 3]))
    } else {
        None
    }
}

/// The two big-endian bytes of `v`.
pub open spec fn be16_bytes(v: u16) -> Seq<u8> {
    seq![(v / 256) as u8, (v % 256) as u8]
}

/// The four big-endian bytes of `v`.
pub open spec fn be32_bytes(v: u32) -> Seq<u8> {
    seq![
        (v / 0x100_0000) as u8,
        ((v / 0x1_0000) % 256) as u8,
        ((v / 0x100) % 256) as u8,
        (v % 256) as u8,
    ]
}

/// The big-endian encoding of every halfword of `codes`, in order.
pub open spec fn be16_seq(codes: Seq<u16>) -> Seq<u8>
    decreases codes.len(),
{
    if codes.len() == 0 {
        Seq::empty()
    } else {
        be16_seq(codes.drop_last()) + be16_bytes(codes.last())
    }
}

/// Writing a halfword and reading it back gives the halfword.
pub proof fn lemma_be16_roundtrip(v: u16)
    ensures
        be16((v / 256) as u8, (v % 256) as u8) == v,
        spec_u16_at(be16_bytes(v), 0) == Some(v),
{
}

/// Writing a word and reading it back gives the word.
pub proof fn lemma_be32_roundtrip(v: u32)
    ensures
        be32(
            (v / 0x100_0000) as u8,
            ((v / 0x1_0000) % 256) as u8,
            ((v / 0x100) % 256) as u8,
            (v % 256) as u8,
        ) == v,
        spec_u32_at(be32_bytes(v), 0) == Some(v),
{
}

pub proof fn lemma_be16_seq_len(codes: Seq<u16>)
    ensures
        be16_seq(codes).len() == 2 * codes.len(),
    decreases codes.len(),
{
    if codes.len() > 0 {
        lemma_be16_seq_len(codes.drop_last());
    }
}

/// Halfword `i` of the encoding of `codes` is `codes[i]`.
pub proof fn lemma_be16_seq_index(codes: Seq<u16>, i: int)
    requires
        0 <= i < codes.len(),
    ensures
        spec_u16_at(be16_seq(codes), 2 * i) == Some(codes[i]),
    decreases codes.len(),
{
    lemma_be16_seq_len(codes);
    lemma_be16_seq_len(codes.drop_last());
    lemma_be16_roundtrip(codes.last());
    if i < codes.len() - 1 {
        lemma_be16_seq_index(codes.drop_last(), i);
    }
}

/// Halfwords laid out after `prefix` read back in order: the codes, then
/// `last`, whatever follows.
pub proof fn lemma_codes_then(prefix: Seq<u8>, codes: Seq<u16>, last: u16, rest: Seq<u8>)
    ensures
        ({
            let s = prefix + be16_seq(codes) + be16_bytes(last) + rest;
            &&& forall|k: int| 0 <= k < codes.len() ==> #[trigger] spec_u16_at(s, prefix.len() + 2 * k) == Some(codes[k])
            &&& spec_u16_at(s, (prefix.len() + 2 * codes.len()) as int) == Some(last)
        }),
{
    let s = prefix + be16_seq(codes) + be16_bytes(last) + rest;
    let p = prefix.len() as int;
    lemma_be16_seq_len(codes);
    let b = be16_seq(codes);
    assert forall|k: int| 0 <= k < codes.len() implies #[trigger] spec_u16_at(s, prefix.len() + 2 * k) == Some(codes[k]) by {
        lemma_be16_seq_index(codes, k);
        assert(s[p + 2 * k] == b[2 * k]);
        assert(s[p + 2 * k + 1] == b[2 * k + 1]);
    }
    lemma_be16_roundtrip(last);
    let q = p + b.len();
    assert(s[q] == be16_bytes(last)[0]);
    assert(s[q + 1] == be16_bytes(last)[1]);
}

/// The halfword at `off`, or `None` when fewer than two bytes remain there.
pub fn u16at(buf: &[u8], off: usize) -> (r: Option<u16>)
    ensures
        r == spec_u16_at(buf@, off as int),
{
    if off < buf.len() && buf.len() - off >= 2 {
        Some((buf[off] as u16) * 256 + buf[off + 1] as u16)
    } else {
        None
    }
}

/// The word at `off`, or `None` when fewer than four bytes remain there.
pub fn u32at(buf: &[u8], off: usize) -> (r: Option<u32>)
    ensures
        r == spec_u32_at(buf@, off as int),
{
    if off < buf.len() && buf.len() - off >= 4 {
        Some(
            (buf[off] as u32) * 0x100_0000 + (buf[off + 1] as u32) * 0x1_0000 + (buf[off + 2] as u32)
                * 0x100 + buf[off + 3] as u32,
        )
    } else {
        None
    }
}

/// Append the big-endian bytes of `v`.
pub fn push_be16(out: &mut Vec<u8>, v: u16)
    ensures
        final(out)@ == old(out)@ + be16_bytes(v),
{
    out.push((v / 256) as u8);
    out.push((v % 256) as u8);
}

/// Append the big-endian bytes of `v`.
pub fn push_be32(out: &mut Vec<u8>, v: u32)
    ensures
        final(out)@ == old(out)@ + be32_bytes(v),
{
    out.push((v / 0x100_0000) as u8);
    out.push(((v / 0x1_0000) % 256) as u8);
    out.push(((v / 0x100) % 256) as u8);
    out.push((v % 256) as u8);
}

/// Overwrite the two bytes at `at` with the big-endian bytes of `v`.
pub fn set_be16(out: &mut Vec<u8>, at: usize, v: u16)
    requires
        at + 2 <= old(out).len(),
    ensures
        final(out)@ == old(out)@.update(at as int, (v / 256) as u8).update(at + 1, (v % 256) as u8),
{
    out.set(at, (v / 256) as u8);
    out.set(at + 1, (v % 256) as u8);
}

} // verus!
