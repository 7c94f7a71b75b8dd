//! Names longer than the 18-byte record field they are stored in.
//!
//! Every name in the game lands in a fixed `0x12`-byte slot at some point, and
//! the slot cannot grow: the halfword at `+0x12` is the next struct member. So
//! the slot holds a two-word stub instead of glyphs
//!
//! ```text
//!     0xC000 | idx      "continue this string at longNamePtrs[idx]"
//!     0xF800            terminator, for any reader that has not been hooked
//! ```
//!
//! and the real name lives in the bank laid out here.

use vstd::prelude::*;
use crate::bytes::{be16_bytes, be16_seq, be32_bytes, push_be16, push_be32, lemma_be16_seq_len};
use crate::text::{chars_of, decimal, decimal_chars, append_chars, string_of};

verus! {

/// The string terminator.
pub const TERMINATOR: u16 = 0xF800;
/// The redirect family: dead in every text walker, so free to mean "continue
/// at longNamePtrs[code & 0x7ff]".
pub const REDIRECT_FAMILY: u16 = 0xC000;
/// Glyphs a redirected name may have.
pub const LONG_NAME_GLYPHS: usize = 16;
/// Entries in `longNamePtrs`; the redirect's 11-bit argument indexes it.
pub const LONG_NAME_INDICES: u32 = 0x800;
/// Bytes each stub occupies in the bank: the 0x12 bytes the blind copy moves,
/// rounded up to a word.
pub const STUB_STRIDE: usize = 20;
/// The name field every copy of a name moves.
pub const NAME_FIELD_BYTES: usize = 0x12;

/// Is this the first word of a redirect?
pub open spec fn spec_is_redirect(code: u16) -> bool {
    code & 0xf800 == REDIRECT_FAMILY
}

/// The word that stands in for name `idx`.
pub open spec fn spec_stub_word(idx: u32) -> u16 {
    REDIRECT_FAMILY | (idx as u16)
}

/// Is this the first word of a redirect?
///
/// The chain invariant is that no interned name starts with one, which is what
/// makes an infinite redirect loop unrepresentable rather than merely unlikely.
pub fn is_redirect(code: u16) -> (r: bool)
    ensures
        r == spec_is_redirect(code),
{
    code & 0xf800 == REDIRECT_FAMILY
}

/// The word that stands in for name `idx`.
pub fn stub_word(idx: u32) -> (w: u16)
    ensures
        w == spec_stub_word(idx),
        idx < LONG_NAME_INDICES ==> w == 0xC000 + idx,
        idx < LONG_NAME_INDICES ==> spec_is_redirect(w),
{
    let w = REDIRECT_FAMILY | idx as u16;
    proof {
        if idx < LONG_NAME_INDICES {
            let i16 = idx as u16;
            assert(i16 == idx);
            assert(i16 < 0x800u16 ==> (0xC000u16 | i16) == 0xC000u16 + i16) by (bit_vector);
            assert(i16 < 0x800u16 ==> ((0xC000u16 | i16) & 0xf800u16) == 0xC000u16) by (bit_vector);
        }
    }
    w
}

/// A stub word is a redirect exactly when its index is in range.
pub proof fn lemma_stub_is_redirect(idx: u32)
    requires
        idx < LONG_NAME_INDICES,
    ensures
        spec_is_redirect(spec_stub_word(idx)),
        spec_stub_word(idx) == 0xC000 + idx,
{
    let i16 = idx as u16;
    assert(i16 < 0x800u16 ==> (0xC000u16 | i16) == 0xC000u16 + i16) by (bit_vector);
    assert(i16 < 0x800u16 ==> ((0xC000u16 | i16) & 0xf800u16) == 0xC000u16) by (bit_vector);
}

/// Where each piece of the bank ended up, in RAM.
pub struct BankLayout {
    /// `longNamePtrs`, the table the caves index.
    pub ptrs: u32,
}

/// Why a name was not taken into the bank.
#[derive(Debug, Clone, Copy, PartialEq, Eq, Structural)]
pub enum BankError {
    /// more glyphs than `LONG_NAME_GLYPHS`
    TooLong { glyphs: usize },
    /// the name's first word is itself a redirect
    BeginsWithRedirect,
    /// every index the redirect can name is taken
    Full,
}

/// The text of a refusal.
pub open spec fn bank_error_text(e: BankError) -> Seq<char> {
    match e {
        BankError::TooLong { glyphs } => decimal(glyphs as nat)
            + " glyphs exceeds the 16-glyph redirected name cap"@,
        BankError::BeginsWithRedirect =>
            "a redirected name may not itself begin with a 0xC000 family word"@,
        BankError::Full => "the redirect opcode names at most 2048 strings"@,
    }
}

impl BankError {
    /// The refusal as a sentence.
    pub fn message(&self) -> (s: String)
        ensures
            s@ == bank_error_text(*self),
    {
        match self {
            BankError::TooLong { glyphs } => {
                let mut out = decimal_chars(*glyphs as u64);
                let tail = chars_of(" glyphs exceeds the 16-glyph redirected name cap");
                append_chars(&mut out, tail.as_slice());
                string_of(out.as_slice())
            },
            BankError::BeginsWithRedirect => {
                let t = chars_of("a redirected name may not itself begin with a 0xC000 family word");
                string_of(t.as_slice())
            },
            BankError::Full => {
                let t = chars_of("the redirect opcode names at most 2048 strings");
                string_of(t.as_slice())
            },
        }
    }
}

/// A name's bytes in the bank: its codes, then the terminator.
pub open spec fn name_bytes(name: Seq<u16>) -> Seq<u8> {
    be16_seq(name) + be16_bytes(TERMINATOR)
}

/// Every name's bytes, concatenated in index order.
pub open spec fn names_bytes(names: Seq<Seq<u16>>) -> Seq<u8>
    decreases names.len(),
{
    if names.len() == 0 {
        Seq::empty()
    } else {
        names_bytes(names.drop_last()) + name_bytes(names.last())
    }
}

/// The record that replaces a name stored inline: stub, terminator, zeroes.
pub open spec fn stub_record(idx: u32, bytes: nat) -> Seq<u8> {
    be16_bytes(spec_stub_word(idx)) + be16_bytes(TERMINATOR) + Seq::new((bytes - 4) as nat, |i: int| 0u8)
}

/// The stub blob: one `STUB_STRIDE`-byte record per index below `n`.
pub open spec fn stubs_bytes(n: nat) -> Seq<u8>
    decreases n,
{
    if n == 0 {
        Seq::empty()
    } else {
        stubs_bytes((n - 1) as nat) + stub_record((n - 1) as u32, STUB_STRIDE as nat)
    }
}

pub open spec fn align4(x: int) -> int {
    (x + 3) / 4 * 4
}

/// Offsets of the pieces of an emitted bank holding `names`.
pub open spec fn strings_at(names: Seq<Seq<u16>>) -> int {
    names.len() * STUB_STRIDE
}

pub open spec fn empty_at(names: Seq<Seq<u16>>) -> int {
    strings_at(names) + names_bytes(names).len()
}

pub open spec fn ptrs_at(names: Seq<Seq<u16>>) -> int {
    align4(empty_at(names) + 2)
}

/// Where entry `i` of `longNamePtrs` points: name `i`, or the empty string.
pub open spec fn ptr_entry(names: Seq<Seq<u16>>, base: u32, i: int) -> u32 {
    if i < names.len() {
        (base + strings_at(names) + names_bytes(names.take(i)).len()) as u32
    } else {
        (base + empty_at(names)) as u32
    }
}

/// The bytes `emit` lays out for `names` at `base`.
pub open spec fn bank_bytes(names: Seq<Seq<u16>>, base: u32) -> Seq<u8> {
    stubs_bytes(names.len()) + names_bytes(names) + be16_bytes(TERMINATOR)
        + Seq::new((ptrs_at(names) - empty_at(names) - 2) as nat, |i: int| 0u8)
        + Seq::new(LONG_NAME_INDICES as nat, |i: int| be32_bytes(ptr_entry(names, base, i))).flatten()
}

/// Total size of an emitted bank.
pub open spec fn bank_len(names: Seq<Seq<u16>>) -> int {
    ptrs_at(names) + 4 * LONG_NAME_INDICES
}

pub struct LongNameBank {
    /// the names themselves, each terminated, concatenated.
    strings: Vec<u8>,
    /// per index, the byte offset of its name within `strings`.
    offsets: Vec<u32>,
    /// the names, as the codes they were interned with
    names: Ghost<Seq<Seq<u16>>>,
}

impl View for LongNameBank {
    type V = Seq<Seq<u16>>;

    closed spec fn view(&self) -> Seq<Seq<u16>> {
        self.names@
    }
}

/// Every name fits the glyph cap and does not begin with a redirect.
pub open spec fn names_ok(names: Seq<Seq<u16>>) -> bool {
    &&& names.len() <= LONG_NAME_INDICES
    &&& forall|i: int| 0 <= i < names.len() ==> (#[trigger] names[i]).len() <= LONG_NAME_GLYPHS
    &&& forall|i: int| 0 <= i < names.len() && (#[trigger] names[i]).len() > 0 ==> !spec_is_redirect(names[i][0])
}

proof fn lemma_names_bytes_len(names: Seq<Seq<u16>>)
    requires
        forall|i: int| 0 <= i < names.len() ==> (#[trigger] names[i]).len() <= LONG_NAME_GLYPHS,
    ensures
        names_bytes(names).len() <= 34 * names.len(),
        names_bytes(names).len() % 2 == 0,
    decreases names.len(),
{
    if names.len() > 0 {
        assert forall|i: int| 0 <= i < names.drop_last().len() implies (#[trigger] names.drop_last()[i]).len()
            <= LONG_NAME_GLYPHS by {
            assert(names.drop_last()[i] == names[i]);
        }
        lemma_names_bytes_len(names.drop_last());
        lemma_be16_seq_len(names.last());
    }
}

impl LongNameBank {
    /// The bank's bytes and offsets describe exactly its names, and the names
    /// respect the cap and the chain rule.
    pub closed spec fn wf(&self) -> bool {
        &&& names_ok(self.names@)
        &&& self.offsets@.len() == self.names@.len()
        &&& self.strings@ == names_bytes(self.names@)
        &&& forall|i: int| 0 <= i < self.offsets@.len() ==> #[trigger] self.offsets@[i] == names_bytes(
            self.names@.take(i),
        ).len()
    }

    pub fn new() -> (b: LongNameBank)
        ensures
            b.wf(),
            b@ == Seq::<Seq<u16>>::empty(),
    {
        LongNameBank { strings: Vec::new(), offsets: Vec::new(), names: Ghost(Seq::empty()) }
    }

    /// Take a name into the bank. Returns its index, which is both the stub's
    /// argument and its position in the stub blob.
    pub fn intern(&mut self, codes: &[u16]) -> (r: Result<u32, BankError>)
        requires
            old(self).wf(),
        ensures
            final(self).wf(),
            names_ok(final(self)@),
            codes@.len() > LONG_NAME_GLYPHS ==> r == Err::<u32, BankError>(BankError::TooLong { glyphs: codes@.len() as usize }),
            codes@.len() <= LONG_NAME_GLYPHS && codes@.len() > 0 && spec_is_redirect(codes@[0])
                ==> r == Err::<u32, BankError>(BankError::BeginsWithRedirect),
            codes@.len() <= LONG_NAME_GLYPHS && !(codes@.len() > 0 && spec_is_redirect(codes@[0]))
                && old(self)@.len() >= LONG_NAME_INDICES ==> r == Err::<u32, BankError>(BankError::Full),
            codes@.len() <= LONG_NAME_GLYPHS && !(codes@.len() > 0 && spec_is_redirect(codes@[0]))
                && old(self)@.len() < LONG_NAME_INDICES ==> r == Ok::<u32, BankError>(old(self)@.len() as u32)
                && final(self)@ == old(self)@.push(codes@),
            r is Err ==> final(self)@ == old(self)@,
    {
        if codes.len() > LONG_NAME_GLYPHS {
            return Err(BankError::TooLong { glyphs: codes.len() });
        }
        // a name starting with a redirect would send the cave straight back
        // into its own loop head with a cursor it has already followed
        if codes.len() > 0 && is_redirect(codes[0]) {
            return Err(BankError::BeginsWithRedirect);
        }
        let n = self.offsets.len();
        if n >= LONG_NAME_INDICES as usize {
            return Err(BankError::Full);
        }
        let idx = n as u32;
        proof {
            lemma_names_bytes_len(self.names@);
        }
        let ghost old_names = self.names@;
        let ghost new_names = old_names.push(codes@);
        let at = self.strings.len() as u32;
        self.offsets.push(at);
        let ghost start = self.strings@;
        let ghost offs = self.offsets@;
        let mut i: usize = 0;
        while i < codes.len()
            invariant
                i <= codes@.len(),
                self.strings@ == start + be16_seq(codes@.take(i as int)),
                self.offsets@ == offs,
                self.names == old(self).names,
            decreases codes@.len() - i,
        {
            push_be16(&mut self.strings, codes[i]);
            proof {
                let t = codes@.take(i + 1);
                assert(t.drop_last() =~= codes@.take(i as int));
                assert(t.last() == codes@[i as int]);
            }
            i = i + 1;
        }
        push_be16(&mut self.strings, TERMINATOR);
        proof {
            assert(codes@.take(codes@.len() as int) =~= codes@);
            assert(new_names.drop_last() =~= old_names);
            assert(self.strings@ =~= names_bytes(new_names));
            assert forall|k: int| 0 <= k < self.offsets@.len() implies #[trigger] self.offsets@[k] == names_bytes(
                new_names.take(k),
            ).len() by {
                if k < old_names.len() {
                    assert(new_names.take(k) =~= old_names.take(k));
                } else {
                    assert(new_names.take(k) =~= old_names);
                }
            }
            assert forall|k: int| 0 <= k < new_names.len() && (#[trigger] new_names[k]).len() > 0
                implies !spec_is_redirect(new_names[k][0]) by {
                if k < old_names.len() {
                    assert(new_names[k] == old_names[k]);
                }
            }
            assert forall|k: int| 0 <= k < new_names.len() implies (#[trigger] new_names[k]).len()
                <= LONG_NAME_GLYPHS by {
                if k < old_names.len() {
                    assert(new_names[k] == old_names[k]);
                }
            }
        }
        self.names = Ghost(new_names);
        Ok(idx)
    }

    /// The bytes that replace a name wherever it is stored inline: the stub,
    /// then zeroes out to whatever width the copy moves.
    pub fn record(idx: u32, bytes: usize) -> (out: Vec<u8>)
        requires
            bytes >= 4,
        ensures
            out@ == stub_record(idx, bytes as nat),
            out@.len() == bytes,
    {
        let mut out: Vec<u8> = Vec::new();
        push_be16(&mut out, stub_word(idx));
        push_be16(&mut out, TERMINATOR);
        let ghost head = out@;
        let mut i: usize = 4;
        while i < bytes
            invariant
                4 <= i <= bytes,
                out@ == head + Seq::new((i - 4) as nat, |k: int| 0u8),
            decreases bytes - i,
        {
            out.push(0u8);
            proof {
                assert(out@ =~= head + Seq::new((i + 1 - 4) as nat, |k: int| 0u8));
            }
            i = i + 1;
        }
        out
    }

    /// RAM of the stub that stands in for name `idx`.
    pub fn stub_ram(base_ram: u32, idx: u32) -> (r: u32)
        requires
            base_ram + idx * STUB_STRIDE <= u32::MAX,
        ensures
            r == base_ram + idx * STUB_STRIDE,
    {
        base_ram + idx * STUB_STRIDE as u32
    }

    /// Size in bytes of what `emit` lays out; the stubs come first, so it is
    /// at least a stub per name.
    pub fn emit_len(&self) -> (n: usize)
        requires
            self.wf(),
        ensures
            n == bank_len(self@),
            n >= self@.len() * STUB_STRIDE,
    {
        proof {
            lemma_names_bytes_len(self.names@);
        }
        let empty_at = self.offsets.len() * STUB_STRIDE + self.strings.len();
        (empty_at + 2 + 3) / 4 * 4 + 4 * LONG_NAME_INDICES as usize
    }

    /// Lay the bank out at `base_ram` and return its bytes.
    ///
    /// ```text
    ///   +0000  stubs         STUB_STRIDE each, one per interned name
    ///   +....  strings       the names, terminated
    ///   +....  empty         one 0xF800 word
    ///   +....  ptrs[0x800]   u32, every entry resolved
    /// ```
    ///
    /// The table is fully populated: an index nobody claimed points at `empty`.
    pub fn emit(&self, base_ram: u32) -> (r: (Vec<u8>, BankLayout))
        requires
            self.wf(),
            base_ram + bank_len(self@) <= u32::MAX,
        ensures
            r.0@ == bank_bytes(self@, base_ram),
            r.0@.len() == bank_len(self@),
            r.1.ptrs == base_ram + ptrs_at(self@),
    {
        proof {
            lemma_names_bytes_len(self.names@);
            lemma_stubs_len(self.names@.len());
        }
        let ghost names = self.names@;
        let n = self.offsets.len();
        let stubs_len = n * STUB_STRIDE;
        let strings_at = stubs_len;
        let empty_at = strings_at + self.strings.len();
        let ptrs_at = (empty_at + 2 + 3) / 4 * 4;

        let mut out: Vec<u8> = Vec::new();
        let mut idx: usize = 0;
        while idx < n
            invariant
                idx <= n,
                n == names.len(),
                n <= LONG_NAME_INDICES,
                out@ == stubs_bytes(idx as nat),
            decreases n - idx,
        {
            let rec = LongNameBank::record(idx as u32, STUB_STRIDE);
            append_bytes(&mut out, rec.as_slice());
            idx = idx + 1;
            proof {
                assert(out@ =~= stubs_bytes(idx as nat));
            }
        }
        append_bytes(&mut out, self.strings.as_slice());
        push_be16(&mut out, TERMINATOR);
        let ghost before_pad = out@;
        while out.len() < ptrs_at
            invariant
                before_pad.len() <= out@.len() <= ptrs_at,
                before_pad.len() == empty_at + 2,
                out@ == before_pad + Seq::new((out@.len() - before_pad.len()) as nat, |k: int| 0u8),
            decreases ptrs_at - out@.len(),
        {
            out.push(0u8);
            proof {
                assert(out@ =~= before_pad + Seq::new((out@.len() - before_pad.len()) as nat, |k: int| 0u8));
            }
        }
        let ghost before_ptrs = out@;
        let ghost table = Seq::new(LONG_NAME_INDICES as nat, |k: int| be32_bytes(ptr_entry(names, base_ram, k)));
        let empty_ram = base_ram + empty_at as u32;
        let mut i: usize = 0;
        while i < LONG_NAME_INDICES as usize
            invariant
                i <= LONG_NAME_INDICES,
                n == names.len(),
                n == self.offsets@.len(),
                self.wf(),
                names == self.names@,
                empty_ram == base_ram + empty_at,
                empty_at == n * STUB_STRIDE + names_bytes(names).len(),
                strings_at == n * STUB_STRIDE,
                base_ram + ptrs_at + 4 * LONG_NAME_INDICES <= u32::MAX,
                ptrs_at >= empty_at + 2,
                table == Seq::new(LONG_NAME_INDICES as nat, |k: int| be32_bytes(ptr_entry(names, base_ram, k))),
                out@ == before_ptrs + table.take(i as int).flatten(),
            decreases LONG_NAME_INDICES - i,
        {
            let ram = if i < n {
                proof {
                    lemma_names_bytes_prefix_len(names, i as int);
                }
                base_ram + strings_at as u32 + self.offsets[i]
            } else {
                empty_ram
            };
            push_be32(&mut out, ram);
            proof {
                assert(table.take(i + 1) =~= table.take(i as int).push(be32_bytes(ram)));
                table.take(i as int).lemma_flatten_push(be32_bytes(ram));
            }
            i = i + 1;
        }
        proof {
            assert(table.take(LONG_NAME_INDICES as int) =~= table);
            lemma_flatten_len_4(table);
            lemma_stubs_len(n as nat);
            assert(out@ =~= bank_bytes(names, base_ram));
        }
        (out, BankLayout { ptrs: base_ram + ptrs_at as u32 })
    }
}

proof fn lemma_names_bytes_prefix_len(names: Seq<Seq<u16>>, i: int)
    requires
        0 <= i <= names.len(),
    ensures
        names_bytes(names.take(i)).len() <= names_bytes(names).len(),
    decreases names.len() - i,
{
    if i < names.len() {
        lemma_names_bytes_prefix_len(names, i + 1);
        let t = names.take(i + 1);
        assert(t.drop_last() =~= names.take(i));
    } else {
        assert(names.take(i) =~= names);
    }
}

proof fn lemma_stubs_len(n: nat)
    ensures
        stubs_bytes(n).len() == n * STUB_STRIDE,
    decreases n,
{
    if n > 0 {
        lemma_stubs_len((n - 1) as nat);
    }
}

pub proof fn lemma_flatten_len_4(s: Seq<Seq<u8>>)
    requires
        forall|i: int| 0 <= i < s.len() ==> #[trigger] s[i].len() == 4,
    ensures
        s.flatten().len() == 4 * s.len(),
    decreases s.len(),
{
    if s.len() > 0 {
        lemma_flatten_len_4(s.drop_last());
        s.drop_last().lemma_flatten_push(s.last());
        assert(s.drop_last().push(s.last()) =~= s);
    }
}

/// Append every byte of `src` to `out`.
pub fn append_bytes(out: &mut Vec<u8>, src: &[u8])
    ensures
        final(out)@ == old(out)@ + src@,
{
    let mut i: usize = 0;
    let ghost start = out@;
    while i < src.len()
        invariant
            i <= src@.len(),
            out@ == start + src@.take(i as int),
        decreases src@.len() - i,
    {
        out.push(src[i]);
        proof {
            assert(src@.take(i + 1) =~= src@.take(i as int).push(src@[i as int]));
        }
        i = i + 1;
    }
    assert(src@.take(src@.len() as int) =~= src@);
}

/// The bytes of the first `j` names open the bytes of all of them.
proof fn lemma_names_bytes_prefix(names: Seq<Seq<u16>>, j: int)
    requires
        0 <= j <= names.len(),
    ensures
        names_bytes(names.take(j)).len() <= names_bytes(names).len(),
        names_bytes(names).subrange(0, names_bytes(names.take(j)).len() as int) == names_bytes(names.take(j)),
    decreases names.len() - j,
{
    if j == names.len() {
        assert(names.take(j) =~= names);
        assert(names_bytes(names).subrange(0, names_bytes(names).len() as int) =~= names_bytes(names));
    } else {
        lemma_names_bytes_prefix(names, j + 1);
        let t = names.take(j + 1);
        assert(t.drop_last() =~= names.take(j));
        let a = names_bytes(names.take(j));
        let b = names_bytes(t);
        assert(b == a + name_bytes(names[j]));
        assert(names_bytes(names).subrange(0, a.len() as int) =~= b.subrange(0, a.len() as int));
        assert(b.subrange(0, a.len() as int) =~= a);
    }
}

/// Name `i`'s bytes sit at its offset in the concatenation.
proof fn lemma_name_at_offset(names: Seq<Seq<u16>>, i: int)
    requires
        0 <= i < names.len(),
    ensures
        ({
            let off = names_bytes(names.take(i)).len() as int;
            &&& off + name_bytes(names[i]).len() <= names_bytes(names).len()
            &&& names_bytes(names).subrange(off, off + name_bytes(names[i]).len()) == name_bytes(names[i])
        }),
{
    lemma_names_bytes_prefix(names, i + 1);
    let t = names.take(i + 1);
    assert(t.drop_last() =~= names.take(i));
    let a = names_bytes(names.take(i));
    let b = names_bytes(t);
    assert(b == a + name_bytes(names[i]));
    let off = a.len() as int;
    assert(names_bytes(names).subrange(off, off + name_bytes(names[i]).len()) =~= b.subrange(
        off,
        off + name_bytes(names[i]).len(),
    ));
    assert(b.subrange(off, off + name_bytes(names[i]).len()) =~= name_bytes(names[i]));
}

/// Stub `i` is the `i`-th record of the stub blob.
proof fn lemma_stub_at(n: nat, i: int)
    requires
        0 <= i < n,
    ensures
        stubs_bytes(n).len() == n * STUB_STRIDE,
        stubs_bytes(n).subrange(i * STUB_STRIDE, i * STUB_STRIDE + STUB_STRIDE) == stub_record(
            i as u32,
            STUB_STRIDE as nat,
        ),
    decreases n,
{
    lemma_stubs_len(n);
    lemma_stubs_len((n - 1) as nat);
    let prev = stubs_bytes((n - 1) as nat);
    if i < n - 1 {
        lemma_stub_at((n - 1) as nat, i);
        assert(stubs_bytes(n).subrange(i * STUB_STRIDE, i * STUB_STRIDE + STUB_STRIDE) =~= prev.subrange(
            i * STUB_STRIDE,
            i * STUB_STRIDE + STUB_STRIDE,
        ));
    } else {
        assert(stubs_bytes(n).subrange(i * STUB_STRIDE, i * STUB_STRIDE + STUB_STRIDE) =~= stub_record(
            i as u32,
            STUB_STRIDE as nat,
        ));
    }
}

/// Every entry of `longNamePtrs` resolves into the bank: entry `i` is a word
/// of the table, and it points at name `i`'s terminated codes when `i` was
/// interned and at a bare terminator when it was not; and stub `i` opens with
/// the redirect word for `i`.
#[verifier::spinoff_prover]
#[verifier::rlimit(40)]
pub proof fn lemma_bank_pointers_resolve(names: Seq<Seq<u16>>, base: u32, i: int)
    requires
        names_ok(names),
        base + bank_len(names) <= u32::MAX,
        0 <= i < LONG_NAME_INDICES,
    ensures
        ({
            let bytes = bank_bytes(names, base);
            let at = ptr_entry(names, base, i) - base;
            &&& bytes.len() == bank_len(names)
            &&& crate::bytes::spec_u32_at(bytes, ptrs_at(names) + 4 * i) == Some(ptr_entry(names, base, i))
            &&& i < names.len() ==> bytes.subrange(at, at + name_bytes(names[i]).len()) == name_bytes(names[i])
            &&& i >= names.len() ==> crate::bytes::spec_u16_at(bytes, at) == Some(TERMINATOR)
            &&& i < names.len() ==> crate::bytes::spec_u16_at(bytes, i * STUB_STRIDE) == Some(spec_stub_word(i as u32))
        }),
{
    let n = names.len();
    let bytes = bank_bytes(names, base);
    let stubs = stubs_bytes(n);
    let nb = names_bytes(names);
    let pad = Seq::new((ptrs_at(names) - empty_at(names) - 2) as nat, |k: int| 0u8);
    let table = Seq::new(LONG_NAME_INDICES as nat, |k: int| be32_bytes(ptr_entry(names, base, k)));
    lemma_stubs_len(n);
    lemma_names_bytes_len(names);
    lemma_flatten_len_4(table);
    let head = stubs + nb + be16_bytes(TERMINATOR) + pad;
    assert(bytes =~= head + table.flatten());
    assert(head.len() == ptrs_at(names));
    // the table word
    lemma_table_word(table, i);
    assert(bytes.subrange(ptrs_at(names) + 4 * i, ptrs_at(names) + 4 * i + 4) =~= table.flatten().subrange(
        4 * i,
        4 * i + 4,
    ));
    crate::bytes::lemma_be32_roundtrip(ptr_entry(names, base, i));
    assert(bytes[ptrs_at(names) + 4 * i] == table.flatten()[4 * i]);
    assert(bytes[ptrs_at(names) + 4 * i + 1] == table.flatten()[4 * i + 1]);
    assert(bytes[ptrs_at(names) + 4 * i + 2] == table.flatten()[4 * i + 2]);
    assert(bytes[ptrs_at(names) + 4 * i + 3] == table.flatten()[4 * i + 3]);
    if i < n {
        lemma_name_at_offset(names, i);
        let off = names_bytes(names.take(i)).len() as int;
        let at = strings_at(names) + off;
        assert(ptr_entry(names, base, i) - base == at);
        assert(bytes.subrange(at, at + name_bytes(names[i]).len()) =~= nb.subrange(
            off,
            off + name_bytes(names[i]).len(),
        ));
        lemma_stub_at(n, i);
        assert(bytes.subrange(i * STUB_STRIDE, i * STUB_STRIDE + STUB_STRIDE) =~= stubs.subrange(
            i * STUB_STRIDE,
            i * STUB_STRIDE + STUB_STRIDE,
        ));
        let rec = stub_record(i as u32, STUB_STRIDE as nat);
        assert(bytes[i * STUB_STRIDE] == rec[0]);
        assert(bytes[i * STUB_STRIDE + 1] == rec[1]);
        crate::bytes::lemma_be16_roundtrip(spec_stub_word(i as u32));
    } else {
        let at = empty_at(names);
        assert(ptr_entry(names, base, i) - base == at);
        assert(bytes[at] == be16_bytes(TERMINATOR)[0]);
        assert(bytes[at + 1] == be16_bytes(TERMINATOR)[1]);
    }
}

/// Every interned name can be followed from its `longNamePtrs` entry: the
/// halfwords there are the name's codes, in order, and right after them the
/// terminator, so no name runs into the next.
pub proof fn lemma_bank_names_terminated(names: Seq<Seq<u16>>, base: u32, i: int)
    requires
        names_ok(names),
        base + bank_len(names) <= u32::MAX,
        0 <= i < names.len(),
    ensures
        ({
            let bytes = bank_bytes(names, base);
            let at = ptr_entry(names, base, i) - base;
            &&& crate::bytes::spec_u32_at(bytes, ptrs_at(names) + 4 * i) == Some(ptr_entry(names, base, i))
            &&& forall|k: int| 0 <= k < names[i].len() ==> #[trigger] crate::bytes::spec_u16_at(bytes, at + 2 * k) == Some(names[i][k])
            &&& crate::bytes::spec_u16_at(bytes, at + 2 * names[i].len()) == Some(TERMINATOR)
        }),
{
    lemma_bank_pointers_resolve(names, base, i);
    lemma_name_at_offset(names, i);
    lemma_names_bytes_len(names);
    let off = names_bytes(names.take(i)).len() as int;
    assert(empty_at(names) + 2 <= ptrs_at(names)) by {
        let e = empty_at(names) + 2;
        assert(e <= (e + 3) / 4 * 4) by (nonlinear_arith);
    }
    assert(base + strings_at(names) + off <= u32::MAX);
    assert(ptr_entry(names, base, i) - base == strings_at(names) + off);
    lemma_name_halfwords(bank_bytes(names, base), ptr_entry(names, base, i) - base, names[i]);
}

/// A name's bytes found at `at` read as its codes, then the terminator.
proof fn lemma_name_halfwords(bytes: Seq<u8>, at: int, name: Seq<u16>)
    requires
        0 <= at,
        at + name_bytes(name).len() <= bytes.len(),
        bytes.subrange(at, at + name_bytes(name).len()) == name_bytes(name),
    ensures
        forall|k: int| 0 <= k < name.len() ==> #[trigger] crate::bytes::spec_u16_at(bytes, at + 2 * k) == Some(name[k]),
        crate::bytes::spec_u16_at(bytes, at + 2 * name.len()) == Some(TERMINATOR),
{
    let nb = name_bytes(name);
    crate::bytes::lemma_be16_seq_len(name);
    crate::bytes::lemma_codes_then(Seq::empty(), name, TERMINATOR, Seq::empty());
    assert(Seq::<u8>::empty() + be16_seq(name) + be16_bytes(TERMINATOR) + Seq::<u8>::empty() =~= nb);
    let sub = bytes.subrange(at, at + nb.len());
    assert forall|k: int| 0 <= k < name.len() implies #[trigger] crate::bytes::spec_u16_at(bytes, at + 2 * k) == Some(name[k]) by {
        assert(crate::bytes::spec_u16_at(nb, 0 + 2 * k) == Some(name[k]));
        assert(bytes[at + 2 * k] == sub[2 * k]);
        assert(bytes[at + 2 * k + 1] == sub[2 * k + 1]);
    }
    let e: int = 2 * name.len() as int;
    assert(crate::bytes::spec_u16_at(nb, 0 + e) == Some(TERMINATOR));
    assert(bytes[at + e] == sub[e]);
    assert(bytes[at + e + 1] == sub[e + 1]);
}

/// The bank opens with one stub per name, stub `i` being the record
/// `record(i, STUB_STRIDE)` writes, and its pointer table is word-aligned
/// within it.
pub proof fn lemma_bank_stubs(names: Seq<Seq<u16>>, base: u32, i: int)
    requires
        names_ok(names),
        0 <= i < names.len(),
    ensures
        bank_bytes(names, base).subrange(i * STUB_STRIDE, i * STUB_STRIDE + STUB_STRIDE) == stub_record(i as u32, STUB_STRIDE as nat),
        ptrs_at(names) % 4 == 0,
{
    let n = names.len();
    let stubs = stubs_bytes(n);
    lemma_stub_at(n, i);
    let rest = names_bytes(names) + be16_bytes(TERMINATOR) + Seq::new((ptrs_at(names) - empty_at(names) - 2) as nat, |k: int| 0u8)
        + Seq::new(LONG_NAME_INDICES as nat, |k: int| be32_bytes(ptr_entry(names, base, k))).flatten();
    assert(bank_bytes(names, base) =~= stubs + rest);
    assert(bank_bytes(names, base).subrange(i * STUB_STRIDE, i * STUB_STRIDE + STUB_STRIDE) =~= stubs.subrange(
        i * STUB_STRIDE,
        i * STUB_STRIDE + STUB_STRIDE,
    )) by {
        assert(i * STUB_STRIDE + STUB_STRIDE <= n * STUB_STRIDE) by (nonlinear_arith)
            requires
                i < n,
        ;
    }
    let e = empty_at(names) + 2;
    assert((e + 3) / 4 * 4 % 4 == 0) by (nonlinear_arith);
}

proof fn lemma_table_word(table: Seq<Seq<u8>>, i: int)
    requires
        forall|k: int| 0 <= k < table.len() ==> #[trigger] table[k].len() == 4,
        0 <= i < table.len(),
    ensures
        table.flatten().len() == 4 * table.len(),
        table.flatten().subrange(4 * i, 4 * i + 4) == table[i],
    decreases table.len(),
{
    lemma_flatten_len_4(table);
    let init = table.drop_last();
    lemma_flatten_len_4(init);
    init.lemma_flatten_push(table.last());
    assert(init.push(table.last()) =~= table);
    if i < table.len() - 1 {
        lemma_table_word(init, i);
        assert(table.flatten().subrange(4 * i, 4 * i + 4) =~= init.flatten().subrange(4 * i, 4 * i + 4));
    } else {
        assert(table.flatten().subrange(4 * i, 4 * i + 4) =~= table.last());
    }
}

} // verus!
