//! The DOL executable header: eighteen sections and the BSS/entry fields, and
//! the mapping between RAM addresses and file offsets it implies.

use vstd::prelude::*;
use crate::bytes::{be32_bytes, spec_u32_at, u32at, push_be32};

verus! {

/// text0..text6 then data0..data10, the order they appear on disk
pub const SECTIONS: usize = 18;
/// the first data section: everything below it is instructions
pub const DATA0: usize = 7;
/// the last section the retail DOL ships; data8 is appended right after it
pub const DATA7: usize = 14;
/// the translation bank, empty on the original ROM
pub const DATA8: usize = 15;
/// the redirect caves. Empty on retail, and a text section rather than a
/// corner of data8 because the DOL loader invalidates icache per text section.
pub const TEXT2: usize = 2;
/// 18 offsets, 18 addresses, 18 sizes, then bss address, bss size and entry
pub const HEADER_WORDS: usize = 57;
/// bytes `read` consumes
pub const HEADER_READ_BYTES: usize = 228;
/// bytes `write` produces: the words, padded to 0x100
pub const HEADER_BYTES: usize = 256;

#[derive(Clone, Copy, Debug, PartialEq, Eq, Structural)]
pub struct Section {
    pub file: u32,
    pub ram: u32,
    pub size: u32,
}

impl Section {
    /// Whether `ram` lies inside this section's RAM image.
    pub open spec fn holds_ram(self, ram: u32) -> bool {
        self.size != 0 && self.ram <= ram && ram - self.ram < self.size
    }

    /// Whether file offset `off` lies inside this section's file image.
    pub open spec fn holds_file(self, off: u32) -> bool {
        self.size != 0 && self.file <= off && off - self.file < self.size
    }

    /// Neither image runs past the 32-bit address space.
    pub open spec fn fits(self) -> bool {
        self.file + self.size <= 0x1_0000_0000 && self.ram + self.size <= 0x1_0000_0000
    }
}

#[derive(Debug)]
pub struct DolHeader {
    pub sections: Vec<Section>,
    pub bss_address: u32,
    pub bss_size: u32,
    pub entry_point: u32,
}

/// Why a header could not be read.
#[derive(Debug, Clone, Copy, PartialEq, Eq, Structural)]
pub enum HeaderError {
    /// fewer than `HEADER_READ_BYTES` bytes were supplied
    Truncated,
}

/// Word `i` of a raw header.
pub open spec fn raw_word(raw: Seq<u8>, i: int) -> u32 {
    spec_u32_at(raw, 4 * i).unwrap()
}

/// The first section of `secs`, from index `i` on, whose RAM image holds
/// `ram`, translated to a file offset.
pub open spec fn find_file_offset(secs: Seq<Section>, ram: u32, i: int) -> Option<u32>
    decreases secs.len() - i,
{
    if i < 0 || i >= secs.len() {
        None
    } else if secs[i].holds_ram(ram) {
        Some((secs[i].file + (ram - secs[i].ram)) as u32)
    } else {
        find_file_offset(secs, ram, i + 1)
    }
}

/// The first section whose RAM image holds `ram`, if any, maps it to a file
/// offset that fits in 32 bits.
pub open spec fn ram_maps_within(secs: Seq<Section>, ram: u32) -> bool {
    forall|i: int|
        0 <= i < secs.len() && (#[trigger] secs[i]).holds_ram(ram) && (forall|m: int| 0 <= m < i ==> !(#[trigger] secs[m]).holds_ram(ram))
            ==> secs[i].file + (ram - secs[i].ram) <= u32::MAX
}

/// The first section whose file image holds `off`, if any, maps it to a RAM
/// address that fits in 32 bits.
pub open spec fn file_maps_within(secs: Seq<Section>, off: u32) -> bool {
    forall|i: int|
        0 <= i < secs.len() && (#[trigger] secs[i]).holds_file(off) && (forall|m: int| 0 <= m < i ==> !(#[trigger] secs[m]).holds_file(off))
            ==> secs[i].ram + (off - secs[i].file) <= u32::MAX
}

/// Sections that fit in 32 bits map every address within them.
pub broadcast proof fn lemma_fits_ram_maps(secs: Seq<Section>, ram: u32)
    requires
        forall|i: int| 0 <= i < secs.len() ==> #[trigger] secs[i].fits(),
    ensures
        #[trigger] ram_maps_within(secs, ram),
{
    assert forall|i: int| 0 <= i < secs.len() && (#[trigger] secs[i]).holds_ram(ram) implies secs[i].file + (ram - secs[i].ram) <= u32::MAX by {
        assert(secs[i].fits());
    }
}

/// Sections that fit in 32 bits map every offset within them.
pub broadcast proof fn lemma_fits_file_maps(secs: Seq<Section>, off: u32)
    requires
        forall|i: int| 0 <= i < secs.len() ==> #[trigger] secs[i].fits(),
    ensures
        #[trigger] file_maps_within(secs, off),
{
    assert forall|i: int| 0 <= i < secs.len() && (#[trigger] secs[i]).holds_file(off) implies secs[i].ram + (off - secs[i].file) <= u32::MAX by {
        assert(secs[i].fits());
    }
}

/// The first section of `secs`, from index `i` on, whose file image holds
/// `off`, translated to a RAM address.
pub open spec fn find_ram_addr(secs: Seq<Section>, off: u32, i: int) -> Option<u32>
    decreases secs.len() - i,
{
    if i < 0 || i >= secs.len() {
        None
    } else if secs[i].holds_file(off) {
        Some((secs[i].ram + (off - secs[i].file)) as u32)
    } else {
        find_ram_addr(secs, off, i + 1)
    }
}

/// The bytes `write` produces for a header with these fields.
pub open spec fn header_bytes(secs: Seq<Section>, bss_address: u32, bss_size: u32, entry: u32) -> Seq<u8> {
    Seq::new(SECTIONS as nat, |i: int| be32_bytes(secs[i].file)).flatten()
        + Seq::new(SECTIONS as nat, |i: int| be32_bytes(secs[i].ram)).flatten()
        + Seq::new(SECTIONS as nat, |i: int| be32_bytes(secs[i].size)).flatten()
        + be32_bytes(bss_address) + be32_bytes(bss_size) + be32_bytes(entry)
        + Seq::new(28, |i: int| 0u8)
}

impl DolHeader {
    /// Eighteen sections, as the format has.
    pub open spec fn wf(&self) -> bool {
        self.sections@.len() == SECTIONS
    }

    /// Every section's images stay inside the 32-bit address space, so the
    /// address arithmetic below cannot wrap.
    pub open spec fn fits(&self) -> bool {
        forall|i: int| 0 <= i < self.sections@.len() ==> #[trigger] self.sections@[i].fits()
    }

    pub open spec fn spec_file_offset(&self, ram: u32) -> Option<u32> {
        find_file_offset(self.sections@, ram, 0)
    }

    pub open spec fn spec_ram_addr(&self, off: u32) -> Option<u32> {
        find_ram_addr(self.sections@, off, 0)
    }

    pub open spec fn spec_data_start(&self) -> u32 {
        self.sections@[DATA0 as int].file
    }

    /// The header with every field zero.
    pub fn zeroed() -> (h: DolHeader)
        ensures
            h.wf(),
            h.fits(),
            forall|i: int| 0 <= i < SECTIONS ==> #[trigger] h.sections@[i] == (Section { file: 0, ram: 0, size: 0 }),
            h.bss_address == 0,
            h.bss_size == 0,
            h.entry_point == 0,
    {
        let mut sections: Vec<Section> = Vec::new();
        let mut i: usize = 0;
        while i < SECTIONS
            invariant
                i <= SECTIONS,
                sections@.len() == i,
                forall|j: int| 0 <= j < i ==> #[trigger] sections@[j] == (Section { file: 0, ram: 0, size: 0 }),
            decreases SECTIONS - i,
        {
            sections.push(Section { file: 0, ram: 0, size: 0 });
            i = i + 1;
        }
        DolHeader { sections, bss_address: 0, bss_size: 0, entry_point: 0 }
    }

    /// 18 offsets, 18 addresses, 18 sizes, then bss and the entry point
    pub fn read(raw: &[u8]) -> (r: Result<DolHeader, HeaderError>)
        ensures
            raw@.len() < HEADER_READ_BYTES <==> r is Err,
            r matches Ok(h) ==> {
                &&& h.wf()
                &&& forall|i: int| 0 <= i < SECTIONS ==> #[trigger] h.sections@[i] == (Section {
                    file: raw_word(raw@, i),
                    ram: raw_word(raw@, SECTIONS + i),
                    size: raw_word(raw@, 2 * SECTIONS + i),
                })
                &&& h.bss_address == raw_word(raw@, 3 * SECTIONS)
                &&& h.bss_size == raw_word(raw@, 3 * SECTIONS + 1)
                &&& h.entry_point == raw_word(raw@, 3 * SECTIONS + 2)
            },
    {
        if raw.len() < HEADER_READ_BYTES {
            return Err(HeaderError::Truncated);
        }
        let mut sections: Vec<Section> = Vec::new();
        let mut i: usize = 0;
        while i < SECTIONS
            invariant
                i <= SECTIONS,
                raw@.len() >= HEADER_READ_BYTES,
                sections@.len() == i,
                forall|j: int| 0 <= j < i ==> #[trigger] sections@[j] == (Section {
                    file: raw_word(raw@, j),
                    ram: raw_word(raw@, SECTIONS + j),
                    size: raw_word(raw@, 2 * SECTIONS + j),
                }),
            decreases SECTIONS - i,
        {
            let file = u32at(raw, 4 * i).unwrap();
            let ram = u32at(raw, 4 * (SECTIONS + i)).unwrap();
            let size = u32at(raw, 4 * (2 * SECTIONS + i)).unwrap();
            sections.push(Section { file, ram, size });
            i = i + 1;
        }
        let bss_address = u32at(raw, 4 * (3 * SECTIONS)).unwrap();
        let bss_size = u32at(raw, 4 * (3 * SECTIONS + 1)).unwrap();
        let entry_point = u32at(raw, 4 * (3 * SECTIONS + 2)).unwrap();
        Ok(DolHeader { sections, bss_address, bss_size, entry_point })
    }

    /// The 0x100 bytes of the header: the 57 words, zero padded.
    pub fn write(&self) -> (out: Vec<u8>)
        requires
            self.wf(),
        ensures
            out@ == header_bytes(self.sections@, self.bss_address, self.bss_size, self.entry_point),
            out@.len() == HEADER_BYTES,
    {
        let mut out: Vec<u8> = Vec::new();
        let ghost files = Seq::new(SECTIONS as nat, |i: int| be32_bytes(self.sections@[i].file));
        let ghost rams = Seq::new(SECTIONS as nat, |i: int| be32_bytes(self.sections@[i].ram));
        let ghost sizes = Seq::new(SECTIONS as nat, |i: int| be32_bytes(self.sections@[i].size));
        let mut i: usize = 0;
        while i < SECTIONS
            invariant
                self.wf(),
                i <= SECTIONS,
                out@ == files.take(i as int).flatten(),
                files == Seq::new(SECTIONS as nat, |k: int| be32_bytes(self.sections@[k].file)),
            decreases SECTIONS - i,
        {
            push_be32(&mut out, self.sections[i].file);
            proof {
                assert(files.take(i + 1) =~= files.take(i as int).push(be32_bytes(self.sections@[i as int].file)));
                files.take(i as int).lemma_flatten_push(be32_bytes(self.sections@[i as int].file));
            }
            i = i + 1;
        }
        assert(files.take(SECTIONS as int) =~= files);
        let ghost after_files = out@;
        i = 0;
        while i < SECTIONS
            invariant
                self.wf(),
                i <= SECTIONS,
                out@ == after_files + rams.take(i as int).flatten(),
                rams == Seq::new(SECTIONS as nat, |k: int| be32_bytes(self.sections@[k].ram)),
            decreases SECTIONS - i,
        {
            push_be32(&mut out, self.sections[i].ram);
            proof {
                assert(rams.take(i + 1) =~= rams.take(i as int).push(be32_bytes(self.sections@[i as int].ram)));
                rams.take(i as int).lemma_flatten_push(be32_bytes(self.sections@[i as int].ram));
                assert(out@ =~= after_files + rams.take(i + 1).flatten());
            }
            i = i + 1;
        }
        assert(rams.take(SECTIONS as int) =~= rams);
        let ghost after_rams = out@;
        i = 0;
        while i < SECTIONS
            invariant
                self.wf(),
                i <= SECTIONS,
                out@ == after_rams + sizes.take(i as int).flatten(),
                sizes == Seq::new(SECTIONS as nat, |k: int| be32_bytes(self.sections@[k].size)),
            decreases SECTIONS - i,
        {
            push_be32(&mut out, self.sections[i].size);
            proof {
                assert(sizes.take(i + 1) =~= sizes.take(i as int).push(be32_bytes(self.sections@[i as int].size)));
                sizes.take(i as int).lemma_flatten_push(be32_bytes(self.sections@[i as int].size));
                assert(out@ =~= after_rams + sizes.take(i + 1).flatten());
            }
            i = i + 1;
        }
        assert(sizes.take(SECTIONS as int) =~= sizes);
        push_be32(&mut out, self.bss_address);
        push_be32(&mut out, self.bss_size);
        push_be32(&mut out, self.entry_point);
        let ghost before_pad = out@;
        i = 0;
        while i < 28
            invariant
                i <= 28,
                out@ == before_pad + Seq::new(i as nat, |k: int| 0u8),
            decreases 28 - i,
        {
            out.push(0u8);
            proof {
                assert(out@ =~= before_pad + Seq::new((i + 1) as nat, |k: int| 0u8));
            }
            i = i + 1;
        }
        proof {
            lemma_flatten_len_4(files);
            lemma_flatten_len_4(rams);
            lemma_flatten_len_4(sizes);
        }
        out
    }

    /// Sections that hold bytes. An empty one has no file offset worth trusting.
    pub fn live(&self) -> (out: Vec<Section>)
        ensures
            out@ == self.sections@.filter(|s: Section| s.size != 0),
    {
        let mut out: Vec<Section> = Vec::new();
        let mut i: usize = 0;
        while i < self.sections.len()
            invariant
                i <= self.sections@.len(),
                out@ == self.sections@.take(i as int).filter(|s: Section| s.size != 0),
            decreases self.sections@.len() - i,
        {
            let s = self.sections[i];
            proof {
                let t = self.sections@.take(i + 1);
                assert(t.drop_last() =~= self.sections@.take(i as int));
                assert(t =~= self.sections@.take(i as int).push(s));
                self.sections@.take(i as int).lemma_filter_push(s, |s: Section| s.size != 0);
            }
            if s.size != 0 {
                out.push(s);
            }
            i = i + 1;
        }
        assert(self.sections@.take(self.sections@.len() as int) =~= self.sections@);
        out
    }

    /// Where the data sections start, and so whether an offset is instructions.
    pub fn data_start(&self) -> (r: u32)
        requires
            self.wf(),
        ensures
            r == self.spec_data_start(),
    {
        self.sections[DATA0].file
    }

    /// Whether every section fits the address space (see `fits`).
    pub fn check_fits(&self) -> (r: bool)
        ensures
            r == self.fits(),
    {
        let mut i: usize = 0;
        while i < self.sections.len()
            invariant
                i <= self.sections@.len(),
                forall|j: int| 0 <= j < i ==> #[trigger] self.sections@[j].fits(),
            decreases self.sections@.len() - i,
        {
            let s = self.sections[i];
            if s.file as u64 + s.size as u64 > 0x1_0000_0000 || s.ram as u64 + s.size as u64 > 0x1_0000_0000 {
                assert(!self.sections@[i as int].fits());
                return false;
            }
            i = i + 1;
        }
        true
    }

    /// The file offset that RAM address `ram` is loaded from, by the first
    /// non-empty section whose image holds it.
    pub fn file_offset(&self, ram: u32) -> (r: Option<u32>)
        requires
            ram_maps_within(self.sections@, ram),
        ensures
            r == self.spec_file_offset(ram),
    {
        let mut i: usize = 0;
        while i < self.sections.len()
            invariant
                i <= self.sections@.len(),
                ram_maps_within(self.sections@, ram),
                forall|m: int| 0 <= m < i ==> !(#[trigger] self.sections@[m]).holds_ram(ram),
                find_file_offset(self.sections@, ram, 0) == find_file_offset(self.sections@, ram, i as int),
            decreases self.sections@.len() - i,
        {
            let s = self.sections[i];
            if s.size != 0 && ram >= s.ram && ram - s.ram < s.size {
                return Some(s.file + (ram - s.ram));
            }
            i = i + 1;
        }
        None
    }

    /// The RAM address file offset `off` is loaded to, by the first non-empty
    /// section whose file image holds it.
    pub fn ram_addr(&self, off: u32) -> (r: Option<u32>)
        requires
            file_maps_within(self.sections@, off),
        ensures
            r == self.spec_ram_addr(off),
    {
        let mut i: usize = 0;
        while i < self.sections.len()
            invariant
                i <= self.sections@.len(),
                file_maps_within(self.sections@, off),
                forall|m: int| 0 <= m < i ==> !(#[trigger] self.sections@[m]).holds_file(off),
                find_ram_addr(self.sections@, off, 0) == find_ram_addr(self.sections@, off, i as int),
            decreases self.sections@.len() - i,
        {
            let s = self.sections[i];
            if s.size != 0 && off >= s.file && off - s.file < s.size {
                return Some(s.ram + (off - s.file));
            }
            i = i + 1;
        }
        None
    }
}

proof fn lemma_flatten_len_4(s: Seq<Seq<u8>>)
    requires
        forall|i: int| 0 <= i < s.len() ==> #[trigger] s[i].len() == 4,
    ensures
        s.flatten().len() == 4 * s.len(),
    decreases s.len(),
{
    if s.len() > 0 {
        lemma_flatten_len_4(s.drop_last());
        s.drop_last().lemma_flatten_push(s.last());
        assert(s.drop_last().push(s.last()) =~= s);
    }
}

proof fn lemma_flatten4_index(s: Seq<Seq<u8>>, j: int, k: int)
    requires
        forall|i: int| 0 <= i < s.len() ==> #[trigger] s[i].len() == 4,
        0 <= j < s.len(),
        0 <= k < 4,
    ensures
        s.flatten().len() == 4 * s.len(),
        s.flatten()[4 * j + k] == s[j][k],
    decreases s.len(),
{
    lemma_flatten_len_4(s);
    let init = s.drop_last();
    lemma_flatten_len_4(init);
    init.lemma_flatten_push(s.last());
    assert(init.push(s.last()) =~= s);
    if j < s.len() - 1 {
        lemma_flatten4_index(init, j, k);
    }
}

/// The section `read` builds from entry `i` of a raw header.
pub open spec fn raw_section(raw: Seq<u8>, i: int) -> Section {
    Section {
        file: raw_word(raw, i),
        ram: raw_word(raw, SECTIONS + i),
        size: raw_word(raw, 2 * SECTIONS + i),
    }
}

proof fn lemma_word_of_flatten(s: Seq<Seq<u8>>, vals: Seq<u32>, prefix: Seq<u8>, rest: Seq<u8>, j: int)
    requires
        s.len() == vals.len(),
        forall|i: int| 0 <= i < s.len() ==> #[trigger] s[i] == be32_bytes(vals[i]),
        0 <= j < s.len(),
        prefix.len() % 4 == 0,
    ensures
        raw_word(prefix + s.flatten() + rest, prefix.len() / 4 + j) == vals[j],
{
    assert forall|i: int| 0 <= i < s.len() implies #[trigger] s[i].len() == 4 by {}
    let all = prefix + s.flatten() + rest;
    let b = prefix.len() as int;
    lemma_flatten4_index(s, j, 0);
    lemma_flatten4_index(s, j, 1);
    lemma_flatten4_index(s, j, 2);
    lemma_flatten4_index(s, j, 3);
    assert(4 * (b / 4 + j) == b + 4 * j);
    assert(all[b + 4 * j] == s[j][0]);
    assert(all[b + 4 * j + 1] == s[j][1]);
    assert(all[b + 4 * j + 2] == s[j][2]);
    assert(all[b + 4 * j + 3] == s[j][3]);
    crate::bytes::lemma_be32_roundtrip(vals[j]);
}

/// Reading back the bytes `write` produces gives the header that was written:
/// every section and the three trailing words.
pub proof fn lemma_header_roundtrip(h: &DolHeader)
    requires
        h.wf(),
    ensures
        ({
            let raw = header_bytes(h.sections@, h.bss_address, h.bss_size, h.entry_point);
            &&& raw.len() >= HEADER_READ_BYTES
            &&& forall|i: int| 0 <= i < SECTIONS ==> #[trigger] raw_section(raw, i) == h.sections@[i]
            &&& raw_word(raw, 3 * SECTIONS) == h.bss_address
            &&& raw_word(raw, 3 * SECTIONS + 1) == h.bss_size
            &&& raw_word(raw, 3 * SECTIONS + 2) == h.entry_point
        }),
{
    let secs = h.sections@;
    let files = Seq::new(SECTIONS as nat, |i: int| be32_bytes(secs[i].file));
    let rams = Seq::new(SECTIONS as nat, |i: int| be32_bytes(secs[i].ram));
    let sizes = Seq::new(SECTIONS as nat, |i: int| be32_bytes(secs[i].size));
    let vf = Seq::new(SECTIONS as nat, |i: int| secs[i].file);
    let vr = Seq::new(SECTIONS as nat, |i: int| secs[i].ram);
    let vs = Seq::new(SECTIONS as nat, |i: int| secs[i].size);
    let tail = be32_bytes(h.bss_address) + be32_bytes(h.bss_size) + be32_bytes(h.entry_point)
        + Seq::new(28, |i: int| 0u8);
    let raw = header_bytes(secs, h.bss_address, h.bss_size, h.entry_point);
    lemma_flatten_len_4(files);
    lemma_flatten_len_4(rams);
    lemma_flatten_len_4(sizes);
    assert(raw =~= files.flatten() + rams.flatten() + sizes.flatten() + tail);
    let empty = Seq::<u8>::empty();
    assert forall|i: int| 0 <= i < SECTIONS implies #[trigger] raw_section(raw, i) == secs[i] by {
        assert(raw =~= empty + files.flatten() + (rams.flatten() + sizes.flatten() + tail));
        lemma_word_of_flatten(files, vf, empty, rams.flatten() + sizes.flatten() + tail, i);
        assert(raw =~= files.flatten() + rams.flatten() + (sizes.flatten() + tail));
        lemma_word_of_flatten(rams, vr, files.flatten(), sizes.flatten() + tail, i);
        assert(raw =~= (files.flatten() + rams.flatten()) + sizes.flatten() + tail);
        lemma_word_of_flatten(sizes, vs, files.flatten() + rams.flatten(), tail, i);
    }
    let words = seq![h.bss_address, h.bss_size, h.entry_point];
    let wb = Seq::new(3, |i: int| be32_bytes(words[i]));
    assert(wb.flatten() =~= be32_bytes(h.bss_address) + be32_bytes(h.bss_size) + be32_bytes(h.entry_point)) by {
        assert(wb =~= seq![be32_bytes(words[0])].push(be32_bytes(words[1])).push(be32_bytes(words[2])));
        seq![be32_bytes(words[0])].push(be32_bytes(words[1])).lemma_flatten_push(be32_bytes(words[2]));
        seq![be32_bytes(words[0])].lemma_flatten_push(be32_bytes(words[1]));
        Seq::<Seq<u8>>::empty().lemma_flatten_push(be32_bytes(words[0]));
        assert(Seq::<Seq<u8>>::empty().push(be32_bytes(words[0])) =~= seq![be32_bytes(words[0])]);
    }
    let pre = files.flatten() + rams.flatten() + sizes.flatten();
    assert(raw =~= pre + wb.flatten() + Seq::new(28, |i: int| 0u8));
    lemma_word_of_flatten(wb, words, pre, Seq::new(28, |i: int| 0u8), 0);
    lemma_word_of_flatten(wb, words, pre, Seq::new(28, |i: int| 0u8), 1);
    lemma_word_of_flatten(wb, words, pre, Seq::new(28, |i: int| 0u8), 2);
}

/// The first section `find_file_offset` settles on holds the address.
proof fn lemma_find_file_offset_hit(secs: Seq<Section>, ram: u32, i: int) -> (k: int)
    requires
        0 <= i,
        find_file_offset(secs, ram, i) is Some,
    ensures
        i <= k < secs.len(),
        secs[k].holds_ram(ram),
        forall|m: int| i <= m < k ==> !(#[trigger] secs[m].holds_ram(ram)),
        find_file_offset(secs, ram, i) == Some((secs[k].file + (ram - secs[k].ram)) as u32),
    decreases secs.len() - i,
{
    if secs[i].holds_ram(ram) {
        i
    } else {
        lemma_find_file_offset_hit(secs, ram, i + 1)
    }
}

/// `find_ram_addr` settles on section `k` when `k` holds the offset and no
/// earlier one does.
proof fn lemma_find_ram_addr_at(secs: Seq<Section>, off: u32, i: int, k: int)
    requires
        0 <= i <= k < secs.len(),
        secs[k].holds_file(off),
        forall|m: int| i <= m < k ==> !(#[trigger] secs[m].holds_file(off)),
    ensures
        find_ram_addr(secs, off, i) == Some((secs[k].ram + (off - secs[k].file)) as u32),
    decreases k - i,
{
    if i < k {
        lemma_find_ram_addr_at(secs, off, i + 1, k);
    }
}

/// No two non-empty sections share a byte of the file.
pub open spec fn file_disjoint(secs: Seq<Section>) -> bool {
    forall|a: int, b: int|
        0 <= a < secs.len() && 0 <= b < secs.len() && a != b && secs[a].size != 0 && secs[b].size != 0
            ==> (#[trigger] secs[a]).file + secs[a].size <= (#[trigger] secs[b]).file || secs[b].file + secs[b].size <= secs[a].file
}

/// When no two sections share file bytes, the file offset a RAM address
/// loads from maps back to that RAM address.
pub proof fn lemma_file_offset_ram_addr_inverse(h: &DolHeader, ram: u32)
    requires
        file_disjoint(h.sections@),
        ram_maps_within(h.sections@, ram),
        h.spec_file_offset(ram) is Some,
    ensures
        h.spec_ram_addr(h.spec_file_offset(ram).unwrap()) == Some(ram),
{
    let secs = h.sections@;
    let k = lemma_find_file_offset_hit(secs, ram, 0);
    assert(secs[k].file + (ram - secs[k].ram) <= u32::MAX);
    let off = h.spec_file_offset(ram).unwrap();
    assert(secs[k].holds_file(off));
    assert forall|m: int| 0 <= m < k implies !(#[trigger] secs[m].holds_file(off)) by {
        if secs[m].holds_file(off) {
            assert(secs[m].size != 0);
        }
    }
    lemma_find_ram_addr_at(secs, off, 0, k);
}

} // verus!
