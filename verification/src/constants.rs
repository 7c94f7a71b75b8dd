//! The tables of `main.dol` that hold text, with the evidence for each.

use vstd::prelude::*;

verus! {

/// The code the patched font renders as a Latin space; the glyph table maps
/// a space to 0x0000, the full-width Japanese one, which has to keep meaning
/// that.
pub const LATIN_SPACE: u16 = 0x01ff;

/// How a translation of a table entry is limited.
#[derive(Clone, Copy, Debug, PartialEq, Eq, Structural)]
pub enum NameCap {
    /// no limit: the text is relocated and may grow
    Free,
    /// the entry feeds a fixed 0x12-byte copy, so the reference is pointed at
    /// a redirect stub and the name goes to the long-name bank
    Stub,
}

/// A pointer table whose extent we do not know. The walk reads entries until
/// one stops looking like a table of text pointers.
#[derive(Clone, Copy, Debug)]
pub struct WalkTable {
    /// RAM address of entry 0.
    pub base: u32,
    /// bytes per entry.
    pub stride: u32,
    /// byte offsets of the pointer words every entry must have. The first that
    /// does not resolve into a data section ends the walk.
    pub fields: &'static [u32],
    /// words that hold a pointer only in some entries; emitted when they do.
    pub optional: &'static [u32],
    /// the A tables sit directly against one another, so reaching another
    /// abutting table's base is the end of this one.
    pub abuts: bool,
    /// tag written into the .patch reference comments.
    pub tag: &'static str,
}

impl WalkTable {
    pub fn new(tag: &'static str, stride: u32, fields: &'static [u32], base: u32) -> (t: WalkTable)
        ensures
            t.base == base,
            t.stride == stride,
            t.fields == fields,
            t.optional@.len() == 0,
            !t.abuts,
            t.tag == tag,
    {
        WalkTable { base, stride, fields, optional: &[], abuts: false, tag }
    }

    pub fn abutting(base: u32) -> (t: WalkTable)
        ensures
            t.base == base,
            t.stride == 4,
            t.fields@ == seq![0u32],
            t.optional@.len() == 0,
            t.abuts,
            t.tag@ == "A"@,
    {
        let t = WalkTable::new("A", 4, &[0], base);
        WalkTable { abuts: true, ..t }
    }

    /// An F table: one mandatory pointer, and a second only in some entries.
    pub fn optional_second(stride: u32, base: u32) -> (t: WalkTable)
        ensures
            t.base == base,
            t.stride == stride,
            t.fields@ == seq![0u32],
            t.optional@ == seq![4u32],
            !t.abuts,
            t.tag@ == "F"@,
    {
        let t = WalkTable::new("F", stride, &[0], base);
        WalkTable { optional: &[4], ..t }
    }
}

/// A walked table as plain values: (base, stride, pointer fields, optional
/// fields, abuts, tag).
pub type WalkView = (u32, u32, Seq<u32>, Seq<u32>, bool, Seq<char>);

pub open spec fn walk_view(t: WalkTable) -> WalkView {
    (t.base, t.stride, t.fields@, t.optional@, t.abuts, t.tag@)
}

/// The walked tables, in the order they are walked.
pub open spec fn walk_views() -> Seq<WalkView> {
    seq![
        (0x80260310u32, 4u32, seq![0u32], Seq::<u32>::empty(), true, "A"@),
        (0x801d767cu32, 4u32, seq![0u32], Seq::<u32>::empty(), true, "A"@),
        (0x801d3bacu32, 4u32, seq![0u32], Seq::<u32>::empty(), true, "A"@),
        (0x801c9efcu32, 4u32, seq![0u32], Seq::<u32>::empty(), true, "A"@),
        (0x801cd0e8u32, 4u32, seq![0u32], Seq::<u32>::empty(), true, "A"@),
        (0x801ccefcu32, 4u32, seq![0u32], Seq::<u32>::empty(), true, "A"@),
        (0x801cd198u32, 4u32, seq![0u32], Seq::<u32>::empty(), true, "A"@),
        (0x801cd050u32, 4u32, seq![0u32], Seq::<u32>::empty(), true, "A"@),
        (0x801cd1b8u32, 4u32, seq![0u32], Seq::<u32>::empty(), true, "A"@),
        (0x801cd1e0u32, 4u32, seq![0u32], Seq::<u32>::empty(), true, "A"@),
        (0x801d3c0cu32, 4u32, seq![0u32], Seq::<u32>::empty(), true, "A"@),
        (0x801d6228u32, 4u32, seq![0u32], Seq::<u32>::empty(), true, "A"@),
        (0x801d3c6cu32, 4u32, seq![0u32], Seq::<u32>::empty(), true, "A"@),
        (0x801d6048u32, 4u32, seq![0u32], Seq::<u32>::empty(), true, "A"@),
        (0x801d62f8u32, 4u32, seq![0u32], Seq::<u32>::empty(), true, "A"@),
        (0x801ddb38u32, 4u32, seq![0u32], Seq::<u32>::empty(), true, "A"@),
        (0x801d6040u32, 4u32, seq![0u32], Seq::<u32>::empty(), true, "A"@),
        (0x801d627cu32, 4u32, seq![0u32], Seq::<u32>::empty(), true, "A"@),
        (0x801d6d68u32, 4u32, seq![0u32], Seq::<u32>::empty(), true, "A"@),
        (0x801d723cu32, 4u32, seq![0u32], Seq::<u32>::empty(), true, "A"@),
        (0x801d74f4u32, 4u32, seq![0u32], Seq::<u32>::empty(), true, "A"@),
        (0x801dd4c4u32, 4u32, seq![0u32], Seq::<u32>::empty(), true, "A"@),
        (0x801dd51cu32, 4u32, seq![0u32], Seq::<u32>::empty(), true, "A"@),
        (0x801dd234u32, 4u32, seq![0u32], Seq::<u32>::empty(), true, "A"@),
        (0x8024a774u32, 4u32, seq![0u32], Seq::<u32>::empty(), true, "A"@),
        (0x802742e0u32, 4u32, seq![0u32], Seq::<u32>::empty(), true, "A"@),
        (0x801c9eecu32, 16u32, seq![0u32, 4u32, 8u32], Seq::<u32>::empty(), false, "B"@),
        (0x801ca37cu32, 16u32, seq![0u32, 4u32, 8u32], Seq::<u32>::empty(), false, "B"@),
        (0x801d0648u32, 24u32, seq![0u32, 4u32], Seq::<u32>::empty(), false, "C"@),
        (0x801d11a0u32, 16u32, seq![0u32, 4u32], Seq::<u32>::empty(), false, "D"@),
        (0x801c9ef0u32, 16u32, seq![0u32, 4u32], Seq::<u32>::empty(), false, "D"@),
        (0x801d5ec8u32, 12u32, seq![0u32, 4u32], Seq::<u32>::empty(), false, "E"@),
        (0x80243f84u32, 20u32, seq![0u32], seq![4u32], false, "F"@),
        (0x80244e74u32, 20u32, seq![0u32], seq![4u32], false, "F"@),
        (0x802448fcu32, 20u32, seq![0u32], seq![4u32], false, "F"@),
        (0x80244e74u32, 20u32, seq![0u32], seq![4u32], false, "F"@),
        (0x8024507cu32, 20u32, seq![0u32], seq![4u32], false, "F"@),
        (0x8024459cu32, 16u32, seq![0u32], Seq::<u32>::empty(), false, "G"@),
        (0x801d6b10u32, 12u32, seq![0u32], Seq::<u32>::empty(), false, "H"@),
    ]
}

/// The pointer tables walked until they stop looking like text pointers.
pub fn walking_tables() -> (v: Vec<WalkTable>)
    ensures
        v@.map_values(|t: WalkTable| walk_view(t)) == walk_views(),
{
    let mut v: Vec<WalkTable> = Vec::new();
    let abut: [u32; 26] = [
        0x80260310, // navi / wallace dialog
        0x801d767c, // some movement
        0x801d3bac, // move / attack confirmations
        0x801c9efc,
        0x801cd0e8, // health status effects
        0x801ccefc, // barometer status effects
        0x801cd198, // darkling
        0x801cd050, // status effects
        0x801cd1b8, // ebola
        0x801cd1e0, // status
        0x801d3c0c, // turn menu
        0x801d6228, // data menu
        0x801d3c6c, // options menu
        0x801d6048, // more confirmations
        0x801d62f8, // Field magic
        0x801ddb38, // Sponsors
        0x801d6040,
        0x801d627c, // counters
        0x801d6d68, // EXP
        0x801d723c, // discarded items upon death (defender)
        0x801d74f4, // dokapon / wallace eggs
        0x801dd4c4, // discard items upon death (attacker)
        0x801dd51c, // skill increase
        0x801dd234, // stat check (attacker)
        0x8024a774, // alphabet
        0x802742e0, // battle result
    ];
    let mut i: usize = 0;
    while i < 26
        invariant
            i <= 26,
            v@.len() == i,
            forall|k: int| 0 <= k < 26 ==> #[trigger] walk_views()[k] == (abut@[k], 4u32, seq![0u32], Seq::<u32>::empty(), true, "A"@),
            forall|k: int| 0 <= k < i ==> #[trigger] walk_view(v@[k]) == walk_views()[k],
        decreases 26 - i,
    {
        let t = WalkTable::abutting(abut[i]);
        v.push(t);
        proof {
            assert(t.optional@ =~= Seq::<u32>::empty());
            assert(walk_view(t) == walk_views()[i as int]);
        }
        i = i + 1;
    }
    v.push(WalkTable::new("B", 16, &[0, 4, 8], 0x801c9eec)); // spaces
    v.push(WalkTable::new("B", 16, &[0, 4, 8], 0x801ca37c));
    v.push(WalkTable::new("C", 24, &[0, 4], 0x801d0648)); // items and descriptions
    v.push(WalkTable::new("D", 16, &[0, 4], 0x801d11a0)); // D goods and descriptions
    v.push(WalkTable::new("D", 16, &[0, 4], 0x801c9ef0)); // spaces
    v.push(WalkTable::new("E", 12, &[0, 4], 0x801d5ec8)); // modes and some d parts
    // F entries carry a second pointer only sometimes
    v.push(WalkTable::optional_second(20, 0x80243f84)); // weapons
    v.push(WalkTable::optional_second(20, 0x80244e74));
    v.push(WalkTable::optional_second(20, 0x802448fc)); // lots of stuff
    v.push(WalkTable::optional_second(20, 0x80244e74)); // magic
    v.push(WalkTable::optional_second(20, 0x8024507c)); // defense magic
    v.push(WalkTable::new("G", 16, &[0], 0x8024459c)); // defensive equipment
    v.push(WalkTable::new("H", 12, &[0], 0x801d6b10)); // spinner values
    assert(v@[26].fields@ =~= walk_views()[26].2 && v@[26].optional@ =~= walk_views()[26].3 && v@[26].tag@ =~= walk_views()[26].5);
    assert(walk_view(v@[26]) == walk_views()[26]);
    assert(v@[27].fields@ =~= walk_views()[27].2 && v@[27].optional@ =~= walk_views()[27].3 && v@[27].tag@ =~= walk_views()[27].5);
    assert(walk_view(v@[27]) == walk_views()[27]);
    assert(v@[28].fields@ =~= walk_views()[28].2 && v@[28].optional@ =~= walk_views()[28].3 && v@[28].tag@ =~= walk_views()[28].5);
    assert(walk_view(v@[28]) == walk_views()[28]);
    assert(v@[29].fields@ =~= walk_views()[29].2 && v@[29].optional@ =~= walk_views()[29].3 && v@[29].tag@ =~= walk_views()[29].5);
    assert(walk_view(v@[29]) == walk_views()[29]);
    assert(v@[30].fields@ =~= walk_views()[30].2 && v@[30].optional@ =~= walk_views()[30].3 && v@[30].tag@ =~= walk_views()[30].5);
    assert(walk_view(v@[30]) == walk_views()[30]);
    assert(v@[31].fields@ =~= walk_views()[31].2 && v@[31].optional@ =~= walk_views()[31].3 && v@[31].tag@ =~= walk_views()[31].5);
    assert(walk_view(v@[31]) == walk_views()[31]);
    assert(v@[32].fields@ =~= walk_views()[32].2 && v@[32].optional@ =~= walk_views()[32].3 && v@[32].tag@ =~= walk_views()[32].5);
    assert(walk_view(v@[32]) == walk_views()[32]);
    assert(v@[33].fields@ =~= walk_views()[33].2 && v@[33].optional@ =~= walk_views()[33].3 && v@[33].tag@ =~= walk_views()[33].5);
    assert(walk_view(v@[33]) == walk_views()[33]);
    assert(v@[34].fields@ =~= walk_views()[34].2 && v@[34].optional@ =~= walk_views()[34].3 && v@[34].tag@ =~= walk_views()[34].5);
    assert(walk_view(v@[34]) == walk_views()[34]);
    assert(v@[35].fields@ =~= walk_views()[35].2 && v@[35].optional@ =~= walk_views()[35].3 && v@[35].tag@ =~= walk_views()[35].5);
    assert(walk_view(v@[35]) == walk_views()[35]);
    assert(v@[36].fields@ =~= walk_views()[36].2 && v@[36].optional@ =~= walk_views()[36].3 && v@[36].tag@ =~= walk_views()[36].5);
    assert(walk_view(v@[36]) == walk_views()[36]);
    assert(v@[37].fields@ =~= walk_views()[37].2 && v@[37].optional@ =~= walk_views()[37].3 && v@[37].tag@ =~= walk_views()[37].5);
    assert(walk_view(v@[37]) == walk_views()[37]);
    assert(v@[38].fields@ =~= walk_views()[38].2 && v@[38].optional@ =~= walk_views()[38].3 && v@[38].tag@ =~= walk_views()[38].5);
    assert(walk_view(v@[38]) == walk_views()[38]);
    assert(v@.map_values(|t: WalkTable| walk_view(t)) =~= walk_views());
    v
}

/// A text table whose extent we know exactly.
#[derive(Clone, Copy, Debug)]
pub struct TextTable {
    /// RAM address of entry 0.
    pub base: u32,
    /// bytes per entry.
    pub stride: u32,
    /// number of entries, derived from the code that indexes the table.
    pub count: u32,
    /// byte offsets within an entry that hold a text pointer.
    pub fields: &'static [u32],
    /// how a translation of an entry is limited.
    pub cap: NameCap,
    /// tag written into the .patch reference comments.
    pub tag: &'static str,
}

fn text_table(base: u32, stride: u32, count: u32, fields: &'static [u32], cap: NameCap, tag: &'static str) -> (t: TextTable)
    ensures
        t.base == base && t.stride == stride && t.count == count && t.fields == fields && t.cap == cap && t.tag == tag,
{
    TextTable { base, stride, count, fields, cap, tag }
}

/// A text table as plain values: (base, stride, count, pointer fields, cap,
/// tag).
pub type TableShape = (u32, u32, u32, Seq<u32>, NameCap, Seq<char>);

pub open spec fn shape(t: TextTable) -> TableShape {
    (t.base, t.stride, t.count, t.fields@, t.cap, t.tag@)
}

/// The explicit tables, in the order they are consulted.
pub open spec fn explicit_shapes() -> Seq<TableShape> {
    seq![
        (0x801ccefcu32, 4u32, 189u32, seq![0u32], NameCap::Free, "event"@),
        (0x801d3c50, 4, 7, seq![0u32], NameCap::Free, "weekday"@),
        (0x801d3bac, 4, 21, seq![0u32], NameCap::Free, "confirm"@),
        (0x801d641c, 4, 3, seq![0u32], NameCap::Free, "expired"@),
        (0x801d60a4, 4, 18, seq![0u32], NameCap::Free, "datamenu"@),
        (0x801dd34c, 4, 6, seq![0u32], NameCap::Free, "sponsor"@),
        (0x80241d8c, 0x3c, 142, seq![0u32], NameCap::Stub, "monster"@),
        (0x802451e4, 4, 31, seq![0u32], NameCap::Free, "effect"@),
        (0x802456cc, 4, 5, seq![0u32], NameCap::Free, "goal"@),
        (0x8024583c, 4, 7, seq![0u32], NameCap::Free, "panic"@),
        (0x8024a858, 0xc, 53, seq![0u32, 4u32], NameCap::Free, "status"@),
        (0x802602e0, 4, 11, seq![0u32], NameCap::Free, "charname"@),
        (0x802719e0, 4, 357, seq![0u32], NameCap::Free, "dialogue"@),
        (0x80274188, 4, 5, seq![0u32], NameCap::Free, "discerr"@),
        (0x802cd164, 4, 8, seq![0u32], NameCap::Free, "datamenu"@),
    ]
}

/// Tables the walking extractors cannot reach; each `count` comes from the
/// instruction that indexes the table or from the sentinel its reader tests.
pub fn text_tables_explicit() -> (v: Vec<TextTable>)
    ensures
        v@.map_values(|t: TextTable| shape(t)) == explicit_shapes(),
{
    let mut v: Vec<TextTable> = Vec::new();
    // status / event message pointers, 20 of the 189 slots NULL
    v.push(text_table(0x801ccefc, 4, 189, &[0], NameCap::Free, "event"));
    // weekday names
    v.push(text_table(0x801d3c50, 4, 7, &[0], NameCap::Free, "weekday"));
    // move / attack confirmations and the death messages after them
    v.push(text_table(0x801d3bac, 4, 21, &[0], NameCap::Free, "confirm"));
    // "the effect wore off" messages
    v.push(text_table(0x801d641c, 4, 3, &[0], NameCap::Free, "expired"));
    // data-menu page titles
    v.push(text_table(0x801d60a4, 4, 18, &[0], NameCap::Free, "datamenu"));
    // sponsor slogans
    v.push(text_table(0x801dd34c, 4, 6, &[0], NameCap::Free, "sponsor"));
    // monster / character definition names; field 0 feeds a 0x12-byte copy
    v.push(text_table(0x80241d8c, 0x3c, 142, &[0], NameCap::Stub, "monster"));
    // weapon / shield special-effect descriptions
    v.push(text_table(0x802451e4, 4, 31, &[0], NameCap::Free, "effect"));
    // scenario goals
    v.push(text_table(0x802456cc, 4, 5, &[0], NameCap::Free, "goal"));
    // per-character "in trouble" lines
    v.push(text_table(0x8024583c, 4, 7, &[0], NameCap::Free, "panic"));
    // status-effect apply / cure message pairs
    v.push(text_table(0x8024a858, 0xc, 53, &[0, 4], NameCap::Free, "status"));
    // boss / NPC names, indexed by character id
    v.push(text_table(0x802602e0, 4, 11, &[0], NameCap::Free, "charname"));
    // per-character battle / status dialogue, 51 lines for each of 7
    v.push(text_table(0x802719e0, 4, 357, &[0], NameCap::Free, "dialogue"));
    // disc / drive error messages
    v.push(text_table(0x80274188, 4, 5, &[0], NameCap::Free, "discerr"));
    // the label pool the data-menu sub-lists point into
    v.push(text_table(0x802cd164, 4, 8, &[0], NameCap::Free, "datamenu"));
    assert forall|i: int| 0 <= i < 15 implies shape(#[trigger] v@[i]) == explicit_shapes()[i] by {
        assert(v@[i].fields@ =~= explicit_shapes()[i].3);
        assert(v@[i].tag@ =~= explicit_shapes()[i].5);
    }
    assert(v@.map_values(|t: TextTable| shape(t)) =~= explicit_shapes());
    v
}

/// The one run of `main.dol` that looks like text and is not.
pub const EXCLUDED_TEXT: u32 = 0x8027_6370;

/// Why `EXCLUDED_TEXT` is left out, line by line.
/// Why `EXCLUDED_TEXT` is left out, line by line.
pub open spec fn excluded_note_spec() -> Seq<Seq<char>> {
    seq![
        "not text: 12-word OS interrupt-mask table used by the loop at 0x80145470"@,
        "its third word begins with 0xF800, which fooled the terminated glyph checking"@,
    ]
}

pub fn excluded_note() -> (v: Vec<&'static str>)
    ensures
        v@.map_values(|s: &'static str| s@) == excluded_note_spec(),
{
    let mut v: Vec<&'static str> = Vec::new();
    v.push("not text: 12-word OS interrupt-mask table used by the loop at 0x80145470");
    v.push("its third word begins with 0xF800, which fooled the terminated glyph checking");
    assert(v@.map_values(|s: &'static str| s@) =~= excluded_note_spec());
    v
}

/// A run of fixed-width text records stored inline: no pointer word anywhere,
/// and no terminator.
#[derive(Clone, Copy, Debug)]
pub struct InlineField {
    /// RAM address of record 0.
    pub base: u32,
    /// bytes per record.
    pub stride: u32,
    /// number of records.
    pub count: u32,
    /// glyphs per record; also the hard cap on a translation.
    pub glyphs: u32,
    /// whether a translation replaces the record with a redirect stub
    pub stub: bool,
    /// tag written into the .patch comments.
    pub tag: &'static str,
}

impl InlineField {
    /// A non-empty stride, and the whole run addressable in 32 bits.
    pub open spec fn wf(&self) -> bool {
        self.stride > 0 && self.count * self.stride <= u32::MAX && self.base + self.count * self.stride <= u32::MAX
    }

    pub open spec fn spec_record(&self, ram: u32) -> Option<u32> {
        if ram >= self.base && (ram - self.base) % (self.stride as int) == 0 && (ram - self.base) / (
        self.stride as int) < self.count {
            Some(((ram - self.base) / (self.stride as int)) as u32)
        } else {
            None
        }
    }

    pub open spec fn spec_contains(&self, ram: u32) -> bool {
        ram >= self.base && ram - self.base < self.count * self.stride
    }

    /// Record index, if `ram` is exactly the start of one. Interior addresses
    /// deliberately do not match: half a record is not a translatable unit.
    pub fn record(&self, ram: u32) -> (r: Option<u32>)
        requires
            self.stride > 0,
        ensures
            r == self.spec_record(ram),
    {
        if ram < self.base {
            return None;
        }
        let delta = ram - self.base;
        let index = delta / self.stride;
        if delta % self.stride == 0 && index < self.count {
            Some(index)
        } else {
            None
        }
    }

    pub fn contains(&self, ram: u32) -> (r: bool)
        requires
            self.count * self.stride <= u32::MAX,
        ensures
            r == self.spec_contains(ram),
    {
        ram >= self.base && ram - self.base < self.count * self.stride
    }
}

/// Preset CPU opponent names: 100 records of 0x10 bytes, 8 glyphs compared.
pub open spec fn cpu_names() -> InlineField {
    InlineField { base: 0x80247bd4, stride: 0x10, count: 100, glyphs: 8, stub: false, tag: "cpuname" }
}

/// The inline record runs. The instruction scan must not treat any address
/// inside one as a string.
pub fn inline_fields() -> (v: Vec<InlineField>)
    ensures
        v@.len() == 1,
        v@[0].base == 0x80247bd4 && v@[0].stride == 0x10 && v@[0].count == 100 && v@[0].glyphs == 8
            && !v@[0].stub && v@[0].tag@ == "cpuname"@,
        forall|i: int| 0 <= i < v@.len() ==> (#[trigger] v@[i]).wf(),
{
    let mut v: Vec<InlineField> = Vec::new();
    v.push(InlineField { base: 0x80247bd4, stride: 0x10, count: 100, glyphs: 8, stub: false, tag: "cpuname" });
    v
}


/// A text walker's loop head, which a redirect cave takes over: where it is,
/// the retail instruction that must be there, and the walker's name.
pub struct WalkerHook {
    pub ram: u32,
    pub expect: u32,
    pub what: String,
}

} // verus!
