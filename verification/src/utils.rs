//! The glyph table, the longest-match encoder over it, and the `.patch`
//! sidecar format, all read from text the caller has loaded.

use vstd::prelude::*;
use std::collections::HashMap;
use crate::text::{chars_of, string_of, push_str, push_dec, decimal, append_chars, char_debug, quote_char, hex, hex_digits, hex_digit, zero_pad};
use crate::sorted_map::SortedMap;
use vstd::utf8::{encode_utf8, encode_scalar, char_is_scalar};
use crate::constants::LATIN_SPACE;

verus! {

/// Why a number did not parse, as std's integer parser reports it.
#[derive(Debug, Clone, Copy, PartialEq, Eq, Structural)]
pub enum IntError {
    /// nothing to parse
    Empty,
    /// a character that is not a digit of the radix
    InvalidDigit,
    /// the value does not fit the type
    PosOverflow,
}

pub open spec fn int_error_text(e: IntError) -> Seq<char> {
    match e {
        IntError::Empty => "cannot parse integer from empty string"@,
        IntError::InvalidDigit => "invalid digit found in string"@,
        IntError::PosOverflow => "number too large to fit in target type"@,
    }
}

impl IntError {
    pub fn message(&self) -> (s: String)
        ensures
            s@ == int_error_text(*self),
    {
        let t = match self {
            IntError::Empty => "cannot parse integer from empty string",
            IntError::InvalidDigit => "invalid digit found in string",
            IntError::PosOverflow => "number too large to fit in target type",
        };
        string_of(chars_of(t).as_slice())
    }
}

/// The value of a hexadecimal digit, either case.
pub open spec fn hex_val(c: char) -> Option<nat> {
    if '0' <= c && c <= '9' {
        Some((c as nat - '0' as nat) as nat)
    } else if 'a' <= c && c <= 'f' {
        Some((c as nat - 'a' as nat + 10) as nat)
    } else if 'A' <= c && c <= 'F' {
        Some((c as nat - 'A' as nat + 10) as nat)
    } else {
        None
    }
}

/// The digits `s`, read left to right: the first bad digit, or the first
/// point at which the value passes `max`, is the error.
pub open spec fn hex_run(s: Seq<char>, max: nat) -> Result<nat, IntError>
    decreases s.len(),
{
    if s.len() == 0 {
        Ok(0)
    } else {
        match hex_run(s.drop_last(), max) {
            Err(e) => Err(e),
            Ok(v) => match hex_val(s.last()) {
                None => Err(IntError::InvalidDigit),
                Some(d) => if v * 16 + d > max {
                    Err(IntError::PosOverflow)
                } else {
                    Ok(v * 16 + d)
                },
            },
        }
    }
}

/// `from_str_radix(s, 16)` for an unsigned type whose largest value is
/// `max`: an optional leading `+`, then at least one digit.
pub open spec fn spec_from_hex(s: Seq<char>, max: nat) -> Result<nat, IntError> {
    if s.len() == 0 {
        Err(IntError::Empty)
    } else if s.len() == 1 && (s[0] == '+' || s[0] == '-') {
        Err(IntError::InvalidDigit)
    } else if s[0] == '+' {
        hex_run(s.drop_first(), max)
    } else {
        hex_run(s, max)
    }
}

fn hex_digit_of(c: char) -> (r: Option<u32>)
    ensures
        r matches Some(d) ==> hex_val(c) == Some(d as nat),
        r is None ==> hex_val(c) is None,
{
    if '0' <= c && c <= '9' {
        Some((c as u32) - ('0' as u32))
    } else if 'a' <= c && c <= 'f' {
        Some((c as u32) - ('a' as u32) + 10)
    } else if 'A' <= c && c <= 'F' {
        Some((c as u32) - ('A' as u32) + 10)
    } else {
        None
    }
}

/// Parse `s` as hexadecimal, as std's `from_str_radix(s, 16)` does for an
/// unsigned type whose largest value is `max`.
pub fn from_hex(s: &[char], max: u32) -> (r: Result<u32, IntError>)
    ensures
        r matches Ok(v) ==> spec_from_hex(s@, max as nat) == Ok::<nat, IntError>(v as nat),
        r matches Err(e) ==> spec_from_hex(s@, max as nat) == Err::<nat, IntError>(e),
{
    if s.len() == 0 {
        return Err(IntError::Empty);
    }
    if s.len() == 1 && (s[0] == '+' || s[0] == '-') {
        return Err(IntError::InvalidDigit);
    }
    let start: usize = if s[0] == '+' { 1 } else { 0 };
    let ghost digits = s@.skip(start as int);
    proof {
        if start == 1 {
            assert(digits =~= s@.drop_first());
        } else {
            assert(digits =~= s@);
        }
    }
    let mut v: u32 = 0;
    let mut i: usize = start;
    proof {
        assert(digits.take(0) =~= Seq::<char>::empty());
        assert(spec_from_hex(s@, max as nat) == hex_run(digits, max as nat));
    }
    while i < s.len()
        invariant
            start <= i <= s@.len(),
            digits == s@.skip(start as int),
            spec_from_hex(s@, max as nat) == hex_run(digits, max as nat),
            hex_run(digits.take(i - start), max as nat) == Ok::<nat, IntError>(v as nat),
            v <= max,
        decreases s@.len() - i,
    {
        let ghost pre = digits.take(i - start);
        proof {
            assert(digits.take(i - start + 1).drop_last() =~= pre);
            assert(digits.take(i - start + 1).last() == s@[i as int]);
        }
        match hex_digit_of(s[i]) {
            None => {
                proof {
                    assert(hex_run(digits.take(i - start + 1), max as nat) == Err::<nat, IntError>(IntError::InvalidDigit));
                    lemma_hex_run_stays(digits, i - start + 1, max as nat);
                }
                return Err(IntError::InvalidDigit);
            },
            Some(d) => {
                if v as u64 * 16 + d as u64 > max as u64 {
                    proof {
                        assert(hex_run(digits.take(i - start + 1), max as nat) == Err::<nat, IntError>(IntError::PosOverflow));
                        lemma_hex_run_stays(digits, i - start + 1, max as nat);
                    }
                    return Err(IntError::PosOverflow);
                }
                v = v * 16 + d;
            },
        }
        i = i + 1;
    }
    proof {
        assert(digits.take(i - start) =~= digits);
    }
    Ok(v)
}

/// Once a prefix of the digits fails, the whole run fails the same way.
proof fn lemma_hex_run_stays(digits: Seq<char>, n: int, max: nat)
    requires
        0 <= n <= digits.len(),
        hex_run(digits.take(n), max) is Err,
    ensures
        hex_run(digits, max) == hex_run(digits.take(n), max),
    decreases digits.len() - n,
{
    if n < digits.len() {
        assert(digits.take(n + 1).drop_last() =~= digits.take(n));
        lemma_hex_run_stays(digits, n + 1, max);
    } else {
        assert(digits.take(n) =~= digits);
    }
}

/// The lines of `s` so far: the finished ones, and the one being read.
pub open spec fn line_state(s: Seq<char>) -> (Seq<Seq<char>>, Seq<char>)
    decreases s.len(),
{
    if s.len() == 0 {
        (Seq::empty(), Seq::empty())
    } else {
        let (done, cur) = line_state(s.drop_last());
        if s.last() == '\n' {
            (done.push(strip_cr(cur)), Seq::empty())
        } else {
            (done, cur.push(s.last()))
        }
    }
}

/// A line without the carriage return of a CRLF ending.
pub open spec fn strip_cr(l: Seq<char>) -> Seq<char> {
    if l.len() > 0 && l.last() == '\r' {
        l.drop_last()
    } else {
        l
    }
}

/// The lines of `s` as std's `lines` gives them: split at each `\n`, a `\r`
/// before it dropped, and no empty line after a final newline.
pub open spec fn spec_lines(s: Seq<char>) -> Seq<Seq<char>> {
    let (done, cur) = line_state(s);
    if cur.len() > 0 {
        done.push(cur)
    } else {
        done
    }
}

/// Split `s` into its lines.
pub fn split_lines(s: &[char]) -> (lines: Vec<Vec<char>>)
    ensures
        lines@.map_values(|l: Vec<char>| l@) == spec_lines(s@),
{
    let mut lines: Vec<Vec<char>> = Vec::new();
    let mut cur: Vec<char> = Vec::new();
    let mut i: usize = 0;
    while i < s.len()
        invariant
            i <= s@.len(),
            (lines@.map_values(|l: Vec<char>| l@), cur@) == line_state(s@.take(i as int)),
        decreases s@.len() - i,
    {
        let c = s[i];
        let ghost before = lines@.map_values(|l: Vec<char>| l@);
        let ghost was = cur@;
        proof {
            assert(s@.take(i + 1).drop_last() =~= s@.take(i as int));
            assert(s@.take(i + 1).last() == c);
        }
        if c == '\n' {
            if cur.len() > 0 && cur[cur.len() - 1] == '\r' {
                cur.pop();
            }
            proof {
                assert(cur@ == strip_cr(was));
            }
            lines.push(cur);
            cur = Vec::new();
            proof {
                assert(lines@.map_values(|l: Vec<char>| l@) =~= before.push(strip_cr(was)));
            }
        } else {
            cur.push(c);
        }
        i = i + 1;
    }
    proof {
        assert(s@.take(i as int) =~= s@);
    }
    if cur.len() > 0 {
        let ghost before = lines@.map_values(|l: Vec<char>| l@);
        let ghost last = cur@;
        lines.push(cur);
        assert(lines@.map_values(|l: Vec<char>| l@) =~= before.push(last));
    }
    lines
}

/// Whether `c` is white space, as Unicode's White_Space property has it
/// (`char::is_whitespace`).
pub open spec fn spec_is_ws(c: char) -> bool {
    let v = c as u32;
    (0x09 <= v && v <= 0x0d) || v == 0x20 || v == 0x85 || v == 0xa0 || v == 0x1680 || (0x2000 <= v && v <= 0x200a)
        || v == 0x2028 || v == 0x2029 || v == 0x202f || v == 0x205f || v == 0x3000
}

pub fn is_ws(c: char) -> (r: bool)
    ensures
        r == spec_is_ws(c),
{
    let v = c as u32;
    (0x09 <= v && v <= 0x0d) || v == 0x20 || v == 0x85 || v == 0xa0 || v == 0x1680 || (0x2000 <= v && v <= 0x200a)
        || v == 0x2028 || v == 0x2029 || v == 0x202f || v == 0x205f || v == 0x3000
}

/// Every character of `l` is white space: what is left after trimming is
/// empty.
pub open spec fn blank(l: Seq<char>) -> bool {
    forall|i: int| 0 <= i < l.len() ==> spec_is_ws(#[trigger] l[i])
}

fn is_blank(l: &[char]) -> (r: bool)
    ensures
        r == blank(l@),
{
    let mut i: usize = 0;
    while i < l.len()
        invariant
            i <= l@.len(),
            forall|k: int| 0 <= k < i ==> spec_is_ws(#[trigger] l@[k]),
        decreases l@.len() - i,
    {
        if !is_ws(l[i]) {
            return false;
        }
        i = i + 1;
    }
    true
}

/// `l` begins with `p`.
pub open spec fn starts_with(l: Seq<char>, p: Seq<char>) -> bool {
    p.len() <= l.len() && l.take(p.len() as int) == p
}

fn starts_with_exec(l: &[char], p: &[char]) -> (r: bool)
    ensures
        r == starts_with(l@, p@),
{
    if p.len() > l.len() {
        return false;
    }
    let mut i: usize = 0;
    while i < p.len()
        invariant
            i <= p@.len(),
            p@.len() <= l@.len(),
            forall|k: int| 0 <= k < i ==> l@[k] == p@[k],
        decreases p@.len() - i,
    {
        if l[i] != p[i] {
            assert(l@.take(p@.len() as int)[i as int] != p@[i as int]);
            return false;
        }
        i = i + 1;
    }
    assert(l@.take(p@.len() as int) =~= p@);
    true
}

/// The position of the first `c` in `s`.
pub open spec fn first_index(s: Seq<char>, c: char) -> Option<int> {
    if exists|i: int| 0 <= i < s.len() && s[i] == c {
        Some(choose|i: int| 0 <= i < s.len() && s[i] == c && forall|j: int| 0 <= j < i ==> s[j] != c)
    } else {
        None
    }
}

fn find_char(s: &[char], c: char) -> (r: Option<usize>)
    ensures
        r matches Some(i) ==> first_index(s@, c) == Some(i as int) && i < s@.len(),
        r is None ==> first_index(s@, c) is None,
{
    let mut i: usize = 0;
    while i < s.len()
        invariant
            i <= s@.len(),
            forall|j: int| 0 <= j < i ==> s@[j] != c,
        decreases s@.len() - i,
    {
        if s[i] == c {
            proof {
                let k = choose|k: int| 0 <= k < s@.len() && s@[k] == c && forall|j: int| 0 <= j < k ==> s@[j] != c;
                if k < i {
                } else if k > i {
                    assert(s@[i as int] == c);
                }
            }
            return Some(i);
        }
        i = i + 1;
    }
    None
}

/// A copy of `s[lo..hi]`.
fn slice_of(s: &[char], lo: usize, hi: usize) -> (out: Vec<char>)
    requires
        lo <= hi <= s@.len(),
    ensures
        out@ == s@.subrange(lo as int, hi as int),
{
    let mut out: Vec<char> = Vec::new();
    let mut i = lo;
    while i < hi
        invariant
            lo <= i <= hi,
            hi <= s@.len(),
            out@ == s@.subrange(lo as int, i as int),
        decreases hi - i,
    {
        out.push(s[i]);
        proof {
            assert(s@.subrange(lo as int, i + 1) =~= s@.subrange(lo as int, i as int).push(s@[i as int]));
        }
        i = i + 1;
    }
    out
}


/// The `(code, rendering)` a line of the glyph table holds: hexadecimal, `=`,
/// then the rendering; a line that is not one holds nothing.
pub open spec fn table_line(l: Seq<char>) -> Option<(u16, Seq<char>)> {
    match first_index(l, '=') {
        None => None,
        Some(i) => match spec_from_hex(l.take(i), 0xffff) {
            Ok(v) => Some((v as u16, l.skip(i + 1))),
            Err(_) => None,
        },
    }
}

/// The pairs the lines hold, in order.
pub open spec fn table_pairs(lines: Seq<Seq<char>>) -> Seq<(u16, Seq<char>)>
    decreases lines.len(),
{
    if lines.len() == 0 {
        Seq::empty()
    } else {
        table_pairs(lines.drop_last()) + match table_line(lines.last()) {
            Some(p) => seq![p],
            None => Seq::empty(),
        }
    }
}

/// The glyph table's text as (code, rendering) pairs, in file order.
pub fn character_table(content: &str) -> (v: Vec<(u16, String)>)
    ensures
        v@.map_values(|p: (u16, String)| (p.0, p.1@)) == table_pairs(spec_lines(content@)),
{
    let text = chars_of(content);
    let lines = split_lines(text.as_slice());
    let ghost ls = lines@.map_values(|l: Vec<char>| l@);
    let mut v: Vec<(u16, String)> = Vec::new();
    let mut k: usize = 0;
    while k < lines.len()
        invariant
            k <= lines@.len(),
            ls == lines@.map_values(|l: Vec<char>| l@),
            v@.map_values(|p: (u16, String)| (p.0, p.1@)) == table_pairs(ls.take(k as int)),
        decreases lines@.len() - k,
    {
        let l = lines[k].as_slice();
        proof {
            assert(ls.take(k + 1).drop_last() =~= ls.take(k as int));
            assert(ls.take(k + 1).last() == l@);
        }
        let ghost before = v@.map_values(|p: (u16, String)| (p.0, p.1@));
        match find_char(l, '=') {
            Some(i) => {
                let hexpart = slice_of(l, 0, i);
                proof {
                    assert(hexpart@ =~= l@.take(i as int));
                }
                match from_hex(hexpart.as_slice(), 0xffff) {
                    Ok(code) => {
                        assert(l@.len() == l.len());
                        let glyph = slice_of(l, i + 1, l.len());
                        proof {
                            assert(glyph@ =~= l@.skip(i + 1));
                        }
                        v.push((code as u16, string_of(glyph.as_slice())));
                        proof {
                            assert(v@.map_values(|p: (u16, String)| (p.0, p.1@)) =~= before.push((code as u16, glyph@)));
                        }
                    },
                    Err(_) => {
                        assert(v@.map_values(|p: (u16, String)| (p.0, p.1@)) =~= before + Seq::<(u16, Seq<char>)>::empty());
                    },
                }
            },
            None => {
                assert(v@.map_values(|p: (u16, String)| (p.0, p.1@)) =~= before + Seq::<(u16, Seq<char>)>::empty());
            },
        }
        k = k + 1;
    }
    proof {
        assert(ls.take(k as int) =~= ls);
    }
    v
}

/// The renderings of the codes, a later line for a code winning.
pub open spec fn glyph_fold(pairs: Seq<(u16, Seq<char>)>) -> Map<u16, Seq<char>>
    decreases pairs.len(),
{
    if pairs.len() == 0 {
        Map::empty()
    } else {
        glyph_fold(pairs.drop_last()).insert(pairs.last().0, pairs.last().1)
    }
}

/// What `load_character_table` gives for the table's text: every code's
/// rendering, the terminator as a newline, and the Latin space as a space.
pub open spec fn glyph_map(content: Seq<char>) -> Map<u16, Seq<char>> {
    glyph_fold(table_pairs(spec_lines(content))).insert(0xF800, "\n"@).insert(LATIN_SPACE, " "@)
}

/// The code -> rendering table, from the glyph table's text.
pub fn load_character_table(content: &str) -> (m: HashMap<u16, String>)
    ensures
        forall|c: u16| #[trigger] m@.contains_key(c) <==> glyph_map(content@).contains_key(c),
        forall|c: u16| m@.contains_key(c) ==> (#[trigger] m@[c])@ == glyph_map(content@)[c],
{
    broadcast use vstd::std_specs::hash::group_hash_axioms;
    let pairs = character_table(content);
    let ghost ps = pairs@.map_values(|p: (u16, String)| (p.0, p.1@));
    let mut m: HashMap<u16, String> = HashMap::new();
    let mut k: usize = 0;
    while k < pairs.len()
        invariant
            k <= pairs@.len(),
            ps == pairs@.map_values(|p: (u16, String)| (p.0, p.1@)),
            forall|c: u16| #[trigger] m@.contains_key(c) <==> glyph_fold(ps.take(k as int)).contains_key(c),
            forall|c: u16| m@.contains_key(c) ==> (#[trigger] m@[c])@ == glyph_fold(ps.take(k as int))[c],
        decreases pairs@.len() - k,
    {
        let (code, g) = (pairs[k].0, pairs[k].1.clone());
        proof {
            assert(ps.take(k + 1).drop_last() =~= ps.take(k as int));
            assert(ps.take(k + 1).last() == (code, g@));
        }
        m.insert(code, g);
        k = k + 1;
    }
    proof {
        assert(ps.take(k as int) =~= ps);
    }
    m.insert(0xF800, string_of(chars_of("\n").as_slice()));
    m.insert(LATIN_SPACE, string_of(chars_of(" ").as_slice()));
    m
}

/// The code each rendering encodes to, the lower of two codes that share one.
pub open spec fn reverse_fold(pairs: Seq<(u16, Seq<char>)>) -> Map<Seq<char>, u16>
    decreases pairs.len(),
{
    if pairs.len() == 0 {
        Map::empty()
    } else {
        let m = reverse_fold(pairs.drop_last());
        let (c, g) = pairs.last();
        if m.contains_key(g) && m[g] <= c {
            m
        } else {
            m.insert(g, c)
        }
    }
}

/// What `load_reverse_character_table` gives for the table's text: each
/// rendering's lowest code, a newline as the terminator, and a space as the
/// Latin space.
pub open spec fn reverse_map(content: Seq<char>) -> Map<Seq<char>, u16> {
    reverse_fold(table_pairs(spec_lines(content))).insert("\n"@, 0xF800).insert(" "@, LATIN_SPACE)
}

/// The pairs of `table`, as a map from rendering to code.
pub open spec fn pairs_map(table: Seq<(String, u16)>) -> Map<Seq<char>, u16> {
    Map::new(
        |t: Seq<char>| exists|i: int| 0 <= i < table.len() && (#[trigger] table[i]).0@ == t,
        |t: Seq<char>| table[choose|i: int| 0 <= i < table.len() && (#[trigger] table[i]).0@ == t].1,
    )
}

/// No rendering occurs twice.
pub open spec fn renderings_unique(table: Seq<(String, u16)>) -> bool {
    forall|i: int, j: int| 0 <= i < j < table.len() ==> (#[trigger] table[i]).0@ != (#[trigger] table[j]).0@
}

/// In a table without repeats, entry `i` is what the map holds for its
/// rendering.
proof fn lemma_pairs_map_at(table: Seq<(String, u16)>, i: int)
    requires
        renderings_unique(table),
        0 <= i < table.len(),
    ensures
        pairs_map(table).contains_key(table[i].0@),
        pairs_map(table)[table[i].0@] == table[i].1,
{
    let t = table[i].0@;
    assert(exists|k: int| 0 <= k < table.len() && (#[trigger] table[k]).0@ == t);
    let k = choose|k: int| 0 <= k < table.len() && (#[trigger] table[k]).0@ == t;
    if k < i {
        assert(table[k].0@ != table[i].0@);
    } else if k > i {
        assert(table[i].0@ != table[k].0@);
    }
}

/// The position of rendering `t` in `table`.
fn find_rendering(table: &Vec<(String, u16)>, t: &str) -> (r: Option<usize>)
    ensures
        r matches Some(i) ==> i < table@.len() && table@[i as int].0@ == t@,
        r is None ==> forall|i: int| 0 <= i < table@.len() ==> (#[trigger] table@[i]).0@ != t@,
{
    let mut i: usize = 0;
    while i < table.len()
        invariant
            i <= table@.len(),
            forall|k: int| 0 <= k < i ==> (#[trigger] table@[k]).0@ != t@,
        decreases table@.len() - i,
    {
        if same_str(table[i].0.as_str(), t) {
            return Some(i);
        }
        i = i + 1;
    }
    None
}

/// Whether two strings hold the same characters.
fn same_str(x: &str, y: &str) -> (r: bool)
    ensures
        r == (x@ == y@),
{
    let a = chars_of(x);
    let b = chars_of(y);
    if a.len() != b.len() {
        return false;
    }
    let mut i: usize = 0;
    while i < a.len()
        invariant
            i <= a@.len(),
            a@.len() == b@.len(),
            a@ == x@,
            b@ == y@,
            forall|k: int| 0 <= k < i ==> a@[k] == b@[k],
        decreases a@.len() - i,
    {
        if a[i] != b[i] {
            assert(a@[i as int] != b@[i as int]);
            return false;
        }
        i = i + 1;
    }
    assert(a@ =~= b@);
    true
}

/// Set rendering `t` to `code`, or to the lower of `code` and what it has when
/// `keep_lower`.
fn set_rendering(table: &mut Vec<(String, u16)>, t: String, code: u16, keep_lower: bool)
    requires
        renderings_unique(old(table)@),
    ensures
        renderings_unique(final(table)@),
        pairs_map(final(table)@) == (if keep_lower && pairs_map(old(table)@).contains_key(t@) && pairs_map(old(table)@)[t@] <= code {
            pairs_map(old(table)@)
        } else {
            pairs_map(old(table)@).insert(t@, code)
        }),
{
    let ghost old_t = table@;
    match find_rendering(table, t.as_str()) {
        Some(i) => {
            proof {
                lemma_pairs_map_at(old_t, i as int);
            }
            let have = table[i].1;
            if keep_lower && have <= code {
                return;
            }
            table.set(i, (t, code));
            proof {
                let nt = table@;
                assert forall|a: int, b: int| 0 <= a < b < nt.len() implies (#[trigger] nt[a]).0@ != (#[trigger] nt[b]).0@ by {
                    assert(old_t[a].0@ != old_t[b].0@);
                }
                assert forall|x: Seq<char>| #[trigger] pairs_map(nt).contains_key(x) <==> pairs_map(old_t).insert(t@, code).contains_key(x) by {
                    if x != t@ && pairs_map(old_t).contains_key(x) {
                        let k = choose|k: int| 0 <= k < old_t.len() && (#[trigger] old_t[k]).0@ == x;
                        assert(nt[k].0@ == x);
                    }
                    if pairs_map(nt).contains_key(x) && x != t@ {
                        let k = choose|k: int| 0 <= k < nt.len() && (#[trigger] nt[k]).0@ == x;
                        assert(old_t[k].0@ == x);
                    }
                    if x == t@ {
                        assert(nt[i as int].0@ == x);
                    }
                }
                assert forall|x: Seq<char>| pairs_map(nt).contains_key(x) implies #[trigger] pairs_map(nt)[x] == pairs_map(old_t).insert(t@, code)[x] by {
                    let k = choose|k: int| 0 <= k < nt.len() && (#[trigger] nt[k]).0@ == x;
                    lemma_pairs_map_at(nt, k);
                    if x != t@ {
                        lemma_pairs_map_at(old_t, k);
                    }
                }
                assert(pairs_map(nt) =~= pairs_map(old_t).insert(t@, code));
            }
        },
        None => {
            table.push((t, code));
            proof {
                let nt = table@;
                let n = old_t.len() as int;
                assert forall|a: int, b: int| 0 <= a < b < nt.len() implies (#[trigger] nt[a]).0@ != (#[trigger] nt[b]).0@ by {
                    if b < n {
                        assert(old_t[a].0@ != old_t[b].0@);
                    } else {
                        assert(old_t[a].0@ != t@);
                    }
                }
                assert(!pairs_map(old_t).contains_key(t@));
                assert forall|x: Seq<char>| #[trigger] pairs_map(nt).contains_key(x) <==> pairs_map(old_t).insert(t@, code).contains_key(x) by {
                    if x != t@ && pairs_map(old_t).contains_key(x) {
                        let k = choose|k: int| 0 <= k < old_t.len() && (#[trigger] old_t[k]).0@ == x;
                        assert(nt[k].0@ == x);
                    }
                    if pairs_map(nt).contains_key(x) && x != t@ {
                        let k = choose|k: int| 0 <= k < nt.len() && (#[trigger] nt[k]).0@ == x;
                        assert(k < n);
                        assert(old_t[k].0@ == x);
                    }
                    if x == t@ {
                        assert(nt[n].0@ == x);
                    }
                }
                assert forall|x: Seq<char>| pairs_map(nt).contains_key(x) implies #[trigger] pairs_map(nt)[x] == pairs_map(old_t).insert(t@, code)[x] by {
                    let k = choose|k: int| 0 <= k < nt.len() && (#[trigger] nt[k]).0@ == x;
                    lemma_pairs_map_at(nt, k);
                    if x != t@ {
                        assert(k < n);
                        lemma_pairs_map_at(old_t, k);
                    }
                }
                assert(pairs_map(nt) =~= pairs_map(old_t).insert(t@, code));
            }
        },
    }
}

/// The rendering -> code table, from the glyph table's text. Twelve
/// renderings are shared by two codes; the lower one is kept, so decoding then
/// encoding is stable. A space is the Latin space, not the full-width one the
/// glyph table maps it to.
pub fn load_reverse_character_table(content: &str) -> (table: Vec<(String, u16)>)
    ensures
        renderings_unique(table@),
        pairs_map(table@) == reverse_map(content@),
{
    let pairs = character_table(content);
    let ghost ps = pairs@.map_values(|p: (u16, String)| (p.0, p.1@));
    let mut table: Vec<(String, u16)> = Vec::new();
    let mut k: usize = 0;
    assert(pairs_map(table@) =~= Map::<Seq<char>, u16>::empty());
    while k < pairs.len()
        invariant
            k <= pairs@.len(),
            ps == pairs@.map_values(|p: (u16, String)| (p.0, p.1@)),
            renderings_unique(table@),
            pairs_map(table@) == reverse_fold(ps.take(k as int)),
        decreases pairs@.len() - k,
    {
        let code = pairs[k].0;
        let g = pairs[k].1.clone();
        proof {
            assert(ps.take(k + 1).drop_last() =~= ps.take(k as int));
            assert(ps.take(k + 1).last() == (code, g@));
        }
        set_rendering(&mut table, g, code, true);
        k = k + 1;
    }
    proof {
        assert(ps.take(k as int) =~= ps);
    }
    set_rendering(&mut table, string_of(chars_of("\n").as_slice()), 0xF800, false);
    set_rendering(&mut table, string_of(chars_of(" ").as_slice()), LATIN_SPACE, false);
    table
}


/// How many bytes `c` takes in UTF-8.
pub open spec fn utf8_width(c: char) -> nat {
    if (c as u32) < 0x80 {
        1
    } else if (c as u32) < 0x800 {
        2
    } else if (c as u32) < 0x10000 {
        3
    } else {
        4
    }
}

/// How many bytes `s` takes in UTF-8.
pub open spec fn utf8_len(s: Seq<char>) -> nat {
    encode_utf8(s).len()
}

proof fn lemma_encode_concat(a: Seq<char>, b: Seq<char>)
    ensures
        encode_utf8(a + b) == encode_utf8(a) + encode_utf8(b),
    decreases a.len(),
{
    if a.len() > 0 {
        assert((a + b).drop_first() =~= a.drop_first() + b);
        assert((a + b)[0] == a[0]);
        lemma_encode_concat(a.drop_first(), b);
        assert(encode_utf8(a + b) =~= encode_utf8(a) + encode_utf8(b));
    } else {
        assert(a + b =~= b);
        assert(encode_utf8(a) =~= Seq::<u8>::empty());
        assert(encode_utf8(a) + encode_utf8(b) =~= encode_utf8(b));
    }
}

proof fn lemma_encode_one(c: char)
    ensures
        utf8_len(seq![c]) == utf8_width(c),
{
    char_is_scalar(c);
    assert(seq![c].drop_first() =~= Seq::<char>::empty());
    assert(encode_utf8(seq![c]) == encode_scalar(c as u32) + encode_utf8(Seq::<char>::empty()));
}

/// The bytes of `s.take(j)` are those of `s.take(i)` and of what lies
/// between.
proof fn lemma_utf8_len_step(s: Seq<char>, i: int)
    requires
        0 <= i < s.len(),
    ensures
        utf8_len(s.take(i + 1)) == utf8_len(s.take(i)) + utf8_width(s[i]),
{
    assert(s.take(i + 1) =~= s.take(i) + seq![s[i]]);
    lemma_encode_concat(s.take(i), seq![s[i]]);
    lemma_encode_one(s[i]);
}

proof fn lemma_utf8_len_prefix(s: Seq<char>, i: int)
    requires
        0 <= i <= s.len(),
    ensures
        utf8_len(s.take(i)) <= utf8_len(s),
{
    assert(s =~= s.take(i) + s.skip(i));
    lemma_encode_concat(s.take(i), s.skip(i));
}

fn utf8_width_exec(c: char) -> (n: usize)
    ensures
        n == utf8_width(c),
{
    if (c as u32) < 0x80 {
        1
    } else if (c as u32) < 0x800 {
        2
    } else if (c as u32) < 0x10000 {
        3
    } else {
        4
    }
}

/// `[0xhhhh]` at the start of `s`: the code, and how many characters the
/// escape takes. One to four digits, as std's hexadecimal parser reads them.
pub open spec fn spec_raw_escape(s: Seq<char>) -> Option<(u16, nat)> {
    if starts_with(s, "[0x"@) {
        let body = s.skip(3);
        match first_index(body, ']') {
            Some(e) => match spec_from_hex(body.take(e), 0xffff) {
                Ok(v) => if 1 <= e <= 4 {
                    Some((v as u16, (4 + e) as nat))
                } else {
                    None
                },
                Err(_) => None,
            },
            None => None,
        }
    } else {
        None
    }
}

/// `[0xhhhh]` at `s[at..]` -> (code, characters consumed)
fn raw_escape(s: &[char], at: usize) -> (r: Option<(u16, usize)>)
    requires
        at <= s@.len(),
    ensures
        r matches Some(p) ==> spec_raw_escape(s@.skip(at as int)) == Some((p.0, p.1 as nat)) && at + p.1 <= s@.len(),
        r is None ==> spec_raw_escape(s@.skip(at as int)) is None,
{
    let rest = slice_of(s, at, s.len());
    proof {
        assert(rest@ =~= s@.skip(at as int));
        reveal_strlit("[0x");
    }
    let open = chars_of("[0x");
    if !starts_with_exec(rest.as_slice(), open.as_slice()) {
        return None;
    }
    let body = slice_of(rest.as_slice(), 3, rest.len());
    proof {
        assert(body@ =~= rest@.skip(3));
    }
    match find_char(body.as_slice(), ']') {
        None => None,
        Some(e) => {
            let digits = slice_of(body.as_slice(), 0, e);
            proof {
                assert(digits@ =~= body@.take(e as int));
            }
            match from_hex(digits.as_slice(), 0xffff) {
                Ok(v) => {
                    if 1 <= e && e <= 4 {
                        Some((v as u16, 4 + e))
                    } else {
                        None
                    }
                },
                Err(_) => None,
            }
        },
    }
}

/// `t` begins `s`.
pub open spec fn prefix_of(t: Seq<char>, s: Seq<char>) -> bool {
    t.len() <= s.len() && s.take(t.len() as int) == t
}

/// A token of the table that begins `s`.
pub open spec fn token_fits(tokens: Map<Seq<char>, u16>, t: Seq<char>, s: Seq<char>) -> bool {
    tokens.contains_key(t) && t.len() > 0 && prefix_of(t, s)
}

/// `t` is a token that begins `s`, and no longer token does.
pub open spec fn is_longest(tokens: Map<Seq<char>, u16>, t: Seq<char>, s: Seq<char>) -> bool {
    token_fits(tokens, t, s) && forall|t2: Seq<char>| #[trigger] token_fits(tokens, t2, s) ==> t2.len() <= t.len()
}

/// The longest token that begins `s`, if any does.
pub open spec fn longest_token(tokens: Map<Seq<char>, u16>, s: Seq<char>) -> Option<Seq<char>> {
    if exists|t: Seq<char>| is_longest(tokens, t, s) {
        Some(choose|t: Seq<char>| is_longest(tokens, t, s))
    } else {
        None
    }
}

/// What begins `s[i..]`: a raw escape, else the longest token; its code and
/// how many characters it takes.
pub open spec fn step_at(tokens: Map<Seq<char>, u16>, s: Seq<char>, i: int) -> Option<(u16, int)> {
    match spec_raw_escape(s.skip(i)) {
        Some((c, n)) => Some((c, n as int)),
        None => match longest_token(tokens, s.skip(i)) {
            Some(t) => Some((tokens[t], t.len() as int)),
            None => None,
        },
    }
}

/// The codes of `s[i..]` whose first character lies `pos` bytes into the
/// text, step by step; the first character no step begins is the error,
/// with its byte position.
pub open spec fn spec_encode_at(tokens: Map<Seq<char>, u16>, s: Seq<char>, i: int, pos: nat) -> Result<Seq<u16>, (char, nat)>
    decreases s.len() - i,
{
    if i < 0 || i >= s.len() {
        Ok(Seq::empty())
    } else {
        match step_at(tokens, s, i) {
            Some((c, n)) => if n >= 1 && i + n <= s.len() {
                after(seq![c], spec_encode_at(tokens, s, i + n, pos + utf8_len(s.subrange(i, i + n))))
            } else {
                Ok(Seq::empty())
            },
            None => Err((s[i], pos)),
        }
    }
}

/// What the rest of the encoding gives, after the codes already produced.
pub open spec fn after(done: Seq<u16>, rest: Result<Seq<u16>, (char, nat)>) -> Result<Seq<u16>, (char, nat)> {
    match rest {
        Ok(r) => Ok(done + r),
        Err(e) => Err(e),
    }
}

/// The text of an encoding refusal.
pub open spec fn encode_error_text(c: char, pos: nat) -> Seq<char> {
    "cannot encode "@ + char_debug(c) + " at position "@ + decimal(pos)
        + " (not in the glyph table; use [0xhhhh] for a raw code)"@
}

/// The tokens the encoder matches: every rendering of the table but an empty
/// one and the terminator's, whose rendering is a decode artefact.
pub open spec fn encodable(table: Map<Seq<char>, u16>) -> Map<Seq<char>, u16> {
    table.restrict(Set::new(|t: Seq<char>| table.contains_key(t) && t.len() > 0 && table[t] != 0xF800))
}

/// Each entry of `g` is a token of `tokens`, beginning with the character
/// whose scalar value is `k`.
pub open spec fn group_holds(g: Seq<(Vec<char>, u16)>, k: u32, tokens: Map<Seq<char>, u16>) -> bool {
    forall|i: int|
        0 <= i < g.len() ==> (#[trigger] g[i]).0@.len() > 0 && g[i].0@[0] as u32 == k && tokens.contains_key(g[i].0@) && tokens[g[i].0@]
            == g[i].1
}

/// Longest-match encoder over the rendering -> code table, which refuses text
/// it cannot encode rather than dropping the character. A writer that quietly
/// shortens text can corrupt reviewed copy and hide exactly the errors the
/// fixed-width caps exist to catch.
pub struct Encoder {
    /// the tokens grouped by their first character's scalar value
    by_first: SortedMap<Vec<(Vec<char>, u16)>>,
    tokens: Ghost<Map<Seq<char>, u16>>,
}

impl Encoder {
    /// The tokens and their codes.
    pub closed spec fn tokens(&self) -> Map<Seq<char>, u16> {
        self.tokens@
    }

    pub closed spec fn wf(&self) -> bool {
        &&& self.by_first.wf()
        &&& forall|k: u32| #[trigger] self.by_first@.contains_key(k) ==> group_holds(self.by_first@[k]@, k, self.tokens@)
        &&& forall|t: Seq<char>|
            #[trigger] self.tokens@.contains_key(t) ==> t.len() > 0 && self.by_first@.contains_key(t[0] as u32) && exists|i: int|
                0 <= i < self.by_first@[t[0] as u32]@.len() && (#[trigger] self.by_first@[t[0] as u32]@[i]).0@ == t
    }

    /// An encoder over `table`, whose renderings do not repeat.
    pub fn new(table: &[(String, u16)]) -> (e: Encoder)
        requires
            renderings_unique(table@),
        ensures
            e.wf(),
            e.tokens() == encodable(pairs_map(table@)),
    {
        let mut by_first: SortedMap<Vec<(Vec<char>, u16)>> = SortedMap::new();
        let ghost mut tokens: Map<Seq<char>, u16> = Map::empty();
        proof {
            assert(pairs_map(table@.take(0)) =~= Map::<Seq<char>, u16>::empty());
            assert(encodable(pairs_map(table@.take(0))) =~= Map::<Seq<char>, u16>::empty());
        }
        let mut i: usize = 0;
        while i < table.len()
            invariant
                i <= table@.len(),
                renderings_unique(table@),
                by_first.wf(),
                tokens == encodable(pairs_map(table@.take(i as int))),
                forall|k: u32| #[trigger] by_first@.contains_key(k) ==> group_holds(by_first@[k]@, k, tokens),
                forall|t: Seq<char>|
                    #[trigger] tokens.contains_key(t) ==> t.len() > 0 && by_first@.contains_key(t[0] as u32) && exists|j: int|
                        0 <= j < by_first@[t[0] as u32]@.len() && (#[trigger] by_first@[t[0] as u32]@[j]).0@ == t,
            decreases table@.len() - i,
        {
            let chars = chars_of(table[i].0.as_str());
            let code = table[i].1;
            let ghost before = tokens;
            let ghost old_map = by_first@;
            proof {
                lemma_unique_take(table@, i + 1);
                lemma_pairs_map_push(table@.take(i + 1));
                assert(table@.take(i + 1).drop_last() =~= table@.take(i as int));
                assert(table@.take(i + 1).last() == table@[i as int]);
                assert(!pairs_map(table@.take(i as int)).contains_key(chars@)) by {
                    if pairs_map(table@.take(i as int)).contains_key(chars@) {
                        let k = choose|k: int| 0 <= k < table@.take(i as int).len() && (#[trigger] table@.take(i as int)[k]).0@ == chars@;
                        assert(table@[k].0@ != table@[i as int].0@);
                    }
                }
                assert(!before.contains_key(chars@));
            }
            if chars.len() > 0 && code != 0xF800 {
                let key = chars[0] as u32;
                let mut group = match by_first.remove(key) {
                    Some(g) => g,
                    None => Vec::new(),
                };
                let ghost old_group = group@;
                proof {
                    if old_map.contains_key(key) {
                        assert(old_group == old_map[key]@);
                    } else {
                        assert(old_group.len() == 0);
                    }
                }
                group.push((chars, code));
                by_first.insert(key, group);
                proof {
                    tokens = tokens.insert(chars@, code);
                    assert(tokens =~= encodable(pairs_map(table@.take(i + 1))));
                    assert forall|k: u32| #[trigger] by_first@.contains_key(k) implies group_holds(by_first@[k]@, k, tokens) by {
                        if k == key {
                            assert forall|q: int| 0 <= q < by_first@[k]@.len() implies (#[trigger] by_first@[k]@[q]).0@.len() > 0
                                && by_first@[k]@[q].0@[0] as u32 == k && tokens.contains_key(by_first@[k]@[q].0@) && tokens[by_first@[k]@[q].0@]
                                == by_first@[k]@[q].1 by {
                                if q < old_group.len() {
                                    assert(by_first@[k]@[q] == old_group[q]);
                                    assert(group_holds(old_map[key]@, key, before));
                                    assert(before.contains_key(old_group[q].0@));
                                }
                            }
                        } else {
                            assert(by_first@[k] == old_map[k]);
                            assert(group_holds(old_map[k]@, k, before));
                            assert forall|q: int| 0 <= q < by_first@[k]@.len() implies (#[trigger] by_first@[k]@[q]).0@.len() > 0
                                && by_first@[k]@[q].0@[0] as u32 == k && tokens.contains_key(by_first@[k]@[q].0@) && tokens[by_first@[k]@[q].0@]
                                == by_first@[k]@[q].1 by {
                                assert(before.contains_key(old_map[k]@[q].0@));
                            }
                        }
                    }
                    assert forall|t: Seq<char>| #[trigger] tokens.contains_key(t) implies t.len() > 0 && by_first@.contains_key(t[0] as u32)
                        && exists|j: int| 0 <= j < by_first@[t[0] as u32]@.len() && (#[trigger] by_first@[t[0] as u32]@[j]).0@ == t by {
                        if t == chars@ {
                            assert(by_first@[key]@[old_group.len() as int].0@ == t);
                        } else {
                            assert(before.contains_key(t));
                            let kk = t[0] as u32;
                            let j = choose|j: int| 0 <= j < old_map[kk]@.len() && (#[trigger] old_map[kk]@[j]).0@ == t;
                            if kk == key {
                                assert(by_first@[kk]@[j] == old_map[kk]@[j]);
                            } else {
                                assert(by_first@[kk] == old_map[kk]);
                            }
                        }
                    }
                }
            } else {
                proof {
                    assert(tokens =~= encodable(pairs_map(table@.take(i + 1))));
                }
            }
            i = i + 1;
        }
        proof {
            assert(table@.take(i as int) =~= table@);
        }
        Encoder { by_first, tokens: Ghost(tokens) }
    }
}

proof fn lemma_unique_take(table: Seq<(String, u16)>, n: int)
    requires
        renderings_unique(table),
        0 <= n <= table.len(),
    ensures
        renderings_unique(table.take(n)),
{
    assert forall|i: int, j: int| 0 <= i < j < table.take(n).len() implies (#[trigger] table.take(n)[i]).0@ != (#[trigger] table.take(n)[j]).0@ by {
        assert(table[i].0@ != table[j].0@);
    }
}

/// The map of a table is the map of all but its last entry, with the last
/// entry set.
proof fn lemma_pairs_map_push(table: Seq<(String, u16)>)
    requires
        renderings_unique(table),
        table.len() > 0,
    ensures
        pairs_map(table) == pairs_map(table.drop_last()).insert(table.last().0@, table.last().1),
{
    let d = table.drop_last();
    let n = table.len() - 1;
    lemma_unique_take(table, n);
    assert(d =~= table.take(n));
    assert forall|x: Seq<char>| #[trigger] pairs_map(table).contains_key(x) <==> pairs_map(d).insert(table.last().0@, table.last().1).contains_key(x) by {
        if pairs_map(d).contains_key(x) {
            let k = choose|k: int| 0 <= k < d.len() && (#[trigger] d[k]).0@ == x;
            assert(table[k].0@ == x);
        }
        if pairs_map(table).contains_key(x) && x != table.last().0@ {
            let k = choose|k: int| 0 <= k < table.len() && (#[trigger] table[k]).0@ == x;
            assert(k < n);
            assert(d[k].0@ == x);
        }
        if x == table.last().0@ {
            assert(table[n].0@ == x);
        }
    }
    assert forall|x: Seq<char>| pairs_map(table).contains_key(x) implies #[trigger] pairs_map(table)[x] == pairs_map(d).insert(table.last().0@, table.last().1)[x] by {
        let k = choose|k: int| 0 <= k < table.len() && (#[trigger] table[k]).0@ == x;
        lemma_pairs_map_at(table, k);
        if x != table.last().0@ {
            assert(k < n);
            assert(d[k] == table[k]);
            lemma_pairs_map_at(d, k);
        } else {
            lemma_pairs_map_at(table, n);
        }
    }
    assert(pairs_map(table) =~= pairs_map(d).insert(table.last().0@, table.last().1));
}


/// One step of the encoding: the code of what begins `s[i..]`, then the
/// rest.
proof fn lemma_encode_step(tokens: Map<Seq<char>, u16>, s: Seq<char>, i: int, pos: nat, code: u16, n: int)
    requires
        0 <= i,
        1 <= n,
        i + n <= s.len(),
        step_at(tokens, s, i) == Some((code, n)),
    ensures
        spec_encode_at(tokens, s, i, pos) == after(seq![code], spec_encode_at(tokens, s, i + n, pos + utf8_len(s.subrange(i, i + n)))),
{
}

proof fn lemma_after_push(before: Seq<u16>, code: u16, rest: Result<Seq<u16>, (char, nat)>)
    ensures
        after(before, after(seq![code], rest)) == after(before.push(code), rest),
{
    match rest {
        Ok(r) => {
            assert(before + (seq![code] + r) =~= before.push(code) + r);
        },
        Err(_) => {},
    }
}

/// `t` is a prefix of `s` starting at `i`.
fn prefix_at(t: &[char], s: &[char], i: usize) -> (r: bool)
    requires
        i <= s@.len(),
    ensures
        r == prefix_of(t@, s@.skip(i as int)),
{
    if t.len() > s.len() - i {
        return false;
    }
    let mut k: usize = 0;
    while k < t.len()
        invariant
            k <= t@.len(),
            i + t@.len() <= s@.len(),
            s@.len() == s.len(),
            forall|q: int| 0 <= q < k ==> t@[q] == s@[i + q],
        decreases t@.len() - k,
    {
        if t[k] != s[i + k] {
            assert(s@.skip(i as int).take(t@.len() as int)[k as int] != t@[k as int]);
            return false;
        }
        k = k + 1;
    }
    assert(s@.skip(i as int).take(t@.len() as int) =~= t@);
    true
}

impl Encoder {
    /// The longest token that begins `s[i..]`: its length and code.
    fn longest_at(&self, s: &[char], i: usize) -> (r: Option<(usize, u16)>)
        requires
            self.wf(),
            i < s@.len(),
        ensures
            r matches Some(p) ==> longest_token(self.tokens(), s@.skip(i as int)) matches Some(t) && t.len() == p.0
                && self.tokens()[t] == p.1,
            r is None ==> longest_token(self.tokens(), s@.skip(i as int)) is None,
    {
        let ghost rest = s@.skip(i as int);
        let ghost tokens = self.tokens();
        let key = s[i] as u32;
        let group = match self.by_first.get(key) {
            Some(g) => g,
            None => {
                proof {
                    assert forall|t: Seq<char>| !token_fits(tokens, t, rest) by {
                        if token_fits(tokens, t, rest) {
                            assert(t[0] == rest.take(t.len() as int)[0]);
                            assert(t[0] == s@[i as int]);
                        }
                    }
                }
                return None;
            },
        };
        proof {
            assert(group_holds(group@, key, tokens));
        }
        let mut best: Option<(usize, u16)> = None;
        let ghost mut best_t: Seq<char> = Seq::empty();
        let mut j: usize = 0;
        while j < group.len()
            invariant
                j <= group@.len(),
                i < s@.len(),
                rest == s@.skip(i as int),
                group_holds(group@, key, tokens),
                best matches Some(p) ==> token_fits(tokens, best_t, rest) && best_t.len() == p.0 && tokens[best_t] == p.1,
                forall|q: int| 0 <= q < j && prefix_of((#[trigger] group@[q]).0@, rest) ==> (best matches Some(p) && group@[q].0@.len() <= p.0),
            decreases group@.len() - j,
        {
            let tok = group[j].0.as_slice();
            if prefix_at(tok, s, i) {
                let longer = match best {
                    Some((n, _)) => tok.len() > n,
                    None => true,
                };
                if longer {
                    best = Some((tok.len(), group[j].1));
                    proof {
                        best_t = group@[j as int].0@;
                    }
                }
            }
            j = j + 1;
        }
        proof {
            // every token that begins the rest is in this group
            assert forall|t: Seq<char>| #[trigger] token_fits(tokens, t, rest) implies (best matches Some(p) && t.len() <= p.0) by {
                assert(t[0] == rest.take(t.len() as int)[0]);
                assert(t[0] == s@[i as int]);
                let q = choose|q: int| 0 <= q < self.by_first@[t[0] as u32]@.len() && (#[trigger] self.by_first@[t[0] as u32]@[q]).0@ == t;
                assert(group@[q].0@ == t);
            }
            if best is Some {
                assert(is_longest(tokens, best_t, rest));
                let t = choose|t: Seq<char>| is_longest(tokens, t, rest);
                assert(t.len() == best_t.len());
                assert(t =~= best_t) by {
                    assert(t == rest.take(t.len() as int));
                    assert(best_t == rest.take(best_t.len() as int));
                }
            } else {
                assert forall|t: Seq<char>| !is_longest(tokens, t, rest) by {
                    if is_longest(tokens, t, rest) {
                        assert(token_fits(tokens, t, rest));
                    }
                }
            }
        }
        best
    }

    /// Encode `text`: a raw `[0xhhhh]` escape where one begins, else the
    /// longest token; a character neither begins is refused with its byte
    /// position.
    pub fn encode(&self, text: &str) -> (r: Result<Vec<u16>, String>)
        requires
            self.wf(),
        ensures
            r is Ok <==> spec_encode_at(self.tokens(), text@, 0, 0) is Ok,
            r matches Ok(c) ==> spec_encode_at(self.tokens(), text@, 0, 0) == Ok::<Seq<u16>, (char, nat)>(c@),
            r matches Err(m) ==> spec_encode_at(self.tokens(), text@, 0, 0) matches Err(e) && m@ == encode_error_text(e.0, e.1),
    {
        let s = chars_of(text);
        let nbytes = text.as_bytes().len();
        proof {
            assert(utf8_len(s@) == nbytes);
        }
        let ghost tokens = self.tokens();
        let mut codes: Vec<u16> = Vec::new();
        let mut i: usize = 0;
        let mut pos: usize = 0;
        proof {
            assert(s@.take(0) =~= Seq::<char>::empty());
            assert(codes@ + Seq::<u16>::empty() =~= codes@);
        }
        while i < s.len()
            invariant
                i <= s@.len(),
                s@ == text@,
                utf8_len(s@) <= usize::MAX,
                pos == utf8_len(s@.take(i as int)),
                self.wf(),
                tokens == self.tokens(),
                spec_encode_at(tokens, s@, 0, 0) == after(codes@, spec_encode_at(tokens, s@, i as int, pos as nat)),
            decreases s@.len() - i,
        {
            let step = match raw_escape(s.as_slice(), i) {
                Some((code, n)) => Some((code, n)),
                None => match self.longest_at(s.as_slice(), i) {
                    Some((n, code)) => Some((code, n)),
                    None => None,
                },
            };
            match step {
                None => {
                    let mut m: Vec<char> = Vec::new();
                    push_str(&mut m, "cannot encode ");
                    let q = quote_char(s[i]);
                    append_chars(&mut m, chars_of(q.as_str()).as_slice());
                    push_str(&mut m, " at position ");
                    push_dec(&mut m, pos as u64);
                    push_str(&mut m, " (not in the glyph table; use [0xhhhh] for a raw code)");
                    return Err(string_of(m.as_slice()));
                },
                Some((code, n)) => {
                    proof {
                        assert(step_at(tokens, s@, i as int) == Some((code, n as int)));
                        if spec_raw_escape(s@.skip(i as int)) is None {
                            let t = longest_token(tokens, s@.skip(i as int)).unwrap();
                            assert(is_longest(tokens, t, s@.skip(i as int)));
                        }
                    }
                    let ghost before = codes@;
                    codes.push(code);
                    let mut k: usize = 0;
                    let ghost p0 = pos as nat;
                    while k < n
                        invariant
                            k <= n,
                            i + n <= s@.len(),
                            s@.len() == s.len(),
                            utf8_len(s@) <= usize::MAX,
                            pos == utf8_len(s@.take(i + k)),
                            utf8_len(s@.take(i + k)) == p0 + utf8_len(s@.subrange(i as int, i + k)),
                        decreases n - k,
                    {
                        proof {
                            lemma_utf8_len_step(s@, i + k);
                            lemma_utf8_len_prefix(s@, i + k + 1);
                            assert(s@.subrange(i as int, i + k + 1) =~= s@.subrange(i as int, i + k) + seq![s@[i + k]]);
                            lemma_encode_concat(s@.subrange(i as int, i + k), seq![s@[i + k]]);
                            lemma_encode_one(s@[i + k]);
                        }
                        pos = pos + utf8_width_exec(s[i + k]);
                        k = k + 1;
                    }
                    proof {
                        assert(s@.subrange(i as int, i + n) =~= s@.skip(i as int).take(n as int));
                        assert(codes@ == before.push(code));
                        lemma_encode_step(tokens, s@, i as int, p0, code, n as int);
                        lemma_after_push(before, code, spec_encode_at(tokens, s@, i + n, pos as nat));
                    }
                    i = i + n;
                },
            }
        }
        proof {
            assert(codes@ + Seq::<u16>::empty() =~= codes@);
        }
        Ok(codes)
    }
}


/// One translation entry of a sidecar: the Japanese string's offset, the
/// references recorded above it, and the English, if given.
pub struct TLEntry {
    pub og_ptr: u32,
    pub references: Vec<u32>,
    pub en_string: Option<String>,
}

/// An entry as plain values.
pub type EntryView = (u32, Seq<u32>, Option<Seq<char>>);

pub open spec fn entry_view(e: TLEntry) -> EntryView {
    (
        e.og_ptr,
        e.references@,
        match e.en_string {
            Some(s) => Some(s@),
            None => None,
        },
    )
}

pub open spec fn empty_entry() -> EntryView {
    (0, Seq::empty(), None)
}

/// Where the text after `# reference at ...:` and the two characters after
/// the colon begins: the character three bytes past the colon at `p`.
pub open spec fn cut_after(l: Seq<char>, p: int) -> Option<int> {
    if exists|k: int| p < k <= l.len() && utf8_len(#[trigger] l.subrange(p + 1, k)) == 2 {
        Some(choose|k: int| p < k <= l.len() && utf8_len(#[trigger] l.subrange(p + 1, k)) == 2)
    } else {
        None
    }
}

/// The characters of `s` before its first space; none if it has no space.
pub open spec fn before_space(s: Seq<char>) -> Seq<char> {
    match first_index(s, ' ') {
        Some(i) => s.take(i),
        None => Seq::empty(),
    }
}

/// The characters of `s` after its first space; none if it has no space.
pub open spec fn after_space(s: Seq<char>) -> Seq<char> {
    match first_index(s, ' ') {
        Some(i) => s.skip(i + 1),
        None => Seq::empty(),
    }
}

/// A sidecar line the reader cannot take: a reference line without the colon
/// and the two characters its address follows.
pub open spec fn bad_reference_line(l: Seq<char>) -> bool {
    &&& !blank(l)
    &&& starts_with(l, "# reference at"@)
    &&& (first_index(l, ':') is None || cut_after(l, first_index(l, ':').unwrap()) is None)
}

/// The reader's state after a line: the entries finished, the one being
/// read, and whether its Japanese line has been seen.
#[verifier::opaque]
pub open spec fn patch_line(st: (Seq<EntryView>, EntryView, bool), l: Seq<char>) -> Result<(Seq<EntryView>, EntryView, bool), IntError> {
    let (done, cur, seen) = st;
    if blank(l) {
        if seen {
            Ok((done.push(cur), empty_entry(), false))
        } else {
            Ok(st)
        }
    } else if starts_with(l, "# reference at"@) {
        let rest = l.skip(cut_after(l, first_index(l, ':').unwrap()).unwrap());
        match spec_from_hex(before_space(rest), 0xffff_ffff) {
            Err(e) => Err(e),
            Ok(v) => Ok((done, (cur.0, cur.1.push(v as u32), cur.2), seen)),
        }
    } else if starts_with(l, "0x"@) {
        let rest = l.skip(2);
        match spec_from_hex(before_space(rest), 0xffff_ffff) {
            Err(e) => Err(e),
            Ok(v) => if !seen {
                Ok((done, (v as u32, cur.1, cur.2), true))
            } else if v == cur.0 {
                Ok((done, (cur.0, cur.1, Some(after_space(rest))), seen))
            } else {
                Ok(st)
            },
        }
    } else {
        Ok(st)
    }
}

pub open spec fn patch_state(lines: Seq<Seq<char>>) -> Result<(Seq<EntryView>, EntryView, bool), IntError>
    decreases lines.len(),
{
    if lines.len() == 0 {
        Ok((Seq::empty(), empty_entry(), false))
    } else {
        match patch_state(lines.drop_last()) {
            Err(e) => Err(e),
            Ok(st) => patch_line(st, lines.last()),
        }
    }
}

/// The entries of a sidecar: one per blank-line-separated block that has a
/// Japanese `0xPTR` line, with the `# reference at` lines before and in it
/// and the English repeat of the same pointer; or the first number that
/// does not parse.
pub open spec fn spec_patch(content: Seq<char>) -> Result<Seq<EntryView>, IntError> {
    match patch_state(spec_lines(content)) {
        Err(e) => Err(e),
        Ok((done, cur, seen)) => Ok(if seen { done.push(cur) } else { done }),
    }
}

fn before_space_exec(s: &[char]) -> (r: Vec<char>)
    ensures
        r@ == before_space(s@),
{
    match find_char(s, ' ') {
        Some(i) => {
            let r = slice_of(s, 0, i);
            assert(r@ =~= s@.take(i as int));
            r
        },
        None => Vec::new(),
    }
}

fn after_space_exec(s: &[char]) -> (r: Vec<char>)
    ensures
        r@ == after_space(s@),
{
    match find_char(s, ' ') {
        Some(i) => {
            assert(s@.len() == s.len());
            let r = slice_of(s, i + 1, s.len());
            assert(r@ =~= s@.skip(i + 1));
            r
        },
        None => Vec::new(),
    }
}

/// Where the text three bytes past the colon at `p` begins.
fn cut_after_exec(l: &[char], p: usize) -> (r: Option<usize>)
    requires
        p < l@.len(),
    ensures
        r matches Some(k) ==> cut_after(l@, p as int) == Some(k as int),
        r is None ==> cut_after(l@, p as int) is None,
{
    assert(l@.len() == l.len());
    let mut k: usize = p + 1;
    let mut w: usize = 0;
    proof {
        assert(l@.subrange(p + 1, p + 1) =~= Seq::<char>::empty());
        assert(encode_utf8(Seq::<char>::empty()) =~= Seq::<u8>::empty());
    }
    while w < 2 && k < l.len()
        invariant
            p < k <= l@.len(),
            l@.len() == l.len(),
            w == utf8_len(l@.subrange(p + 1, k as int)),
            w <= 2 || k > p + 1,
            forall|q: int| p < q < k ==> utf8_len(#[trigger] l@.subrange(p + 1, q)) < 2,
        decreases l@.len() - k,
    {
        proof {
            assert(l@.subrange(p + 1, k + 1) =~= l@.subrange(p + 1, k as int) + seq![l@[k as int]]);
            lemma_encode_concat(l@.subrange(p + 1, k as int), seq![l@[k as int]]);
            lemma_encode_one(l@[k as int]);
        }
        w = w + utf8_width_exec(l[k]);
        k = k + 1;
    }
    if w == 2 {
        proof {
            let c = choose|c: int| p < c <= l@.len() && utf8_len(#[trigger] l@.subrange(p + 1, c)) == 2;
            if c < k {
                assert(utf8_len(l@.subrange(p + 1, c)) < 2);
            } else if c > k {
                assert(l@.subrange(p + 1, c) =~= l@.subrange(p + 1, k as int) + l@.subrange(k as int, c));
                lemma_encode_concat(l@.subrange(p + 1, k as int), l@.subrange(k as int, c));
                lemma_utf8_len_positive(l@.subrange(k as int, c));
            }
        }
        Some(k)
    } else {
        proof {
            assert forall|c: int| p < c <= l@.len() implies utf8_len(#[trigger] l@.subrange(p + 1, c)) != 2 by {
                if c < k {
                    assert(utf8_len(l@.subrange(p + 1, c)) < 2);
                } else if c > k {
                    assert(l@.subrange(p + 1, c) =~= l@.subrange(p + 1, k as int) + l@.subrange(k as int, c));
                    lemma_encode_concat(l@.subrange(p + 1, k as int), l@.subrange(k as int, c));
                    if w < 2 {
                        assert(k == l@.len());
                    }
                }
            }
        }
        None
    }
}

/// A non-empty run of characters takes at least one byte.
proof fn lemma_utf8_len_positive(s: Seq<char>)
    requires
        s.len() > 0,
    ensures
        utf8_len(s) >= 1,
{
    assert(s =~= seq![s[0]] + s.drop_first());
    lemma_encode_concat(seq![s[0]], s.drop_first());
    lemma_encode_one(s[0]);
}


fn empty_tl() -> (e: TLEntry)
    ensures
        entry_view(e) == empty_entry(),
{
    TLEntry { og_ptr: 0, references: Vec::new(), en_string: None }
}

/// The reader's state as plain values.
pub open spec fn state_view(entries: Seq<TLEntry>, cur: TLEntry, seen: bool) -> (Seq<EntryView>, EntryView, bool) {
    (entries.map_values(|e: TLEntry| entry_view(e)), entry_view(cur), seen)
}

/// Take one line of a sidecar into the reader's state.
fn read_line(l: &[char], entries: &mut Vec<TLEntry>, cur: &mut TLEntry, seen: &mut bool) -> (r: Result<(), IntError>)
    requires
        !bad_reference_line(l@),
    ensures
        match patch_line(state_view(old(entries)@, *old(cur), *old(seen)), l@) {
            Err(e) => r == Err::<(), IntError>(e),
            Ok(ns) => r is Ok && state_view(final(entries)@, *final(cur), *final(seen)) == ns,
        },
{
    reveal(patch_line);
    let ghost before = entries@.map_values(|e: TLEntry| entry_view(e));
    let ghost st = state_view(entries@, *cur, *seen);
    let reference = chars_of("# reference at");
    let hexmark = chars_of("0x");
    proof {
        reveal_strlit("# reference at");
        reveal_strlit("0x");
    }
    if is_blank(l) {
        if *seen {
            let mut done = empty_tl();
            std::mem::swap(&mut done, cur);
            entries.push(done);
            *seen = false;
            proof {
                assert(entries@.map_values(|e: TLEntry| entry_view(e)) =~= before.push(st.1));
            }
        }
        return Ok(());
    }
    if starts_with_exec(l, reference.as_slice()) {
        let p = match find_char(l, ':') {
            Some(p) => p,
            None => {
                assert(bad_reference_line(l@));
                0
            },
        };
        let cut = match cut_after_exec(l, p) {
            Some(c) => c,
            None => {
                assert(bad_reference_line(l@));
                0
            },
        };
        let rest = slice_of(l, cut, l.len());
        let hex = before_space_exec(rest.as_slice());
        proof {
            assert(rest@ =~= l@.skip(cut as int));
        }
        match from_hex(hex.as_slice(), 0xffff_ffff) {
            Err(e) => {
                return Err(e);
            },
            Ok(v) => {
                cur.references.push(v);
                proof {
                    assert(entries@.map_values(|e: TLEntry| entry_view(e)) == before);
                }
                return Ok(());
            },
        }
    }
    if starts_with_exec(l, hexmark.as_slice()) {
        let rest = slice_of(l, 2, l.len());
        proof {
            assert(rest@ =~= l@.skip(2));
        }
        let ptr_text = before_space_exec(rest.as_slice());
        match from_hex(ptr_text.as_slice(), 0xffff_ffff) {
            Err(e) => {
                return Err(e);
            },
            Ok(v) => {
                if !*seen {
                    cur.og_ptr = v;
                    *seen = true;
                } else if v == cur.og_ptr {
                    let en = after_space_exec(rest.as_slice());
                    cur.en_string = Some(string_of(en.as_slice()));
                }
                return Ok(());
            },
        }
    }
    Ok(())
}

/// Read the entries of a sidecar's text. Numbers that do not parse end the
/// read with std's reason.
pub fn parse_patch(content: &str) -> (r: Result<Vec<TLEntry>, IntError>)
    requires
        forall|i: int| 0 <= i < spec_lines(content@).len() ==> !bad_reference_line(#[trigger] spec_lines(content@)[i]),
    ensures
        r matches Ok(es) ==> spec_patch(content@) == Ok::<Seq<EntryView>, IntError>(es@.map_values(|e: TLEntry| entry_view(e))),
        r matches Err(e) ==> spec_patch(content@) == Err::<Seq<EntryView>, IntError>(e),
{
    let text = chars_of(content);
    let lines = split_lines(text.as_slice());
    let ghost ls = lines@.map_values(|l: Vec<char>| l@);
    let mut entries: Vec<TLEntry> = Vec::new();
    let mut cur = empty_tl();
    let mut seen = false;
    let mut k: usize = 0;
    proof {
        assert(ls.take(0) =~= Seq::<Seq<char>>::empty());
        assert(entries@.map_values(|e: TLEntry| entry_view(e)) =~= Seq::<EntryView>::empty());
    }
    while k < lines.len()
        invariant
            k <= lines@.len(),
            ls == lines@.map_values(|l: Vec<char>| l@),
            ls == spec_lines(content@),
            forall|i: int| 0 <= i < ls.len() ==> !bad_reference_line(#[trigger] ls[i]),
            patch_state(ls.take(k as int)) == Ok::<(Seq<EntryView>, EntryView, bool), IntError>(state_view(entries@, cur, seen)),
        decreases lines@.len() - k,
    {
        let l = lines[k].as_slice();
        proof {
            assert(ls.take(k + 1).drop_last() =~= ls.take(k as int));
            assert(ls.take(k + 1).last() == l@);
            assert(ls[k as int] == l@);
        }
        match read_line(l, &mut entries, &mut cur, &mut seen) {
            Err(e) => {
                proof {
                    lemma_patch_state_err(ls, k as int + 1, e);
                }
                return Err(e);
            },
            Ok(()) => {},
        }
        k = k + 1;
    }
    proof {
        assert(ls.take(k as int) =~= ls);
    }
    let ghost before = entries@.map_values(|e: TLEntry| entry_view(e));
    let ghost last = entry_view(cur);
    if seen {
        entries.push(cur);
        proof {
            assert(entries@.map_values(|e: TLEntry| entry_view(e)) =~= before.push(last));
        }
    }
    Ok(entries)
}

/// An error at a line ends the read there.
proof fn lemma_patch_state_err(ls: Seq<Seq<char>>, n: int, e: IntError)
    requires
        0 < n <= ls.len(),
        patch_state(ls.take(n)) == Err::<(Seq<EntryView>, EntryView, bool), IntError>(e),
    ensures
        patch_state(ls) == Err::<(Seq<EntryView>, EntryView, bool), IntError>(e),
    decreases ls.len() - n,
{
    if n < ls.len() {
        assert(ls.take(n + 1).drop_last() =~= ls.take(n));
        lemma_patch_state_err(ls, n + 1, e);
    } else {
        assert(ls.take(n) =~= ls);
    }
}

/// The reader's state: the entries finished, the one being read, and
/// whether its Japanese line has been seen.
pub type PatchState = (Seq<EntryView>, EntryView, bool);

/// The reader's state after `ls`, read from `st`.
pub open spec fn patch_from(st: PatchState, ls: Seq<Seq<char>>) -> Result<PatchState, IntError>
    decreases ls.len(),
{
    if ls.len() == 0 {
        Ok(st)
    } else {
        match patch_from(st, ls.drop_last()) {
            Err(e) => Err(e),
            Ok(s) => patch_line(s, ls.last()),
        }
    }
}

/// Reading `text` ends on a line break and takes the reader from `st` to
/// `st2`.
pub open spec fn reads_as(st: PatchState, text: Seq<char>, st2: PatchState) -> bool {
    &&& line_state(text).1.len() == 0
    &&& patch_from(st, line_state(text).0) == Ok::<PatchState, IntError>(st2)
}

proof fn lemma_patch_from_concat(st: PatchState, x: Seq<Seq<char>>, y: Seq<Seq<char>>)
    ensures
        patch_from(st, x + y) == match patch_from(st, x) {
            Err(e) => Err(e),
            Ok(s) => patch_from(s, y),
        },
    decreases y.len(),
{
    if y.len() == 0 {
        assert(x + y =~= x);
    } else {
        lemma_patch_from_concat(st, x, y.drop_last());
        assert((x + y).drop_last() =~= x + y.drop_last());
        assert((x + y).last() == y.last());
    }
}

proof fn lemma_patch_state_from(ls: Seq<Seq<char>>)
    ensures
        patch_state(ls) == patch_from((Seq::empty(), empty_entry(), false), ls),
    decreases ls.len(),
{
    if ls.len() > 0 {
        lemma_patch_state_from(ls.drop_last());
    }
}

proof fn lemma_line_state_plain(x: Seq<char>)
    requires
        !x.contains('\n'),
    ensures
        line_state(x) == (Seq::<Seq<char>>::empty(), x),
    decreases x.len(),
{
    if x.len() > 0 {
        let d = x.drop_last();
        assert(!d.contains('\n')) by {
            if d.contains('\n') {
                let i = choose|i: int| 0 <= i < d.len() && d[i] == '\n';
                assert(x[i] == '\n');
            }
        }
        lemma_line_state_plain(d);
        assert(x[x.len() - 1] == x.last());
        assert(d.push(x.last()) =~= x);
    } else {
        assert(x =~= Seq::<char>::empty());
    }
}

proof fn lemma_line_state_concat(a: Seq<char>, b: Seq<char>)
    requires
        line_state(a).1.len() == 0,
    ensures
        line_state(a + b) == (line_state(a).0 + line_state(b).0, line_state(b).1),
    decreases b.len(),
{
    if b.len() == 0 {
        assert(a + b =~= a);
        assert(line_state(a).1 =~= Seq::<char>::empty());
        assert(line_state(a).0 + line_state(b).0 =~= line_state(a).0);
    } else {
        lemma_line_state_concat(a, b.drop_last());
        assert((a + b).drop_last() =~= a + b.drop_last());
        assert((a + b).last() == b.last());
        let (da, ca) = line_state(a);
        let (db, cb) = line_state(b.drop_last());
        if b.last() == '\n' {
            assert((da + db).push(strip_cr(cb)) =~= da + db.push(strip_cr(cb)));
        }
    }
}

/// Reading nothing changes nothing.
pub proof fn lemma_reads_nothing(st: PatchState)
    ensures
        reads_as(st, Seq::empty(), st),
{
}

/// Reading one text and then another is reading the two together.
pub proof fn lemma_reads_concat(st: PatchState, a: Seq<char>, s1: PatchState, b: Seq<char>, s2: PatchState)
    requires
        reads_as(st, a, s1),
        reads_as(s1, b, s2),
    ensures
        reads_as(st, a + b, s2),
{
    lemma_line_state_concat(a, b);
    lemma_patch_from_concat(st, line_state(a).0, line_state(b).0);
}

/// One line, read as the reader reads it.
pub proof fn lemma_reads_line(st: PatchState, x: Seq<char>, st2: PatchState)
    requires
        !x.contains('\n'),
        patch_line(st, strip_cr(x)) == Ok::<PatchState, IntError>(st2),
    ensures
        reads_as(st, x.push('\n'), st2),
{
    lemma_line_state_plain(x);
    let t = x.push('\n');
    assert(t.drop_last() =~= x);
    assert(t.last() == '\n');
    assert(line_state(t) == (Seq::<Seq<char>>::empty().push(strip_cr(x)), Seq::<char>::empty()));
    let ls = line_state(t).0;
    assert(ls =~= seq![strip_cr(x)]);
    assert(ls.drop_last() =~= Seq::<Seq<char>>::empty());
    assert(patch_from(st, ls.drop_last()) == Ok::<PatchState, IntError>(st));
    assert(ls.last() == strip_cr(x));
    assert(patch_from(st, ls) == patch_line(st, strip_cr(x)));
}

/// A text the reader reads from scratch to a state with no entry pending
/// parses to the entries finished.
pub proof fn lemma_read_whole(text: Seq<char>, done: Seq<EntryView>)
    requires
        reads_as((Seq::empty(), empty_entry(), false), text, (done, empty_entry(), false)),
    ensures
        spec_patch(text) == Ok::<Seq<EntryView>, IntError>(done),
{
    lemma_patch_state_from(line_state(text).0);
}

/// A digit `hex_digit` writes reads back as its value.
proof fn lemma_hex_digit_val(d: nat)
    requires
        d < 16,
    ensures
        hex_val(hex_digit(d)) == Some(d),
        ('0' <= hex_digit(d) && hex_digit(d) <= '9') || ('a' <= hex_digit(d) && hex_digit(d) <= 'f'),
{
    if d < 10 {
        assert(hex_digit(d) as nat == 48 + d);
    } else {
        assert(hex_digit(d) as nat == 87 + d);
    }
}

proof fn lemma_hex_digits_read(v: nat, max: nat)
    requires
        v <= max,
    ensures
        hex_run(hex_digits(v), max) == Ok::<nat, IntError>(v),
        forall|i: int| 0 <= i < hex_digits(v).len() ==> ('0' <= #[trigger] hex_digits(v)[i] && hex_digits(v)[i] <= '9') || (
        'a' <= hex_digits(v)[i] && hex_digits(v)[i] <= 'f'),
        hex_digits(v).len() >= 1,
    decreases v,
{
    lemma_hex_digit_val(v % 16);
    if v < 16 {
        let s = hex_digits(v);
        assert(s.drop_last() =~= Seq::<char>::empty());
        assert(s.last() == hex_digit(v));
        assert(hex_run(Seq::<char>::empty(), max) == Ok::<nat, IntError>(0));
        assert(v % 16 == v);
    } else {
        lemma_hex_digits_read(v / 16, max);
        let s = hex_digits(v);
        assert(s.drop_last() =~= hex_digits(v / 16));
        assert(s.last() == hex_digit(v % 16));
        assert((v / 16) * 16 + v % 16 == v);
        assert forall|i: int| 0 <= i < s.len() implies ('0' <= #[trigger] s[i] && s[i] <= '9') || ('a' <= s[i] && s[i] <= 'f') by {
            if i < s.len() - 1 {
                assert(s[i] == hex_digits(v / 16)[i]);
            }
        }
    }
}

proof fn lemma_hex_digits_short(v: nat)
    ensures
        v < 16 ==> hex_digits(v).len() == 1,
        v < 0x100 ==> hex_digits(v).len() <= 2,
        v < 0x1000 ==> hex_digits(v).len() <= 3,
        v < 0x10000 ==> hex_digits(v).len() <= 4,
    decreases v,
{
    if v >= 16 {
        lemma_hex_digits_short(v / 16);
    }
}

proof fn lemma_zeros_read(z: nat, max: nat)
    ensures
        hex_run(Seq::new(z, |i: int| '0'), max) == Ok::<nat, IntError>(0),
    decreases z,
{
    if z > 0 {
        lemma_zeros_read((z - 1) as nat, max);
        assert(Seq::new(z, |i: int| '0').drop_last() =~= Seq::new((z - 1) as nat, |i: int| '0'));
    }
}

/// Leading zeros do not change a hexadecimal number.
proof fn lemma_zeros_then_read(z: nat, d: Seq<char>, max: nat)
    ensures
        hex_run(Seq::new(z, |i: int| '0') + d, max) == hex_run(d, max),
    decreases d.len(),
{
    let zs = Seq::new(z, |i: int| '0');
    if d.len() == 0 {
        lemma_zeros_read(z, max);
        assert(zs + d =~= zs);
    } else {
        lemma_zeros_then_read(z, d.drop_last(), max);
        assert((zs + d).drop_last() =~= zs + d.drop_last());
        assert((zs + d).last() == d.last());
    }
}

/// A code written as four hexadecimal digits reads back as itself.
pub proof fn lemma_hex4_reads_back(v: nat)
    requires
        v < 0x10000,
    ensures
        hex(v, 4).len() == 4,
        spec_from_hex(hex(v, 4), 0xffff) == Ok::<nat, IntError>(v),
{
    lemma_hex_digits_short(v);
    lemma_hex_digits_read(v, 0xffff);
    let d = hex_digits(v);
    if d.len() < 4 {
        lemma_zeros_then_read((4 - d.len()) as nat, d, 0xffff);
    }
    let h = hex(v, 4);
    assert(h[0] != '+') by {
        if d.len() < 4 {
            assert(h[0] == '0');
        } else {
            assert(h[0] == d[0]);
        }
    }
}

/// `format!("{v:x}")` reads back as `v`, and holds only hexadecimal digits.
pub proof fn lemma_hex_reads_back(v: nat, max: nat)
    requires
        v <= max,
    ensures
        spec_from_hex(hex(v, 1), max) == Ok::<nat, IntError>(v),
        hex(v, 1).len() >= 1,
        forall|i: int| 0 <= i < hex(v, 1).len() ==> ('0' <= #[trigger] hex(v, 1)[i] && hex(v, 1)[i] <= '9') || ('a' <= hex(v, 1)[i]
            && hex(v, 1)[i] <= 'f'),
{
    lemma_hex_digits_read(v, max);
    assert(hex(v, 1) == hex_digits(v));
    let s = hex_digits(v);
    assert(('0' <= s[0] && s[0] <= '9') || ('a' <= s[0] && s[0] <= 'f'));
}

/// The two characters after a colon take two bytes when both are ASCII, and
/// the cut lands just past them.
pub proof fn lemma_cut_after_ascii(l: Seq<char>, p: int)
    requires
        0 <= p,
        p + 2 < l.len(),
        (l[p + 1] as u32) < 0x80,
        (l[p + 2] as u32) < 0x80,
    ensures
        cut_after(l, p) == Some(p + 3),
{
    let s = l.subrange(p + 1, p + 3);
    assert(s =~= seq![l[p + 1]] + seq![l[p + 2]]);
    lemma_encode_concat(seq![l[p + 1]], seq![l[p + 2]]);
    lemma_encode_one(l[p + 1]);
    lemma_encode_one(l[p + 2]);
    assert(utf8_len(s) == 2);
    assert(utf8_len(l.subrange(p + 1, p + 3)) == 2);
    let k = choose|k: int| p < k <= l.len() && utf8_len(#[trigger] l.subrange(p + 1, k)) == 2;
    if k < p + 3 {
        if k == p + 1 {
            assert(l.subrange(p + 1, k) =~= Seq::<char>::empty());
        } else {
            assert(l.subrange(p + 1, k) =~= seq![l[p + 1]]);
        }
    } else if k > p + 3 {
        assert(l.subrange(p + 1, k) =~= s + l.subrange(p + 3, k));
        lemma_encode_concat(s, l.subrange(p + 3, k));
        lemma_utf8_len_positive(l.subrange(p + 3, k));
    }
}

/// No character of `s` is a line break.
pub open spec fn no_nl(s: Seq<char>) -> bool {
    forall|i: int| 0 <= i < s.len() ==> s[i] != '\n'
}

pub proof fn lemma_no_nl_concat(a: Seq<char>, b: Seq<char>)
    requires
        no_nl(a),
        no_nl(b),
    ensures
        no_nl(a + b),
{
    assert forall|i: int| 0 <= i < (a + b).len() implies (a + b)[i] != '\n' by {
        if i < a.len() {
            assert((a + b)[i] == a[i]);
        } else {
            assert((a + b)[i] == b[i - a.len()]);
        }
    }
}

/// Every character of `s` is a digit or a lowercase hexadecimal letter.
pub open spec fn hex_chars_only(s: Seq<char>) -> bool {
    forall|i: int| 0 <= i < s.len() ==> ('0' <= #[trigger] s[i] && s[i] <= '9') || ('a' <= s[i] && s[i] <= 'f')
}

pub proof fn lemma_hex_digits_chars(v: nat)
    ensures
        hex_chars_only(hex_digits(v)),
    decreases v,
{
    lemma_hex_reads_back(v, v);
    assert(hex(v, 1) == hex_digits(v));
}

pub proof fn lemma_hex_chars(v: nat, w: nat)
    ensures
        hex_chars_only(hex(v, w)),
        no_nl(hex(v, w)),
{
    lemma_hex_digits_chars(v);
    let d = hex_digits(v);
    let h = hex(v, w);
    if d.len() < w {
        let pad = Seq::new((w - d.len()) as nat, |i: int| '0');
        assert(h == pad + d);
        assert forall|i: int| 0 <= i < h.len() implies ('0' <= #[trigger] h[i] && h[i] <= '9') || ('a' <= h[i] && h[i] <= 'f') by {
            if i < pad.len() {
                assert(h[i] == '0');
            } else {
                assert(h[i] == d[i - pad.len()]);
            }
        }
    }
    assert forall|i: int| 0 <= i < h.len() implies h[i] != '\n' by {
        assert(('0' <= h[i] && h[i] <= '9') || ('a' <= h[i] && h[i] <= 'f'));
    }
}

pub proof fn lemma_decimal_no_nl(v: nat)
    ensures
        no_nl(decimal(v)),
    decreases v,
{
    if v >= 10 {
        lemma_decimal_no_nl(v / 10);
        let d = decimal(v);
        assert forall|i: int| 0 <= i < d.len() implies d[i] != '\n' by {
            if i < d.len() - 1 {
                assert(d[i] == decimal(v / 10)[i]);
            } else {
                assert(d[i] == ((48 + v % 10) as u8) as char);
            }
        }
    } else {
        assert(decimal(v)[0] == ((48 + v) as u8) as char);
    }
}

pub proof fn lemma_first_index_at(s: Seq<char>, c: char, p: int)
    requires
        0 <= p < s.len(),
        s[p] == c,
        forall|j: int| 0 <= j < p ==> s[j] != c,
    ensures
        first_index(s, c) == Some(p),
{
    let i = choose|i: int| 0 <= i < s.len() && s[i] == c && forall|j: int| 0 <= j < i ==> s[j] != c;
    if i < p {
        assert(s[i] == c);
    }
    if p < i {
        assert(s[p] != c);
    }
}

/// The number at the front of `h + tail`, where `h` is a hexadecimal number
/// and `tail` opens with a space, is `h`.
pub proof fn lemma_before_space_hex(h: Seq<char>, tail: Seq<char>)
    requires
        hex_chars_only(h),
        tail.len() > 0,
        tail[0] == ' ',
    ensures
        before_space(h + tail) == h,
{
    let r = h + tail;
    assert(r[h.len() as int] == ' ');
    assert forall|j: int| 0 <= j < h.len() implies r[j] != ' ' by {
        assert(r[j] == h[j]);
        assert(('0' <= h[j] && h[j] <= '9') || ('a' <= h[j] && h[j] <= 'f'));
    }
    lemma_first_index_at(r, ' ', h.len() as int);
    assert(r.take(h.len() as int) =~= h);
}

/// A comment line that is not a reference line changes nothing.
pub proof fn lemma_comment_reads(x: Seq<char>, st: PatchState)
    requires
        no_nl(x),
        x.len() >= 3,
        x[0] == '#',
        x.last() != '\r',
        !starts_with(x, "# reference at"@),
    ensures
        reads_as(st, x.push('\n'), st),
{
    reveal_strlit("0x");
    assert(!x.contains('\n')) by {
        if x.contains('\n') {
            let i = choose|i: int| 0 <= i < x.len() && x[i] == '\n';
            assert(x[i] != '\n');
        }
    }
    assert(strip_cr(x) == x);
    reveal(patch_line);
    assert(!spec_is_ws(x[0]));
    assert(!blank(x));
    assert(x.take(2)[0] == '#');
    assert(!starts_with(x, "0x"@));
    lemma_reads_line(st, x, st);
}

/// A line that starts differently from `p` at `i` does not start with `p`.
pub proof fn lemma_differs_at(l: Seq<char>, p: Seq<char>, i: int)
    requires
        0 <= i < p.len(),
        i < l.len(),
        l[i] != p[i],
    ensures
        !starts_with(l, p),
{
    if starts_with(l, p) {
        assert(l.take(p.len() as int)[i] == l[i]);
    }
}

/// A blank line ends the entry being read, once its Japanese line is in.
pub proof fn lemma_blank_line_reads(done: Seq<EntryView>, cur: EntryView)
    ensures
        reads_as((done, cur, true), Seq::<char>::empty().push('\n'), (done.push(cur), empty_entry(), false)),
{
    reveal(patch_line);
    let x = Seq::<char>::empty();
        assert(strip_cr(x) == x);
    assert(blank(x));
    lemma_reads_line((done, cur, true), x, (done.push(cur), empty_entry(), false));
}

/// The Japanese line names the entry's offset.
pub proof fn lemma_jp_line_reads(o: u32, jp: Seq<char>, done: Seq<EntryView>, cur: EntryView)
    requires
        no_nl(jp),
    ensures
        reads_as((done, cur, false), ("0x"@ + hex(o as nat, 1) + " "@ + jp).push('\n'), (done, (o, cur.1, cur.2), true)),
{
    reveal_strlit("0x");
    reveal_strlit(" ");
    reveal_strlit("# reference at");
    let h = hex(o as nat, 1);
    let x = "0x"@ + h + " "@ + jp;
    lemma_hex_chars(o as nat, 1);
    lemma_no_nl_concat("0x"@, h);
    lemma_no_nl_concat("0x"@ + h, " "@);
    lemma_no_nl_concat("0x"@ + h + " "@, jp);
    assert(!x.contains('\n')) by {
        if x.contains('\n') {
            let i = choose|i: int| 0 <= i < x.len() && x[i] == '\n';
            assert(x[i] != '\n');
        }
    }
    let y = strip_cr(x);
    let keep: int = 3 + h.len() as int;
    assert(y.len() >= keep);
    assert(forall|i: int| 0 <= i < y.len() ==> y[i] == x[i]);
    reveal(patch_line);
    assert(y[0] == '0');
    assert(!spec_is_ws(y[0]));
    assert(!blank(y));
    lemma_differs_at(y, "# reference at"@, 0);
    assert(y.take(2) =~= "0x"@);
    assert(starts_with(y, "0x"@));
    let rest = y.skip(2);
    let tail = rest.skip(h.len() as int);
    assert(rest =~= h + tail);
    assert(tail[0] == ' ');
    lemma_before_space_hex(h, tail);
    lemma_hex_reads_back(o as nat, 0xffff_ffff);
    lemma_reads_line((done, cur, false), x, (done, (o, cur.1, cur.2), true));
}

/// A translated line, `0x<og> ` and then the English, read after the Japanese
/// line of entry `og`, makes the whole rest of the line the entry's English,
/// spaces and all.
#[verifier::spinoff_prover]
pub proof fn lemma_en_line_reads(o: u32, t: Seq<char>, done: Seq<EntryView>, refs: Seq<u32>, en: Option<Seq<char>>)
    requires
        no_nl(t),
        t.len() == 0 || t.last() != '\r',
    ensures
        reads_as((done, (o, refs, en), true), ("0x"@ + hex(o as nat, 1) + " "@ + t).push('\n'), (done, (o, refs, Some(t)), true)),
{
    reveal_strlit("0x");
    reveal_strlit(" ");
    let h = hex(o as nat, 1);
    let x = "0x"@ + h + " "@ + t;
    lemma_hex_chars(o as nat, 1);
    lemma_no_nl_concat("0x"@, h);
    lemma_no_nl_concat("0x"@ + h, " "@);
    lemma_no_nl_concat("0x"@ + h + " "@, t);
    assert(!x.contains('\n')) by {
        if x.contains('\n') {
            let i = choose|i: int| 0 <= i < x.len() && x[i] == '\n';
            assert(x[i] != '\n');
        }
    }
    assert(x.last() != '\r') by {
        if t.len() == 0 {
            assert(x.last() == ' ');
        } else {
            assert(x.last() == t.last());
        }
    }
    assert(strip_cr(x) == x);
    lemma_en_patch_line(o, t, done, refs, en);
    lemma_reads_line((done, (o, refs, en), true), x, (done, (o, refs, Some(t)), true));
}

/// The reader's step on a translated line.
#[verifier::spinoff_prover]
proof fn lemma_en_patch_line(o: u32, t: Seq<char>, done: Seq<EntryView>, refs: Seq<u32>, en: Option<Seq<char>>)
    ensures
        patch_line((done, (o, refs, en), true), "0x"@ + hex(o as nat, 1) + " "@ + t) == Ok::<PatchState, IntError>(
            (done, (o, refs, Some(t)), true),
        ),
{
    reveal_strlit("0x");
    reveal_strlit(" ");
    reveal_strlit("# reference at");
    let h = hex(o as nat, 1);
    let x = "0x"@ + h + " "@ + t;
    lemma_hex_chars(o as nat, 1);
    reveal(patch_line);
    assert(x[0] == '0');
    assert(!spec_is_ws(x[0]));
    assert(!blank(x));
    lemma_differs_at(x, "# reference at"@, 0);
    assert(x.take(2) =~= "0x"@);
    assert(starts_with(x, "0x"@));
    let rest = x.skip(2);
    assert(rest =~= h + (" "@ + t));
    lemma_split_at_space(h, t);
    lemma_hex_reads_back(o as nat, 0xffff_ffff);
}

/// A hexadecimal number, a space, then `t`: the number is before the first
/// space and `t`, whatever spaces it holds, after it.
proof fn lemma_split_at_space(h: Seq<char>, t: Seq<char>)
    requires
        hex_chars_only(h),
    ensures
        before_space(h + (" "@ + t)) == h,
        after_space(h + (" "@ + t)) == t,
{
    reveal_strlit(" ");
    let tail = " "@ + t;
    let r = h + tail;
    assert(tail[0] == ' ');
    lemma_before_space_hex(h, tail);
    assert forall|j: int| 0 <= j < h.len() implies r[j] != ' ' by {
        assert(r[j] == h[j]);
        assert(('0' <= h[j] && h[j] <= '9') || ('a' <= h[j] && h[j] <= 'f'));
    }
    lemma_first_index_at(r, ' ', h.len() as int);
    assert(r.skip(h.len() as int + 1) =~= t);
}

/// A blank line between entries changes nothing.
pub proof fn lemma_blank_line_idle(st: PatchState)
    requires
        !st.2,
    ensures
        reads_as(st, Seq::<char>::empty().push('\n'), st),
{
    reveal(patch_line);
    let x = Seq::<char>::empty();
        assert(strip_cr(x) == x);
    assert(blank(x));
    lemma_reads_line(st, x, st);
}

} // verus!
