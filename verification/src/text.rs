//! Numbers written out as characters, and the conversions between `String`
//! and the character vectors the rest of the library computes with.

use vstd::prelude::*;

verus! {

/// The lowercase hexadecimal digit for `d` (< 16).
pub open spec fn hex_digit(d: nat) -> char {
    if d < 10 {
        ((48 + d) as u8) as char
    } else {
        ((87 + d) as u8) as char
    }
}

/// The uppercase hexadecimal digit for `d` (< 16).
pub open spec fn hex_digit_upper(d: nat) -> char {
    if d < 10 {
        ((48 + d) as u8) as char
    } else {
        ((55 + d) as u8) as char
    }
}

/// `v` in lowercase hexadecimal, no leading zeros (a single `0` for zero).
pub open spec fn hex_digits(v: nat) -> Seq<char>
    decreases v,
{
    if v < 16 {
        seq![hex_digit(v)]
    } else {
        hex_digits(v / 16).push(hex_digit(v % 16))
    }
}

/// `v` in uppercase hexadecimal, no leading zeros.
pub open spec fn hex_digits_upper(v: nat) -> Seq<char>
    decreases v,
{
    if v < 16 {
        seq![hex_digit_upper(v)]
    } else {
        hex_digits_upper(v / 16).push(hex_digit_upper(v % 16))
    }
}

/// `digits` left-padded with `'0'` to at least `width` characters.
pub open spec fn zero_pad(digits: Seq<char>, width: nat) -> Seq<char> {
    if digits.len() >= width {
        digits
    } else {
        Seq::new((width - digits.len()) as nat, |i: int| '0') + digits
    }
}

/// `format!("{v:0width$x}")`
pub open spec fn hex(v: nat, width: nat) -> Seq<char> {
    zero_pad(hex_digits(v), width)
}

/// `format!("{v:0width$X}")`
pub open spec fn hex_upper(v: nat, width: nat) -> Seq<char> {
    zero_pad(hex_digits_upper(v), width)
}

/// `v` in decimal, no leading zeros.
pub open spec fn decimal(v: nat) -> Seq<char>
    decreases v,
{
    if v < 10 {
        seq![((48 + v) as u8) as char]
    } else {
        decimal(v / 10).push(((48 + v % 10) as u8) as char)
    }
}

fn digit_char(d: u64, upper: bool) -> (c: char)
    requires
        d < 16,
    ensures
        !upper ==> c == hex_digit(d as nat),
        upper ==> c == hex_digit_upper(d as nat),
{
    if d < 10 {
        ((48 + d) as u8) as char
    } else if upper {
        ((55 + d) as u8) as char
    } else {
        ((87 + d) as u8) as char
    }
}

proof fn lemma_hex_digits_len(v: nat)
    ensures
        hex_digits(v).len() >= 1,
        hex_digits_upper(v).len() == hex_digits(v).len(),
    decreases v,
{
    if v >= 16 {
        lemma_hex_digits_len(v / 16);
    }
}

/// The hexadecimal digits of `v`, lowercase or uppercase, zero padded to
/// `width`.
pub fn hex_chars(v: u64, width: usize, upper: bool) -> (out: Vec<char>)
    requires
        width <= 64,
    ensures
        !upper ==> out@ == hex(v as nat, width as nat),
        upper ==> out@ == hex_upper(v as nat, width as nat),
{
    let digits = hex_digits_of(v, upper);
    let mut out: Vec<char> = Vec::new();
    let mut k: usize = digits.len();
    while k < width
        invariant
            out@ == Seq::new((k - digits@.len()) as nat, |i: int| '0'),
            digits@.len() <= k,
            k <= width || k == digits@.len(),
        decreases width - k,
    {
        out.push('0');
        proof {
            assert(out@ =~= Seq::new((k + 1 - digits@.len()) as nat, |i: int| '0'));
        }
        k = k + 1;
    }
    let mut i: usize = 0;
    let ghost pad = out@;
    while i < digits.len()
        invariant
            i <= digits@.len(),
            out@ == pad + digits@.take(i as int),
        decreases digits@.len() - i,
    {
        out.push(digits[i]);
        proof {
            assert(digits@.take(i + 1) =~= digits@.take(i as int).push(digits@[i as int]));
        }
        i = i + 1;
    }
    proof {
        assert(digits@.take(digits@.len() as int) =~= digits@);
        lemma_hex_digits_len(v as nat);
        if digits@.len() >= width {
            assert(pad =~= Seq::<char>::empty());
            assert(out@ =~= digits@);
        } else {
            assert(pad =~= Seq::new((width - digits@.len()) as nat, |i: int| '0'));
        }
    }
    out
}

fn hex_digits_of(v: u64, upper: bool) -> (out: Vec<char>)
    ensures
        !upper ==> out@ == hex_digits(v as nat),
        upper ==> out@ == hex_digits_upper(v as nat),
    decreases v,
{
    if v < 16 {
        let mut out = Vec::new();
        out.push(digit_char(v, upper));
        proof {
            assert(out@ =~= seq![out@[0]]);
        }
        out
    } else {
        let mut out = hex_digits_of(v / 16, upper);
        out.push(digit_char(v % 16, upper));
        out
    }
}

/// The decimal digits of `v`.
pub fn decimal_chars(v: u64) -> (out: Vec<char>)
    ensures
        out@ == decimal(v as nat),
    decreases v,
{
    if v < 10 {
        let mut out = Vec::new();
        out.push(((48 + v) as u8) as char);
        proof {
            assert(out@ =~= seq![((48 + v) as u8) as char]);
        }
        out
    } else {
        let mut out = decimal_chars(v / 10);
        out.push(((48 + v % 10) as u8) as char);
        out
    }
}

/// Append every character of `src` to `out`.
pub fn append_chars(out: &mut Vec<char>, src: &[char])
    ensures
        final(out)@ == old(out)@ + src@,
{
    let mut i: usize = 0;
    let ghost start = out@;
    while i < src.len()
        invariant
            i <= src@.len(),
            out@ == start + src@.take(i as int),
        decreases src@.len() - i,
    {
        out.push(src[i]);
        proof {
            assert(src@.take(i + 1) =~= src@.take(i as int).push(src@[i as int]));
        }
        i = i + 1;
    }
    assert(src@.take(src@.len() as int) =~= src@);
}

/// The characters of `s`, in order (`str::chars`).
#[verifier::external_body]
pub fn chars_of(s: &str) -> (out: Vec<char>)
    ensures
        out@ == s@,
{
    s.chars().collect()
}

/// The string made of `chars`, in order (`FromIterator<char>` for `String`).
#[verifier::external_body]
pub fn string_of(chars: &[char]) -> (out: String)
    ensures
        out@ == chars@,
{
    chars.iter().collect()
}


/// Append the characters of `s`.
pub fn push_str(out: &mut Vec<char>, s: &str)
    ensures
        final(out)@ == old(out)@ + s@,
{
    let c = chars_of(s);
    append_chars(out, c.as_slice());
}

/// Append `v` in hexadecimal, zero padded to `width`.
pub fn push_hex(out: &mut Vec<char>, v: u64, width: usize)
    requires
        width <= 64,
    ensures
        final(out)@ == old(out)@ + hex(v as nat, width as nat),
{
    let c = hex_chars(v, width, false);
    append_chars(out, c.as_slice());
}

/// Append `v` in decimal.
pub fn push_dec(out: &mut Vec<char>, v: u64)
    ensures
        final(out)@ == old(out)@ + decimal(v as nat),
{
    let c = decimal_chars(v);
    append_chars(out, c.as_slice());
}

/// `format!("{:04x?}", vs)`: the list in brackets, each entry four hex digits,
/// separated by `", "`.
pub open spec fn hex_list(vs: Seq<u16>) -> Seq<char> {
    "["@ + hex_join(vs) + "]"@
}

pub open spec fn hex_join(vs: Seq<u16>) -> Seq<char>
    decreases vs.len(),
{
    if vs.len() == 0 {
        Seq::empty()
    } else if vs.len() == 1 {
        hex(vs[0] as nat, 4)
    } else {
        hex_join(vs.drop_last()) + ", "@ + hex(vs.last() as nat, 4)
    }
}

/// Append `hex_list(vs)`.
pub fn push_hex_list(out: &mut Vec<char>, vs: &[u16])
    ensures
        final(out)@ == old(out)@ + hex_list(vs@),
{
    let ghost start = out@;
    push_str(out, "[");
    let ghost open = out@;
    let mut i: usize = 0;
    while i < vs.len()
        invariant
            i <= vs@.len(),
            out@ == open + hex_join(vs@.take(i as int)),
        decreases vs@.len() - i,
    {
        let ghost before = out@;
        if i > 0 {
            push_str(out, ", ");
        }
        push_hex(out, vs[i] as u64, 4);
        proof {
            let t = vs@.take(i + 1);
            assert(t.drop_last() =~= vs@.take(i as int));
            if i == 0 {
                assert(vs@.take(0) =~= Seq::<u16>::empty());
                assert(hex_join(t) == hex(vs@[0] as nat, 4));
                assert(out@ =~= open + hex_join(t));
            } else {
                assert(out@ =~= open + hex_join(t));
            }
        }
        i = i + 1;
    }
    push_str(out, "]");
    assert(vs@.take(vs@.len() as int) =~= vs@);
    assert(out@ =~= start + hex_list(vs@));
}


/// What `format!("{:?}", s)` gives for a string: std's quoted, escaped form.
pub uninterp spec fn debug_quoted(s: Seq<char>) -> Seq<char>;

/// The string quoted and escaped as std's `Debug` for `str` writes it.
#[verifier::external_body]
pub fn quote_debug(s: &str) -> (out: String)
    ensures
        out@ == debug_quoted(s@),
{
    format!("{:?}", s)
}

/// `format!("{:04x?}", m)` of a map: `{key: value, ...}` in key order, each
/// number four hex digits.
pub open spec fn hex_map(entries: Seq<(u32, usize)>) -> Seq<char> {
    "{"@ + hex_map_join(entries) + "}"@
}

pub open spec fn hex_map_join(entries: Seq<(u32, usize)>) -> Seq<char>
    decreases entries.len(),
{
    if entries.len() == 0 {
        Seq::empty()
    } else if entries.len() == 1 {
        hex(entries[0].0 as nat, 4) + ": "@ + hex(entries[0].1 as nat, 4)
    } else {
        hex_map_join(entries.drop_last()) + ", "@ + hex(entries.last().0 as nat, 4) + ": "@ + hex(entries.last().1 as nat, 4)
    }
}

/// Append `hex_map(entries)`.
pub fn push_hex_map(out: &mut Vec<char>, entries: &[(u32, usize)])
    ensures
        final(out)@ == old(out)@ + hex_map(entries@),
{
    let ghost start = out@;
    push_str(out, "{");
    let ghost open = out@;
    let mut i: usize = 0;
    while i < entries.len()
        invariant
            i <= entries@.len(),
            out@ == open + hex_map_join(entries@.take(i as int)),
        decreases entries@.len() - i,
    {
        if i > 0 {
            push_str(out, ", ");
        }
        push_hex(out, entries[i].0 as u64, 4);
        push_str(out, ": ");
        push_hex(out, entries[i].1 as u64, 4);
        proof {
            let t = entries@.take(i + 1);
            assert(t.drop_last() =~= entries@.take(i as int));
            if i == 0 {
                assert(entries@.take(0) =~= Seq::<(u32, usize)>::empty());
            }
            assert(out@ =~= open + hex_map_join(t));
        }
        i = i + 1;
    }
    push_str(out, "}");
    assert(entries@.take(entries@.len() as int) =~= entries@);
    assert(out@ =~= start + hex_map(entries@));
}


/// What `format!("{:?}", c)` gives for a character: std's quoted, escaped
/// form.
pub uninterp spec fn char_debug(c: char) -> Seq<char>;

/// The character quoted and escaped as std's `Debug` for `char` writes it.
#[verifier::external_body]
pub fn quote_char(c: char) -> (out: String)
    ensures
        out@ == char_debug(c),
{
    format!("{:?}", c)
}

} // verus!
