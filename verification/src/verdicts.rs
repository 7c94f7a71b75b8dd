//! The decompiled program's verdict on each text address: whether code may
//! move it, and if not, what uses it as a value. Read from the exported
//! `text-refs.json`, one `"0x..": {...}` entry per line.

use vstd::prelude::*;
use std::collections::{HashMap, HashSet};
use crate::ppc::Relocatable;
use crate::text::{chars_of, string_of};
use crate::utils::{spec_is_ws, spec_lines, split_lines, spec_from_hex, from_hex, first_index, starts_with};

verus! {

/// `l` without its leading white space.
pub open spec fn trim_start(l: Seq<char>) -> Seq<char>
    decreases l.len(),
{
    if l.len() > 0 && spec_is_ws(l[0]) {
        trim_start(l.drop_first())
    } else {
        l
    }
}

/// `l` without its trailing white space.
pub open spec fn trim_end(l: Seq<char>) -> Seq<char>
    decreases l.len(),
{
    if l.len() > 0 && spec_is_ws(l.last()) {
        trim_end(l.drop_last())
    } else {
        l
    }
}

/// `str::trim`.
pub open spec fn trim(l: Seq<char>) -> Seq<char> {
    trim_end(trim_start(l))
}

/// The first position, from `i` on, where `p` occurs in `s`.
pub open spec fn find_from(s: Seq<char>, p: Seq<char>, i: int) -> Option<int>
    decreases s.len() + 1 - i,
{
    if i < 0 || i + p.len() > s.len() {
        None
    } else if s.subrange(i, i + p.len()) == p {
        Some(i)
    } else {
        find_from(s, p, i + 1)
    }
}

/// Why an address is blocked: the list after `"blocked_by": [` up to the
/// first `]`, its quotes dropped; nothing when there is none.
pub open spec fn blocked_why(body: Seq<char>) -> Seq<char> {
    match find_from(body, "\"blocked_by\": ["@, 0) {
        None => Seq::empty(),
        Some(i) => {
            let t = body.skip(i + 15);
            match first_index(t, ']') {
                None => Seq::empty(),
                Some(j) => t.take(j).filter(|c: char| c != '"'),
            }
        },
    }
}

/// What one line says: an address, and `None` when it may move or why it
/// may not.
pub open spec fn verdict_line(l: Seq<char>) -> Option<(u32, Option<Seq<char>>)> {
    let t = trim(l);
    if !starts_with(t, "\"0x"@) {
        None
    } else {
        let rest = t.skip(3);
        match find_from(rest, "\":"@, 0) {
            None => None,
            Some(i) => match spec_from_hex(rest.take(i), u32::MAX as nat) {
                Err(_) => None,
                Ok(a) => if find_from(rest.skip(i + 2), "\"relocatable\": true"@, 0) is Some {
                    Some((a as u32, None))
                } else {
                    Some((a as u32, Some(blocked_why(rest.skip(i + 2)))))
                },
            },
        }
    }
}

/// The verdicts of the first `k` lines, a later line about an address
/// replacing the reason an earlier one gave.
pub open spec fn verdicts_of(lines: Seq<Seq<char>>, k: int) -> (Set<u32>, Map<u32, Seq<char>>)
    decreases k,
{
    if k <= 0 {
        (Set::empty(), Map::empty())
    } else {
        let prev = verdicts_of(lines, k - 1);
        match verdict_line(lines[k - 1]) {
            None => prev,
            Some((a, None)) => (prev.0.insert(a), prev.1),
            Some((a, Some(why))) => (prev.0, prev.1.insert(a, why)),
        }
    }
}

fn trim_exec(l: &[char]) -> (out: Vec<char>)
    ensures
        out@ == trim(l@),
{
    let mut lo: usize = 0;
    assert(l@.skip(0) =~= l@);
    while lo < l.len() && crate::utils::is_ws(l[lo])
        invariant
            lo <= l@.len(),
            trim_start(l@) == trim_start(l@.skip(lo as int)),
        decreases l@.len() - lo,
    {
        proof {
            assert(l@.skip(lo as int).drop_first() =~= l@.skip(lo + 1));
        }
        lo = lo + 1;
    }
    let mut hi: usize = l.len();
    proof {
        assert(trim_start(l@) == l@.skip(lo as int));
        assert(l@.skip(lo as int) =~= l@.subrange(lo as int, hi as int));
    }
    while hi > lo && crate::utils::is_ws(l[hi - 1])
        invariant
            lo <= hi <= l@.len(),
            trim(l@) == trim_end(l@.subrange(lo as int, hi as int)),
        decreases hi,
    {
        proof {
            assert(l@.subrange(lo as int, hi as int).drop_last() =~= l@.subrange(lo as int, hi - 1));
        }
        hi = hi - 1;
    }
    let mut out: Vec<char> = Vec::new();
    let mut i = lo;
    while i < hi
        invariant
            lo <= i <= hi,
            hi <= l@.len(),
            out@ == l@.subrange(lo as int, i as int),
        decreases hi - i,
    {
        out.push(l[i]);
        proof {
            assert(out@ =~= l@.subrange(lo as int, i + 1));
        }
        i = i + 1;
    }
    out
}

/// Whether `p` occurs in `s` at `i`.
fn at_exec(s: &[char], p: &[char], i: usize) -> (r: bool)
    requires
        i + p@.len() <= s@.len(),
    ensures
        r == (s@.subrange(i as int, i + p@.len()) == p@),
{
    let mut k: usize = 0;
    while k < p.len()
        invariant
            i + p@.len() <= s@.len(),
            s@.len() == s.len(),
            k <= p@.len(),
            forall|j: int| 0 <= j < k ==> s@[i + j] == p@[j],
        decreases p@.len() - k,
    {
        if s[i + k] != p[k] {
            assert(s@.subrange(i as int, i + p@.len())[k as int] != p@[k as int]);
            return false;
        }
        k = k + 1;
    }
    assert(s@.subrange(i as int, i + p@.len()) =~= p@);
    true
}

/// `find_from(s, p, 0)`.
fn find_exec(s: &[char], p: &[char]) -> (r: Option<usize>)
    requires
        p@.len() > 0,
    ensures
        r matches Some(i) ==> find_from(s@, p@, 0) == Some(i as int) && i + p@.len() <= s@.len(),
        r is None ==> find_from(s@, p@, 0) is None,
{
    let mut i: usize = 0;
    while i <= s.len() && p.len() <= s.len() - i
        invariant
            p@.len() > 0,
            s@.len() == s.len(),
            i <= s@.len(),
            find_from(s@, p@, 0) == find_from(s@, p@, i as int),
        decreases s@.len() + 1 - i,
    {
        if at_exec(s, p, i) {
            return Some(i);
        }
        i = i + 1;
    }
    None
}

fn skip_exec(s: &[char], n: usize) -> (out: Vec<char>)
    requires
        n <= s@.len(),
    ensures
        out@ == s@.skip(n as int),
{
    let mut out: Vec<char> = Vec::new();
    let mut i = n;
    while i < s.len()
        invariant
            n <= i <= s@.len(),
            out@ == s@.subrange(n as int, i as int),
        decreases s@.len() - i,
    {
        out.push(s[i]);
        proof {
            assert(out@ =~= s@.subrange(n as int, i + 1));
        }
        i = i + 1;
    }
    assert(out@ =~= s@.skip(n as int));
    out
}

fn blocked_why_exec(body: &[char]) -> (out: Vec<char>)
    ensures
        out@ == blocked_why(body@),
{
    let pat = chars_of("\"blocked_by\": [");
    proof {
        reveal_strlit("\"blocked_by\": [");
        assert(pat@.len() == 15);
    }
    match find_exec(body, pat.as_slice()) {
        None => Vec::new(),
        Some(i) => {
            let n = body.len();
            assert(i + 15 <= n);
            let t = skip_exec(body, i + 15);
            let mut out: Vec<char> = Vec::new();
            let mut j: usize = 0;
            while j < t.len() && t[j] != ']'
                invariant
                    j <= t@.len(),
                    forall|k: int| 0 <= k < j ==> t@[k] != ']',
                    out@ == t@.take(j as int).filter(|c: char| c != '"'),
                decreases t@.len() - j,
            {
                proof {
                    assert(t@.take(j + 1) =~= t@.take(j as int).push(t@[j as int]));
                    t@.take(j as int).lemma_filter_push(t@[j as int], |c: char| c != '"');
                }
                if t[j] != '"' {
                    out.push(t[j]);
                }
                j = j + 1;
            }
            if j == t.len() {
                proof {
                    assert(first_index(t@, ']') is None);
                }
                Vec::new()
            } else {
                proof {
                    let k = choose|k: int| 0 <= k < t@.len() && t@[k] == ']' && forall|m: int| 0 <= m < k ==> t@[m] != ']';
                    assert(t@[j as int] == ']');
                    if k < j {
                    } else if k > j {
                    }
                    assert(first_index(t@, ']') == Some(j as int));
                }
                out
            }
        },
    }
}

/// What one line says.
fn verdict_line_exec(l: &[char]) -> (r: Option<(u32, Option<Vec<char>>)>)
    ensures
        match verdict_line(l@) {
            None => r is None,
            Some((a, None)) => r == Some::<(u32, Option<Vec<char>>)>((a, None)),
            Some((a, Some(w))) => r matches Some((b, Some(v))) && b == a && v@ == w,
        },
{
    let t = trim_exec(l);
    let head = chars_of("\"0x");
    proof {
        reveal_strlit("\"0x");
    }
    if !(head.len() <= t.len() && at_exec(t.as_slice(), head.as_slice(), 0)) {
        proof {
            if head@.len() <= t@.len() {
                assert(t@.take(3) =~= t@.subrange(0, 3));
            }
        }
        return None;
    }
    proof {
        assert(t@.take(3) =~= t@.subrange(0, 3));
    }
    let rest = skip_exec(t.as_slice(), 3);
    let sep = chars_of("\":");
    proof {
        reveal_strlit("\":");
    }
    let i = match find_exec(rest.as_slice(), sep.as_slice()) {
        None => {
            return None;
        },
        Some(i) => i,
    };
    let mut addr_chars: Vec<char> = Vec::new();
    let mut k: usize = 0;
    while k < i
        invariant
            k <= i,
            i <= rest@.len(),
            addr_chars@ == rest@.take(k as int),
        decreases i - k,
    {
        addr_chars.push(rest[k]);
        proof {
            assert(addr_chars@ =~= rest@.take(k + 1));
        }
        k = k + 1;
    }
    let a = match from_hex(addr_chars.as_slice(), u32::MAX) {
        Err(_) => {
            return None;
        },
        Ok(a) => a,
    };
    let body = skip_exec(rest.as_slice(), i + 2);
    let yes = chars_of("\"relocatable\": true");
    proof {
        reveal_strlit("\"relocatable\": true");
    }
    if find_exec(body.as_slice(), yes.as_slice()).is_some() {
        Some((a, None))
    } else {
        Some((a, Some(blocked_why_exec(body.as_slice()))))
    }
}

/// Read the verdicts out of `text-refs.json`.
pub fn relocatable_constants(text: &str) -> (r: Relocatable)
    ensures
        r.ok@ == verdicts_of(spec_lines(text@), spec_lines(text@).len() as int).0,
        r.blocked@.map_values(|s: String| s@) == verdicts_of(spec_lines(text@), spec_lines(text@).len() as int).1,
{
    broadcast use vstd::std_specs::hash::group_hash_axioms;
    let chars = chars_of(text);
    let lines = split_lines(chars.as_slice());
    let ghost ls = spec_lines(text@);
    let mut ok: HashSet<u32> = HashSet::new();
    let mut blocked: HashMap<u32, String> = HashMap::new();
    proof {
        assert(ok@ =~= Set::<u32>::empty());
        assert(blocked@.map_values(|s: String| s@) =~= Map::<u32, Seq<char>>::empty());
    }
    let mut k: usize = 0;
    while k < lines.len()
        invariant
            lines@.map_values(|l: Vec<char>| l@) == ls,
            k <= lines@.len(),
            ok@ == verdicts_of(ls, k as int).0,
            blocked@.map_values(|s: String| s@) == verdicts_of(ls, k as int).1,
        decreases lines@.len() - k,
    {
        proof {
            assert(ls[k as int] == lines@[k as int]@);
        }
        match verdict_line_exec(lines[k].as_slice()) {
            None => {},
            Some((a, None)) => {
                ok.insert(a);
            },
            Some((a, Some(why))) => {
                let w = string_of(why.as_slice());
                let ghost wv = w@;
                blocked.insert(a, w);
                proof {
                    assert(blocked@.map_values(|s: String| s@) =~= verdicts_of(ls, k as int).1.insert(a, wv));
                }
            },
        }
        k = k + 1;
    }
    Relocatable { ok, blocked }
}

} // verus!
